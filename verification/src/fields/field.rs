//! `GF(2)[X]/(X^162 + X^81 + 1)` is a field.
//!
//! Squaring is additive, and since `X^243 = 1` and 2 has order 162 modulo 243 it comes back to
//! where it began after 162 rounds. The product of the 162 conjugates of an element is fixed under
//! squaring, only 0 and 1 are, and it is 0 for 0 alone: so the other 161 conjugates multiply to an
//! inverse.
use super::scalar::f162;
use vstd::arithmetic::div_mod::*;
use vstd::prelude::*;

verus! {

// ---------------------------------------------------------------------------------------------
// powers of X
// ---------------------------------------------------------------------------------------------

/// `X^t`: since `X^243 = 1` and `X^162 = X^81 + 1`, one place or two.
pub open spec fn power(t: int) -> Seq<bool> {
    let r = t % 243;
    Seq::new(
        162,
        |j: int|
            if r < 162 {
                j == r
            } else {
                j == r - 81 || j == r - 162
            },
    )
}

proof fn lemma_power(t: nat)
    ensures
        f162().shl(f162().one(), t) == power(t as int),
    decreases t,
{
    let k = f162();
    if t == 0 {
        assert(k.one() =~= power(0));
    } else {
        let s = (t - 1) as nat;
        lemma_power(s);
        let r = s as int % 243;
        assert(t as int % 243 == (if r == 242 {
            0
        } else {
            r + 1
        }));
        let (a, b) = (k.xtime(power(s as int)), power(t as int));
        assert forall|i: int| 0 <= i < 162 implies a[i] == b[i] by {
            assert(k.taps.contains(i) <==> i == 0 || i == 81);
        }
        assert(a =~= b);
    }
}

// ---------------------------------------------------------------------------------------------
// squaring
// ---------------------------------------------------------------------------------------------

pub open spec fn square(a: Seq<bool>) -> Seq<bool> {
    f162().mul(a, a)
}

/// Squaring is additive.
pub proof fn square_sum(a: Seq<bool>, b: Seq<bool>)
    requires
        f162().elem(a),
        f162().elem(b),
    ensures
        square(f162().sum(a, b)) == f162().sum(square(a), square(b)),
{
    let k = f162();
    let s = k.sum(a, b);
    k.mul_sum_left(a, b, s);
    k.mul_sum_right(a, a, b);
    k.mul_sum_right(b, a, b);
    k.mul_comm(a, b);
    let (x, y, z) = (square(a), k.mul(a, b), square(b));
    assert(k.sum(k.sum(x, y), k.sum(y, z)) =~= k.sum(x, z));
}

/// Squaring is multiplicative.
proof fn lemma_square_mul(a: Seq<bool>, b: Seq<bool>)
    requires
        f162().elem(a),
        f162().elem(b),
    ensures
        square(f162().mul(a, b)) == f162().mul(square(a), square(b)),
{
    let k = f162();
    let p = k.mul(a, b);
    k.mul_elem(a, b);
    k.mul_elem(b, b);
    k.mul_elem(b, p);
    k.mul_assoc(a, b, p);
    k.mul_comm(b, p);
    k.mul_assoc(a, b, b);
    k.mul_assoc(a, a, k.mul(b, b));
}

proof fn lemma_square_power(t: nat)
    ensures
        square(power(t as int)) == power(2 * t as int),
{
    let k = f162();
    let x = k.shl(k.one(), t);
    lemma_power(t);
    lemma_power(2 * t);
    k.shl_elem(k.one(), t);
    k.mul_shl_left(k.one(), x, t);
    k.mul_one(x);
    k.shl_shl(k.one(), t, t);
}

/// Coefficient `j` of the square.
spec fn coefficient(e: Seq<bool>, j: int) -> bool {
    if j % 2 == 0 {
        e[j / 2] != (j <= 80 && e[81 + j / 2])
    } else if j < 81 {
        e[(j + 243) / 2]
    } else {
        e[(j + 81) / 2]
    }
}

/// The square by its coefficients.
spec fn doubled(e: Seq<bool>) -> Seq<bool> {
    Seq::new(162, |j: int| coefficient(e, j))
}

proof fn lemma_doubled_power(i: int)
    requires
        0 <= i < 162,
    ensures
        doubled(power(i)) == power(2 * i),
{
    let (a, b) = (doubled(power(i)), power(2 * i));
    assert(i % 243 == i);
    assert((2 * i) % 243 == (if 2 * i < 243 {
        2 * i
    } else {
        2 * i - 243
    }));
    assert forall|j: int| 0 <= j < 162 implies a[j] == b[j] by {
        let h = j / 2;
        assert(j == 2 * h || j == 2 * h + 1);
        if j % 2 != 0 {
            assert((j + 243) / 2 == h + 122);
            assert((j + 81) / 2 == h + 41);
        }
    }
    assert(a =~= b);
}

/// The first `k + 1` coefficients are the first `k` and one more.
proof fn lemma_low(a: Seq<bool>, k: int)
    requires
        f162().elem(a),
        0 <= k < 162,
    ensures
        f162().low(a, k + 1) == f162().sum(f162().low(a, k), f162().scale(a[k], power(k))),
{
    assert(k % 243 == k);
    assert(f162().low(a, k + 1) =~= f162().sum(f162().low(a, k), f162().scale(a[k], power(k))));
}

proof fn lemma_square_low(a: Seq<bool>, k: nat)
    requires
        f162().elem(a),
        k <= 162,
    ensures
        square(f162().low(a, k as int)) == doubled(f162().low(a, k as int)),
    decreases k,
{
    let g = f162();
    if k == 0 {
        assert(g.low(a, 0) =~= g.zero());
        g.mul_zero(g.zero());
        assert(doubled(g.zero()) =~= g.zero());
    } else {
        let i = k - 1;
        let (low, t) = (g.low(a, i), g.scale(a[i], power(i)));
        lemma_square_low(a, i as nat);
        lemma_low(a, i);
        square_sum(low, t);
        lemma_square_power(i as nat);
        lemma_doubled_power(i);
        g.mul_zero(g.zero());
        assert(doubled(g.zero()) =~= g.zero());
        assert(doubled(g.sum(low, t)) =~= g.sum(doubled(low), doubled(t)));
    }
}

proof fn lemma_square(a: Seq<bool>)
    requires
        f162().elem(a),
    ensures
        square(a) == doubled(a),
{
    lemma_square_low(a, 162);
    assert(f162().low(a, 162) =~= a);
}

// ---------------------------------------------------------------------------------------------
// squaring again and again
// ---------------------------------------------------------------------------------------------

/// `a^(2^n)`.
pub open spec fn conjugate(a: Seq<bool>, n: nat) -> Seq<bool>
    decreases n,
{
    if n == 0 {
        a
    } else {
        square(conjugate(a, (n - 1) as nat))
    }
}

/// `2^n mod 243`.
spec fn doubling(n: nat) -> int
    decreases n,
{
    if n == 0 {
        1
    } else {
        2 * doubling((n - 1) as nat) % 243
    }
}

proof fn lemma_doubling(n: nat)
    ensures
        0 <= doubling(n) < 243,
    decreases n,
{
    if n > 0 {
        lemma_doubling((n - 1) as nat);
    }
}

proof fn lemma_doubling_sum(m: nat, n: nat)
    ensures
        doubling(m + n) == doubling(m) * doubling(n) % 243,
    decreases n,
{
    if n == 0 {
        let x = doubling(m);
        lemma_doubling(m);
        assert(x * 1 == x) by (nonlinear_arith);
    } else {
        let (x, y) = (doubling(m), doubling((n - 1) as nat));
        lemma_doubling_sum(m, (n - 1) as nat);
        lemma_mul_mod_noop_right(2, x * y, 243);
        lemma_mul_mod_noop_right(x, 2 * y, 243);
        assert(2 * (x * y) == x * (2 * y)) by (nonlinear_arith);
    }
}

/// 2 has order 162 modulo 243.
proof fn lemma_order()
    ensures
        doubling(2) == 4,
        doubling(6) == 64,
        doubling(18) == 190,
        doubling(54) == 82,
        doubling(162) == 1,
{
    assert(doubling(9) == 26 && doubling(2) == 4 && doubling(6) == 64) by {
        reveal_with_fuel(doubling, 10);
    }
    lemma_doubling_sum(9, 9);
    assert(doubling(18) == 26 * 26int % 243);
    lemma_doubling_sum(9, 18);
    assert(doubling(27) == 26 * 190int % 243);
    lemma_doubling_sum(27, 27);
    assert(doubling(54) == 80 * 80int % 243);
    lemma_doubling_sum(54, 27);
    assert(doubling(81) == 82 * 80int % 243);
    lemma_doubling_sum(81, 81);
    assert(doubling(162) == 242 * 242int % 243);
}

proof fn lemma_conjugate_elem(a: Seq<bool>, n: nat)
    requires
        f162().elem(a),
    ensures
        f162().elem(conjugate(a, n)),
{
    if n > 0 {
        let b = conjugate(a, (n - 1) as nat);
        f162().mul_elem(b, b);
    }
}

proof fn lemma_conjugate_sum(a: Seq<bool>, b: Seq<bool>, n: nat)
    requires
        f162().elem(a),
        f162().elem(b),
    ensures
        conjugate(f162().sum(a, b), n) == f162().sum(conjugate(a, n), conjugate(b, n)),
    decreases n,
{
    if n > 0 {
        let m = (n - 1) as nat;
        lemma_conjugate_sum(a, b, m);
        lemma_conjugate_elem(a, m);
        lemma_conjugate_elem(b, m);
        square_sum(conjugate(a, m), conjugate(b, m));
    }
}

proof fn lemma_conjugate_zero(n: nat)
    ensures
        conjugate(f162().zero(), n) == f162().zero(),
    decreases n,
{
    if n > 0 {
        lemma_conjugate_zero((n - 1) as nat);
        f162().mul_zero(f162().zero());
    }
}

proof fn lemma_conjugate_power(t: nat, n: nat)
    ensures
        conjugate(power(t as int), n) == power(t * doubling(n)),
    decreases n,
{
    if n == 0 {
        assert(t * 1 == t) by (nonlinear_arith);
    } else {
        let d = doubling((n - 1) as nat);
        lemma_conjugate_power(t, (n - 1) as nat);
        lemma_doubling((n - 1) as nat);
        assert(t * d >= 0) by (nonlinear_arith)
            requires
                t >= 0,
                d >= 0,
        ;
        lemma_square_power((t * d) as nat);
        assert(2 * (t * d) == t * (2 * d)) by (nonlinear_arith);
        lemma_mul_mod_noop_right(t as int, 2 * d, 243);
        assert(power(2 * (t * d)) =~= power(t * doubling(n)));
    }
}

proof fn lemma_round_low(a: Seq<bool>, k: nat)
    requires
        f162().elem(a),
        k <= 162,
    ensures
        conjugate(f162().low(a, k as int), 162) == f162().low(a, k as int),
    decreases k,
{
    let g = f162();
    if k == 0 {
        assert(g.low(a, 0) =~= g.zero());
        lemma_conjugate_zero(162);
    } else {
        let i = k - 1;
        lemma_round_low(a, i as nat);
        lemma_low(a, i);
        lemma_conjugate_sum(g.low(a, i), g.scale(a[i], power(i)), 162);
        lemma_conjugate_zero(162);
        lemma_conjugate_power(i as nat, 162);
        lemma_order();
        assert(i * 1 == i) by (nonlinear_arith);
    }
}

/// After 162 squarings an element is back.
pub proof fn conjugates_return(a: Seq<bool>)
    requires
        f162().elem(a),
    ensures
        conjugate(a, 162) == a,
{
    lemma_round_low(a, 162);
    assert(f162().low(a, 162) =~= a);
}

// ---------------------------------------------------------------------------------------------
// the elements that squaring fixes
// ---------------------------------------------------------------------------------------------

/// `x + y w` times `w^n`, where `w^2 = w + 1`.
spec fn turned(c: (bool, bool), n: int) -> (bool, bool) {
    if n % 3 == 0 {
        c
    } else if n % 3 == 1 {
        (c.1, c.0 != c.1)
    } else {
        (c.0 != c.1, c.0)
    }
}

/// Every coefficient is that of the square.
spec fn fixed(e: Seq<bool>) -> bool {
    forall|j: int| 0 <= j < 162 ==> e[j] == #[trigger] coefficient(e, j)
}

/// The coefficients at `s` and `s + 81`: with `w = X^81` what stands before `X^s`.
spec fn pair(e: Seq<bool>, s: int) -> (bool, bool) {
    (e[s], e[s + 81])
}

/// Squaring twice takes what stands at `s` to `4 s`, turned by the carries.
proof fn lemma_two_squarings(e: Seq<bool>, s: int)
    requires
        f162().elem(e),
        fixed(e),
        0 <= s < 81,
    ensures
        pair(e, 4 * s % 81) == turned(pair(e, s), 4 * s / 81),
{
    let m = 2 * s % 81;
    lemma_one_squaring(e, s);
    lemma_one_squaring(e, m);
    if 2 * s < 81 {
        assert(m == 2 * s);
    } else {
        assert(m == 2 * s - 81);
    }
    if 2 * m < 81 {
        assert(2 * m % 81 == 2 * m);
    } else {
        assert(2 * m % 81 == 2 * m - 81);
    }
    assert(4 * s % 81 == 2 * m % 81);
    assert(4 * s / 81 == (if 2 * s < 81 {
        0int
    } else {
        2
    }) + (if 2 * m < 81 {
        0int
    } else {
        1
    }));
}

proof fn lemma_one_squaring(e: Seq<bool>, s: int)
    requires
        f162().elem(e),
        fixed(e),
        0 <= s < 81,
    ensures
        pair(e, 2 * s % 81) == (if 2 * s < 81 {
            (e[s] != e[s + 81], e[s + 81])
        } else {
            (e[s + 81], e[s])
        }),
{
    if 2 * s < 81 {
        assert(2 * s % 81 == 2 * s);
        assert(coefficient(e, 2 * s) == e[2 * s]);
        assert(coefficient(e, 2 * s + 81) == e[2 * s + 81]);
        assert((2 * s) / 2 == s && (2 * s + 81 + 81) / 2 == s + 81);
    } else {
        let j = 2 * s - 81;
        assert(2 * s % 81 == j);
        assert(coefficient(e, j) == e[j]);
        assert(coefficient(e, 2 * s) == e[2 * s]);
        assert((j + 243) / 2 == s + 81 && (2 * s) / 2 == s);
    }
}

/// Squaring `2 k` times.
proof fn lemma_many_squarings(e: Seq<bool>, s: int, k: nat)
    requires
        f162().elem(e),
        fixed(e),
        0 <= s < 81,
    ensures
        ({
            let t = s * doubling(2 * k) % 243;
            pair(e, t % 81) == turned(pair(e, s), t / 81)
        }),
    decreases k,
{
    if k == 0 {
        assert(s * 1 == s) by (nonlinear_arith);
        assert(s % 243 == s && s % 81 == s && s / 81 == 0);
    } else {
        let j = (2 * k - 2) as nat;
        let d = doubling(j);
        let t = s * d % 243;
        lemma_many_squarings(e, s, (k - 1) as nat);
        lemma_two_squarings(e, t % 81);
        lemma_doubling_sum(j, 2);
        lemma_order();
        lemma_mul_mod_noop_right(s, d * 4, 243);
        lemma_mul_mod_noop_right(4, s * d, 243);
        assert(s * (d * 4) == 4 * (s * d)) by (nonlinear_arith);
        let u = s * doubling(2 * k) % 243;
        assert(u == 4 * t % 243);
        let (a, b) = (t / 81, t % 81);
        let (c, f) = (4 * b / 81, 4 * b % 81);
        assert(t == 81 * a + b && 4 * b == 81 * c + f);
        assert(4 * t == 243 * a + 81 * (a + c) + f);
        let n = a + c;
        let (x, y) = (n / 3, n % 3);
        assert(4 * t == 243 * (a + x) + (81 * y + f));
        assert(u == 81 * y + f);
        assert(u % 81 == f && u / 81 == y);
        lemma_turned(pair(e, s), a, c);
    }
}

proof fn lemma_turned(c: (bool, bool), a: int, b: int)
    ensures
        turned(turned(c, a), b) == turned(c, (a + b) % 3),
{
    assert((a + b) % 3 == (a % 3 + b % 3) % 3);
}

/// An element that squaring fixes has its constant coefficient alone.
proof fn lemma_fixed_at(e: Seq<bool>, s: int)
    requires
        f162().elem(e),
        fixed(e),
        0 < s < 81,
    ensures
        pair(e, s) == (false, false),
{
    lemma_order();
    let k: nat = if s % 3 != 0 {
        27
    } else if s % 9 != 0 {
        9
    } else if s % 27 != 0 {
        3
    } else {
        1
    };
    lemma_many_squarings(e, s, k);
    let u = if s % 3 != 0 {
        s
    } else if s % 9 != 0 {
        s / 3
    } else if s % 27 != 0 {
        s / 9
    } else {
        s / 27
    };
    assert(u % 3 != 0);
    let d = doubling(2 * k);
    let t = s * d % 243;
    if s % 3 != 0 {
        assert(s * 82 == s + 81 * u);
    } else if s % 9 != 0 {
        assert(s == 3 * u);
        assert(s * 190 == s + 81 * u + 243 * (2 * u));
    } else if s % 27 != 0 {
        assert(s == 9 * u);
        assert(s * 64 == s + 81 * u + 243 * (2 * u));
    } else {
        assert(s == 27 * u);
        assert(s * 4 == s + 81 * u);
    }
    let (x, y) = (u / 3, u % 3);
    assert(u == 3 * x + y);
    assert(t == s + 81 * y);
    assert(t % 81 == s && t / 81 == y);
}

/// Squaring fixes 0 and 1 alone.
pub proof fn fixed_by_squaring(e: Seq<bool>)
    requires
        f162().elem(e),
        square(e) == e,
    ensures
        e == f162().zero() || e == f162().one(),
{
    lemma_square(e);
    assert(fixed(e)) by {
        assert forall|j: int| 0 <= j < 162 implies e[j] == #[trigger] coefficient(e, j) by {
            assert(doubled(e)[j] == coefficient(e, j));
        }
    }
    assert forall|j: int| 0 < j < 162 implies !e[j] by {
        if j < 81 {
            lemma_fixed_at(e, j);
            assert(pair(e, j).0 == e[j]);
        } else if j > 81 {
            lemma_fixed_at(e, j - 81);
            assert(pair(e, j - 81).1 == e[j]);
        } else {
            assert(coefficient(e, 0) == e[0]);
        }
    }
    if e[0] {
        assert(e =~= f162().one());
    } else {
        assert(e =~= f162().zero());
    }
}

// ---------------------------------------------------------------------------------------------
// the inverse
// ---------------------------------------------------------------------------------------------

/// The product of the `n` conjugates of `a` from the one with index `s` on.
pub open spec fn conjugates(a: Seq<bool>, s: nat, n: nat) -> Seq<bool>
    decreases n,
{
    if n == 0 {
        f162().one()
    } else {
        f162().mul(conjugates(a, s, (n - 1) as nat), conjugate(a, (s + n - 1) as nat))
    }
}

proof fn lemma_conjugates_elem(a: Seq<bool>, s: nat, n: nat)
    ensures
        f162().elem(conjugates(a, s, n)),
{
    if n > 0 {
        f162().mul_elem(conjugates(a, s, (n - 1) as nat), conjugate(a, (s + n - 1) as nat));
    }
}

proof fn lemma_times_conjugates(a: Seq<bool>, n: nat)
    requires
        f162().elem(a),
    ensures
        f162().mul(a, conjugates(a, 0, n)) == conjugate(a, n),
    decreases n,
{
    let g = f162();
    if n == 0 {
        g.mul_one(a);
    } else {
        let m = (n - 1) as nat;
        lemma_times_conjugates(a, m);
        lemma_conjugates_elem(a, 0, m);
        lemma_conjugate_elem(a, m);
        g.mul_assoc(a, conjugates(a, 0, m), conjugate(a, m));
    }
}

proof fn lemma_squared_conjugates(a: Seq<bool>, s: nat, n: nat)
    requires
        f162().elem(a),
    ensures
        square(conjugates(a, s, n)) == conjugates(a, s + 1, n),
    decreases n,
{
    let g = f162();
    if n == 0 {
        g.mul_one(g.one());
    } else {
        let m = (n - 1) as nat;
        lemma_squared_conjugates(a, s, m);
        lemma_conjugates_elem(a, s, m);
        lemma_conjugate_elem(a, (s + n - 1) as nat);
        lemma_square_mul(conjugates(a, s, m), conjugate(a, (s + n - 1) as nat));
        assert(conjugate(a, (s + n) as nat) == square(conjugate(a, (s + n - 1) as nat)));
    }
}

proof fn lemma_first_conjugate(a: Seq<bool>, n: nat)
    requires
        f162().elem(a),
    ensures
        f162().mul(a, conjugates(a, 1, n)) == conjugates(a, 0, n + 1),
    decreases n,
{
    let g = f162();
    if n == 0 {
        g.mul_one(a);
        assert(conjugates(a, 0, 1) == g.mul(conjugates(a, 0, 0), conjugate(a, 0)));
    } else {
        let m = (n - 1) as nat;
        lemma_first_conjugate(a, m);
        lemma_conjugates_elem(a, 1, m);
        lemma_conjugate_elem(a, n);
        g.mul_assoc(a, conjugates(a, 1, m), conjugate(a, n));
    }
}

/// The inverse of an element other than zero: the product of its other conjugates.
pub open spec fn inverse(a: Seq<bool>) -> Seq<bool> {
    conjugates(a, 1, 161)
}

/// Every element other than zero has an inverse.
pub proof fn has_inverse(a: Seq<bool>)
    requires
        f162().elem(a),
        a != f162().zero(),
    ensures
        f162().elem(inverse(a)),
        f162().mul(a, inverse(a)) == f162().one(),
{
    let g = f162();
    let e = conjugates(a, 0, 162);
    lemma_conjugates_elem(a, 0, 162);
    lemma_conjugates_elem(a, 1, 161);
    lemma_first_conjugate(a, 161);
    lemma_squared_conjugates(a, 0, 162);
    conjugates_return(a);
    assert(conjugates(a, 1, 162) == g.mul(conjugates(a, 1, 161), conjugate(a, 162)));
    g.mul_comm(a, conjugates(a, 1, 161));
    fixed_by_squaring(e);
    lemma_times_conjugates(a, 162);
    g.mul_zero(a);
}

/// A product is zero only where a factor is.
pub proof fn no_zero_divisors(a: Seq<bool>, b: Seq<bool>)
    requires
        f162().elem(a),
        f162().elem(b),
        f162().mul(a, b) == f162().zero(),
    ensures
        a == f162().zero() || b == f162().zero(),
{
    let g = f162();
    if a != g.zero() {
        let i = inverse(a);
        has_inverse(a);
        g.mul_comm(a, i);
        g.mul_assoc(i, a, b);
        g.mul_one(b);
        g.mul_zero(i);
    }
}

/// Multiplication by an element other than zero tells elements apart.
pub proof fn cancels(t: Seq<bool>, a: Seq<bool>, b: Seq<bool>)
    requires
        f162().elem(t),
        f162().elem(a),
        f162().elem(b),
        t != f162().zero(),
        f162().mul(t, a) == f162().mul(t, b),
    ensures
        a == b,
{
    let g = f162();
    g.mul_sum_right(t, a, b);
    g.sum_self(g.mul(t, a));
    no_zero_divisors(t, g.sum(a, b));
    assert forall|i: int| 0 <= i < 162 implies a[i] == b[i] by {
        assert(g.sum(a, b)[i] == g.zero()[i]);
    }
    assert(a =~= b);
}

} // verus!
