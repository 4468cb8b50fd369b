//! Polynomials over the integers, read with a stride.
use crate::modular;
use crate::modular::same;
use vstd::prelude::*;

verus! {

/// The indices from `i` on.
pub open spec fn left(len: nat, i: int) -> nat {
    if i < len {
        (len - i) as nat
    } else {
        0
    }
}

/// `a[i] + x a[i + n] + x^2 a[i + 2 n] + ..`: coefficient `i` of `a mod (X^n - x)` for `i < n`, and
/// for `n = 1` the value of `a` at `x`.
pub open spec fn strided(a: Seq<int>, i: int, n: int, x: int) -> int
    decreases left(a.len(), i),
{
    if i < 0 || i >= a.len() || n <= 0 {
        0
    } else {
        a[i] + x * strided(a, i + n, n, x)
    }
}

/// The value of `a` at `x`.
pub open spec fn eval(a: Seq<int>, x: int) -> int {
    strided(a, 0, 1, x)
}

/// The coefficients as integers.
pub open spec fn ints(v: Seq<u32>) -> Seq<int> {
    Seq::new(v.len(), |i: int| v[i] as int)
}

/// A stride halved.
pub proof fn lemma_split2(a: Seq<int>, i: int, m: int, y: int)
    requires
        m >= 1,
        i >= 0,
    ensures
        strided(a, i, m, y) == strided(a, i, 2 * m, y * y) + y * strided(
            a,
            i + m,
            2 * m,
            y * y,
        ),
    decreases left(a.len(), i),
{
    if i < a.len() {
        lemma_split2(a, i + m, m, y);
        let (s1, s2) = (strided(a, i + m, 2 * m, y * y), strided(a, i + 2 * m, 2 * m, y * y));
        assert(i + m + m == i + 2 * m);
        assert(y * (s1 + y * s2) == y * s1 + (y * y) * s2) by (nonlinear_arith);
    } else {
        assert(y * 0 == 0) by (nonlinear_arith);
    }
}

/// A stride divided by three.
pub proof fn lemma_split3(a: Seq<int>, i: int, m: int, y: int)
    requires
        m >= 1,
        i >= 0,
    ensures
        strided(a, i, m, y) == strided(a, i, 3 * m, y * y * y) + y * strided(
            a,
            i + m,
            3 * m,
            y * y * y,
        ) + y * y * strided(a, i + 2 * m, 3 * m, y * y * y),
    decreases left(a.len(), i),
{
    let c = y * y * y;
    if i < a.len() {
        lemma_split3(a, i + m, m, y);
        let (s1, s2, s3) = (
            strided(a, i + m, 3 * m, c),
            strided(a, i + 2 * m, 3 * m, c),
            strided(a, i + 3 * m, 3 * m, c),
        );
        assert(i + m + m == i + 2 * m);
        assert(i + m + 2 * m == i + 3 * m);
        assert(y * (s1 + y * s2 + y * y * s3) == y * s1 + y * y * s2 + (y * y * y) * s3)
            by (nonlinear_arith);
    } else {
        assert(y * 0 == 0 && y * y * 0 == 0) by (nonlinear_arith);
    }
}

/// Congruent points give congruent values.
pub proof fn lemma_point(a: Seq<int>, i: int, n: int, x: int, y: int, q: int)
    requires
        q > 0,
        same(x, y, q),
    ensures
        same(strided(a, i, n, x), strided(a, i, n, y), q),
    decreases left(a.len(), i),
{
    if 0 <= i < a.len() && n > 0 {
        lemma_point(a, i + n, n, x, y, q);
        let (s, t) = (strided(a, i + n, n, x), strided(a, i + n, n, y));
        modular::lemma_mul(x, s, y, t, q);
        modular::lemma_add(a[i], x * s, a[i], y * t, q);
    }
}

/// Congruent coefficients give congruent values.
pub proof fn lemma_coefficients(a: Seq<int>, b: Seq<int>, i: int, n: int, x: int, q: int)
    requires
        q > 0,
        a.len() == b.len(),
        forall|t: int| 0 <= t < a.len() ==> same(#[trigger] a[t], b[t], q),
    ensures
        same(strided(a, i, n, x), strided(b, i, n, x), q),
    decreases left(a.len(), i),
{
    if 0 <= i < a.len() && n > 0 {
        lemma_coefficients(a, b, i + n, n, x, q);
        let (s, t) = (strided(a, i + n, n, x), strided(b, i + n, n, x));
        modular::lemma_mul(x, s, x, t, q);
        modular::lemma_add(a[i], x * s, b[i], x * t, q);
    }
}

/// The difference of two polynomials of the same length.
pub open spec fn minus(a: Seq<int>, b: Seq<int>) -> Seq<int> {
    Seq::new(a.len(), |i: int| a[i] - b[i])
}

/// Reading is linear.
pub proof fn lemma_minus(a: Seq<int>, b: Seq<int>, i: int, n: int, x: int)
    requires
        a.len() == b.len(),
    ensures
        strided(minus(a, b), i, n, x) == strided(a, i, n, x) - strided(b, i, n, x),
    decreases left(a.len(), i),
{
    if 0 <= i < a.len() && n > 0 {
        lemma_minus(a, b, i + n, n, x);
        let (s, t) = (strided(a, i + n, n, x), strided(b, i + n, n, x));
        assert(x * (s - t) == x * s - x * t) by (nonlinear_arith);
    }
}

/// The sum of two polynomials of the same length.
pub open spec fn plus(a: Seq<int>, b: Seq<int>) -> Seq<int> {
    Seq::new(a.len(), |i: int| a[i] + b[i])
}

pub proof fn lemma_plus(a: Seq<int>, b: Seq<int>, i: int, n: int, x: int)
    requires
        a.len() == b.len(),
    ensures
        strided(plus(a, b), i, n, x) == strided(a, i, n, x) + strided(b, i, n, x),
    decreases left(a.len(), i),
{
    if 0 <= i < a.len() && n > 0 {
        lemma_plus(a, b, i + n, n, x);
        let (s, t) = (strided(a, i + n, n, x), strided(b, i + n, n, x));
        assert(x * (s + t) == x * s + x * t) by (nonlinear_arith);
    }
}

/// Reading where there is nothing.
pub proof fn lemma_absent(a: Seq<int>, i: int, n: int, x: int)
    requires
        i >= 0,
        n >= 1,
        forall|k: int| 0 <= k < a.len() && k % n == i % n ==> (#[trigger] a[k]) == 0,
    ensures
        strided(a, i, n, x) == 0,
    decreases left(a.len(), i),
{
    if i < a.len() {
        vstd::arithmetic::div_mod::lemma_mod_add_multiples_vanish(i, n);
        assert((i + n) % n == i % n);
        lemma_absent(a, i + n, n, x);
        assert(a[i] == 0);
        assert(x * 0 == 0) by (nonlinear_arith);
    }
}

/// `f + X g`.
pub open spec fn shifted(f: Seq<int>, g: Seq<int>) -> Seq<int> {
    Seq::new(
        f.len(),
        |k: int|
            f[k] + if 0 < k <= g.len() {
                g[k - 1]
            } else {
                0
            },
    )
}

/// Reading `f + X g` past the first place.
pub proof fn lemma_shifted(f: Seq<int>, g: Seq<int>, i: int, n: int, x: int)
    requires
        i >= 1,
        n >= 1,
        g.len() < f.len(),
    ensures
        strided(shifted(f, g), i, n, x) == strided(f, i, n, x) + strided(g, i - 1, n, x),
    decreases left(f.len(), i),
{
    if i < f.len() {
        lemma_shifted(f, g, i + n, n, x);
        let (s, t) = (strided(f, i + n, n, x), strided(g, i + n - 1, n, x));
        assert(x * (s + t) == x * s + x * t) by (nonlinear_arith);
        if i - 1 >= g.len() {
            assert(strided(g, i + n - 1, n, x) == 0);
            assert(x * 0 == 0) by (nonlinear_arith);
        }
    }
}

/// Reading `f + X g` from the first place.
pub proof fn lemma_shifted0(f: Seq<int>, g: Seq<int>, n: int, x: int)
    requires
        n >= 1,
        g.len() < f.len(),
    ensures
        strided(shifted(f, g), 0, n, x) == strided(f, 0, n, x) + x * strided(g, n - 1, n, x),
{
    lemma_shifted(f, g, n, n, x);
    let (s, t) = (strided(f, n, n, x), strided(g, n - 1, n, x));
    assert(x * (s + t) == x * s + x * t) by (nonlinear_arith);
}

/// `sum over i < n of a[i] b[k - i]`.
pub open spec fn conv(a: Seq<int>, b: Seq<int>, k: int, n: nat) -> int
    decreases n,
{
    if n == 0 {
        0
    } else {
        conv(a, b, k, (n - 1) as nat) + if 0 <= k - (n - 1) < b.len() {
            a[n - 1] * b[k - (n - 1)]
        } else {
            0
        }
    }
}

/// The product of two polynomials.
pub open spec fn product(a: Seq<int>, b: Seq<int>) -> Seq<int> {
    Seq::new(a.len() + b.len(), |k: int| conv(a, b, k, a.len()))
}

/// The first factor without its constant coefficient.
proof fn lemma_conv(a: Seq<int>, b: Seq<int>, k: int, n: nat)
    requires
        n < a.len(),
    ensures
        conv(a, b, k, n + 1) == (if 0 <= k < b.len() {
            a[0] * b[k]
        } else {
            0
        }) + conv(a.skip(1), b, k - 1, n),
    decreases n,
{
    reveal_with_fuel(conv, 2);
    if n > 0 {
        lemma_conv(a, b, k, (n - 1) as nat);
        assert(a.skip(1)[n - 1] == a[n as int]);
    }
}

/// `c b`, with as many zeros behind it as `a` has coefficients.
pub open spec fn scaled(c: int, b: Seq<int>, pad: nat) -> Seq<int> {
    Seq::new(
        b.len() + pad,
        |k: int|
            if k < b.len() {
                c * b[k]
            } else {
                0
            },
    )
}

proof fn lemma_scaled(c: int, b: Seq<int>, pad: nat, i: int, n: int, x: int)
    requires
        i >= 0,
        n >= 1,
    ensures
        strided(scaled(c, b, pad), i, n, x) == c * strided(b, i, n, x),
    decreases left(b.len() + pad, i),
{
    if i < b.len() + pad {
        lemma_scaled(c, b, pad, i + n, n, x);
        let t = strided(b, i + n, n, x);
        if i < b.len() {
            assert(c * b[i] + x * (c * t) == c * (b[i] + x * t)) by (nonlinear_arith)
                requires
                    true,
            ;
        } else {
            assert(t == 0);
            assert(c * 0 == 0 && x * 0 == 0) by (nonlinear_arith);
        }
    } else {
        assert(c * 0 == 0) by (nonlinear_arith);
    }
}

/// `a b = a[0] b + X (a / X) b`.
proof fn lemma_product_step(a: Seq<int>, b: Seq<int>)
    requires
        a.len() > 0,
    ensures
        product(a, b) == shifted(scaled(a[0], b, a.len()), product(a.skip(1), b)),
{
    let r = a.skip(1);
    let (x, y) = (product(a, b), shifted(scaled(a[0], b, a.len()), product(r, b)));
    assert forall|k: int| 0 <= k < x.len() implies x[k] == y[k] by {
        lemma_conv(a, b, k, r.len());
        if k == 0 {
            lemma_conv_negative(r, b, -1, r.len());
        }
    }
    assert(x =~= y);
}

proof fn lemma_conv_negative(a: Seq<int>, b: Seq<int>, k: int, n: nat)
    requires
        k < 0,
    ensures
        conv(a, b, k, n) == 0,
    decreases n,
{
    if n > 0 {
        lemma_conv_negative(a, b, k, (n - 1) as nat);
    }
}

/// The value of a product is the product of the values.
pub proof fn lemma_eval_product(a: Seq<int>, b: Seq<int>, x: int)
    ensures
        eval(product(a, b), x) == eval(a, x) * eval(b, x),
    decreases a.len(),
{
    if a.len() == 0 {
        lemma_nothing(product(a, b), 0, 1, x);
        assert(0 * eval(b, x) == 0) by (nonlinear_arith);
    } else {
        let r = a.skip(1);
        lemma_eval_product(r, b, x);
        lemma_product_step(a, b);
        lemma_shifted0(scaled(a[0], b, a.len()), product(r, b), 1, x);
        lemma_scaled(a[0], b, a.len(), 0, 1, x);
        lemma_tail(a, 0, 1, x);
        let (e, f) = (eval(b, x), eval(r, x));
        assert(a[0] * e + x * (f * e) == (a[0] + x * f) * e) by (nonlinear_arith)
            requires
                true,
        ;
    }
}

/// A polynomial whose first factor is empty is zero.
proof fn lemma_nothing(c: Seq<int>, i: int, n: int, x: int)
    requires
        forall|k: int| 0 <= k < c.len() ==> (#[trigger] c[k]) == 0,
    ensures
        strided(c, i, n, x) == 0,
    decreases left(c.len(), i),
{
    if 0 <= i < c.len() && n > 0 {
        lemma_nothing(c, i + n, n, x);
        assert(x * 0 == 0) by (nonlinear_arith);
    }
}

/// Reading a polynomial behind its constant coefficient.
proof fn lemma_tail(a: Seq<int>, i: int, n: int, x: int)
    requires
        i >= 0,
        n >= 1,
    ensures
        strided(a, i + n, n, x) == strided(a.skip(1), i + n - 1, n, x) || a.len() == 0,
    decreases left(a.len(), i),
{
    if a.len() > 0 && i + n < a.len() {
        lemma_tail(a, i + n, n, x);
        assert(a.skip(1)[i + n - 1] == a[i + n]);
    }
}

/// The product modulo `X^2 - x`.
pub proof fn lemma_quadratic_product(a: Seq<int>, b: Seq<int>, x: int)
    ensures
        ({
            let (a0, a1) = (strided(a, 0, 2, x), strided(a, 1, 2, x));
            let (b0, b1) = (strided(b, 0, 2, x), strided(b, 1, 2, x));
            &&& strided(product(a, b), 0, 2, x) == a0 * b0 + x * (a1 * b1)
            &&& strided(product(a, b), 1, 2, x) == a0 * b1 + a1 * b0
        }),
    decreases a.len(),
{
    let (b0, b1) = (strided(b, 0, 2, x), strided(b, 1, 2, x));
    if a.len() == 0 {
        lemma_nothing(product(a, b), 0, 2, x);
        lemma_nothing(product(a, b), 1, 2, x);
        assert(0 * b0 == 0 && 0 * b1 == 0 && x * 0 == 0) by (nonlinear_arith);
    } else {
        let r = a.skip(1);
        let (r0, r1) = (strided(r, 0, 2, x), strided(r, 1, 2, x));
        let (f, g) = (scaled(a[0], b, a.len()), product(r, b));
        lemma_quadratic_product(r, b, x);
        lemma_product_step(a, b);
        lemma_shifted0(f, g, 2, x);
        lemma_shifted(f, g, 1, 2, x);
        lemma_scaled(a[0], b, a.len(), 0, 2, x);
        lemma_scaled(a[0], b, a.len(), 1, 2, x);
        lemma_tail(a, 0, 2, x);
        lemma_tail_odd(a, x);
        assert(a[0] * b0 + x * (r0 * b1 + r1 * b0) == (a[0] + x * r1) * b0 + x * (r0 * b1))
            by (nonlinear_arith)
            requires
                true,
        ;
        assert(a[0] * b1 + (r0 * b0 + x * (r1 * b1)) == (a[0] + x * r1) * b1 + r0 * b0)
            by (nonlinear_arith)
            requires
                true,
        ;
    }
}

/// The odd coefficients of a polynomial are the even ones behind its constant coefficient.
proof fn lemma_tail_odd(a: Seq<int>, x: int)
    requires
        a.len() > 0,
    ensures
        strided(a, 1, 2, x) == strided(a.skip(1), 0, 2, x),
{
    if a.len() > 1 {
        lemma_tail(a, 1, 2, x);
        assert(a.skip(1)[0] == a[1]);
    }
}

} // verus!
