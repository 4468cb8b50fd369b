//! Mixed-radix digits of a residue vector: the Chinese remainder of a coefficient over the limbs.
use crate::modular;
use crate::modular::same;
use crate::params;
use vstd::arithmetic::div_mod::*;
use vstd::prelude::*;

verus! {

/// `a_0 + p_0 (a_1 + p_1 (.. a_{i-1} + p_{i-1} t))`.
pub open spec fn head(p: Seq<u16>, a: Seq<int>, t: int, i: nat) -> int
    decreases i,
{
    if i == 0 {
        t
    } else {
        head(p, a, a[i - 1] + p[i - 1] * t, (i - 1) as nat)
    }
}

/// The number with digits `a` in the mixed radix `p`.
pub open spec fn mixed(p: Seq<u16>, a: Seq<int>) -> int {
    head(p, a, 0, p.len())
}

/// The product of the primes from `i` on.
pub open spec fn modulus(p: Seq<u16>, i: nat) -> int
    decreases p.len() - i,
{
    if i >= p.len() {
        1
    } else {
        p[i as int] * modulus(p, i + 1)
    }
}

/// Distinct limbs, few enough for their product to be a `u128`.
pub open spec fn moduli(p: Seq<u16>) -> bool {
    &&& 1 <= p.len() <= 7
    &&& forall|k: int| 0 <= k < p.len() ==> params::limb_prime(#[trigger] p[k])
    &&& forall|i: int, k: int| 0 <= i < k < p.len() ==> (#[trigger] p[i]) != (#[trigger] p[k])
}

/// The inverse of the `i`-th limb modulo the `j`-th at place `7 i + j`, in ascending order.
pub const INVERSES: [u64; 49] = [
    0, 4, 2433, 6945, 1265, 7000, 17155,
    2914, 0, 5, 3242, 7022, 7500, 14582,
    1457, 3885, 0, 2, 11059, 6731, 12962,
    833, 2592, 4860, 0, 8429, 13125, 2,
    2625, 1728, 607, 3237, 0, 3503, 11112,
    1750, 2222, 2991, 2429, 10107, 0, 10,
    343, 972, 1620, 9720, 5414, 17488, 0,
];

/// The place of a limb in ascending order.
pub open spec fn place(q: u16) -> int {
    if q == 2917 {
        0
    } else if q == 3889 {
        1
    } else if q == 4861 {
        2
    } else if q == 9721 {
        3
    } else if q == 12637 {
        4
    } else if q == 17497 {
        5
    } else {
        6
    }
}

proof fn lemma_inverses(a: u16, b: u16)
    requires
        params::limb_prime(a),
        params::limb_prime(b),
        a != b,
    ensures
        0 <= 7 * place(a) + place(b) < 49,
        (a * INVERSES[7 * place(a) + place(b)]) % (b as int) == 1,
        INVERSES[7 * place(a) + place(b)] < b,
{
    assert(INVERSES[1] == 4);
    assert(INVERSES[2] == 2433);
    assert(INVERSES[3] == 6945);
    assert(INVERSES[4] == 1265);
    assert(INVERSES[5] == 7000);
    assert(INVERSES[6] == 17155);
    assert(INVERSES[7] == 2914);
    assert(INVERSES[9] == 5);
    assert(INVERSES[10] == 3242);
    assert(INVERSES[11] == 7022);
    assert(INVERSES[12] == 7500);
    assert(INVERSES[13] == 14582);
    assert(INVERSES[14] == 1457);
    assert(INVERSES[15] == 3885);
    assert(INVERSES[17] == 2);
    assert(INVERSES[18] == 11059);
    assert(INVERSES[19] == 6731);
    assert(INVERSES[20] == 12962);
    assert(INVERSES[21] == 833);
    assert(INVERSES[22] == 2592);
    assert(INVERSES[23] == 4860);
    assert(INVERSES[25] == 8429);
    assert(INVERSES[26] == 13125);
    assert(INVERSES[27] == 2);
    assert(INVERSES[28] == 2625);
    assert(INVERSES[29] == 1728);
    assert(INVERSES[30] == 607);
    assert(INVERSES[31] == 3237);
    assert(INVERSES[33] == 3503);
    assert(INVERSES[34] == 11112);
    assert(INVERSES[35] == 1750);
    assert(INVERSES[36] == 2222);
    assert(INVERSES[37] == 2991);
    assert(INVERSES[38] == 2429);
    assert(INVERSES[39] == 10107);
    assert(INVERSES[41] == 10);
    assert(INVERSES[42] == 343);
    assert(INVERSES[43] == 972);
    assert(INVERSES[44] == 1620);
    assert(INVERSES[45] == 9720);
    assert(INVERSES[46] == 5414);
    assert(INVERSES[47] == 17488);
}

fn place_of(q: u16) -> (i: usize)
    requires
        params::limb_prime(q),
    ensures
        i == place(q),
{
    if q == 2917 {
        0
    } else if q == 3889 {
        1
    } else if q == 4861 {
        2
    } else if q == 9721 {
        3
    } else if q == 12637 {
        4
    } else if q == 17497 {
        5
    } else {
        6
    }
}

/// The inverse of one limb modulo another.
fn inverse(a: u16, b: u16) -> (r: u64)
    requires
        params::limb_prime(a),
        params::limb_prime(b),
        a != b,
    ensures
        (a * r) % (b as int) == 1,
        r < b,
{
    proof {
        lemma_inverses(a, b);
    }
    let t: [u64; 49] = INVERSES;
    t[7 * place_of(a) + place_of(b)]
}

/// Congruent tails give congruent numbers.
pub proof fn lemma_head_same(p: Seq<u16>, a: Seq<int>, s: int, t: int, i: nat, q: int)
    requires
        q > 0,
        same(s, t, q),
    ensures
        same(head(p, a, s, i), head(p, a, t, i), q),
    decreases i,
{
    if i > 0 {
        let x = p[i - 1] as int;
        modular::lemma_mul(x, s, x, t, q);
        modular::lemma_add(a[i - 1], x * s, a[i - 1], x * t, q);
        lemma_head_same(p, a, a[i - 1] + x * s, a[i - 1] + x * t, (i - 1) as nat, q);
    }
}

/// Only the first digits matter.
pub proof fn lemma_head_digits(p: Seq<u16>, a: Seq<int>, b: Seq<int>, t: int, i: nat)
    requires
        forall|j: int| 0 <= j < i ==> (#[trigger] a[j]) == b[j],
    ensures
        head(p, a, t, i) == head(p, b, t, i),
    decreases i,
{
    if i > 0 {
        lemma_head_digits(p, a, b, a[i - 1] + p[i - 1] * t, (i - 1) as nat);
    }
}

/// What stands above digit `j` vanishes modulo `p_j`.
proof fn lemma_head_cut(p: Seq<u16>, a: Seq<int>, t: int, j: int, n: nat)
    requires
        0 <= j < n <= p.len(),
        p[j] > 0,
    ensures
        same(head(p, a, t, n), head(p, a, a[j], j as nat), p[j] as int),
    decreases n,
{
    let q = p[j] as int;
    if n == j + 1 {
        modular::lemma_multiple(a[j], t, q);
        assert(t * q == q * t) by (nonlinear_arith);
        lemma_head_same(p, a, a[j] + q * t, a[j], j as nat, q);
    } else {
        lemma_head_cut(p, a, a[n - 1] + p[n - 1] * t, j, (n - 1) as nat);
    }
}

/// One step: dividing by `x` modulo `q`.
proof fn lemma_divide(q: int, x: int, inv: int, a: int, t: int, u: int)
    requires
        q > 1,
        (x * inv) % q == 1,
        same(u, (t - a) * inv, q),
    ensures
        same(a + x * u, t, q),
{
    let d = t - a;
    modular::lemma_mul(x, u, x, d * inv, q);
    assert(x * (d * inv) == d * (x * inv)) by (nonlinear_arith);
    lemma_small_mod(1, q as nat);
    modular::lemma_mul(d, x * inv, d, 1, q);
    modular::lemma_add(a, x * u, a, d, q);
}

/// Digit `k`, from the residue modulo `p_k` and the digits before it.
fn digit(p: &[u16], a: &Vec<u64>, r: u32) -> (d: u64)
    requires
        moduli(p@),
        a@.len() < p@.len(),
        r < p@[a@.len() as int],
        forall|j: int| 0 <= j < a@.len() ==> (#[trigger] a@[j]) < p@[j],
    ensures
        d < p@[a@.len() as int],
        same(
            head(p@, digits(a@), d as int, a@.len()),
            r as int,
            p@[a@.len() as int] as int,
        ),
        a@.len() == 0 ==> d == r,
{
    let k: usize = a.len();
    let q: u64 = p[k] as u64;
    let ghost aa = digits(a@);
    let mut t: u64 = r as u64;
    let mut i: usize = 0;
    while i < k
        invariant
            i <= k == a@.len() < p@.len(),
            moduli(p@),
            q == p@[k as int],
            2917 <= q <= 19441,
            aa == digits(a@),
            forall|j: int| 0 <= j < a@.len() ==> (#[trigger] a@[j]) < p@[j],
            t < q,
            same(head(p@, aa, t as int, i as nat), r as int, q as int),
            i == 0 ==> t == r,
        decreases k - i,
    {
        let x: u16 = p[i];
        assert(params::limb_prime(p@[i as int]) && params::limb_prime(p@[k as int]) && p@[i as int]
            != p@[k as int]);
        let inv: u64 = inverse(x, p[k]);
        let ai: u64 = a[i];
        assert(ai < x);
        let d: u64 = (t + q - ai % q) % q;
        proof {
            assert(d * inv <= 19441 * 19441) by (nonlinear_arith)
                requires
                    0 <= d < 19441,
                    0 <= inv < 19441,
            ;
        }
        let u: u64 = d * inv % q;
        proof {
            let m = q as int;
            modular::lemma_reduced(ai as int, m);
            modular::lemma_reduced(t + q - ai % q, m);
            modular::lemma_multiple(t - ai % q, 1, m);
            modular::lemma_sub(t as int, ai as int % m, t as int, ai as int, m);
            modular::lemma_mul(d as int, inv as int, t - ai, inv as int, m);
            modular::lemma_reduced(d * inv, m);
            lemma_divide(m, x as int, inv as int, ai as int, t as int, u as int);
            lemma_head_same(p@, aa, ai + x * u, t as int, i as nat, m);
            assert(head(p@, aa, u as int, (i + 1) as nat) == head(
                p@,
                aa,
                aa[i as int] + p@[i as int] * u,
                i as nat,
            ));
        }
        t = u;
        i += 1;
    }
    t
}

/// Digits as integers.
pub open spec fn digits(a: Seq<u64>) -> Seq<int> {
    Seq::new(a.len(), |i: int| a[i] as int)
}

/// `a` are the mixed-radix digits of the number with residues `r`.
pub open spec fn are_digits(p: Seq<u16>, r: Seq<int>, a: Seq<int>) -> bool {
    &&& a.len() == p.len()
    &&& forall|k: int| 0 <= k < p.len() ==> 0 <= (#[trigger] a[k]) < p[k]
    &&& forall|k: int| 0 <= k < p.len() ==> same(mixed(p, a), #[trigger] r[k], p[k] as int)
}

/// Residues as integers.
pub open spec fn residues(r: Seq<u32>) -> Seq<int> {
    Seq::new(r.len(), |i: int| r[i] as int)
}

/// The mixed-radix digits of the number with residues `r`.
pub fn digits_of(p: &[u16], r: &[u32]) -> (a: Vec<u64>)
    requires
        moduli(p@),
        r@.len() == p@.len(),
        forall|k: int| 0 <= k < p@.len() ==> (#[trigger] r@[k]) < p@[k],
    ensures
        are_digits(p@, residues(r@), digits(a@)),
        a@[0] == r@[0],
{
    let n: usize = p.len();
    let mut a: Vec<u64> = Vec::new();
    let mut k: usize = 0;
    while k < n
        invariant
            k <= n == p@.len(),
            moduli(p@),
            r@.len() == n,
            a@.len() == k,
            k > 0 ==> a@[0] == r@[0],
            forall|k: int| 0 <= k < p@.len() ==> (#[trigger] r@[k]) < p@[k],
            forall|j: int| 0 <= j < k ==> (#[trigger] a@[j]) < p@[j],
            forall|j: int|
                0 <= j < k ==> same(
                    head(p@, digits(a@), (#[trigger] a@[j]) as int, j as nat),
                    r@[j] as int,
                    p@[j] as int,
                ),
        decreases n - k,
    {
        let ghost before = a@;
        let d: u64 = digit(p, &a, r[k]);
        a.push(d);
        proof {
            assert forall|j: int| 0 <= j <= k implies same(
                head(p@, digits(a@), (#[trigger] a@[j]) as int, j as nat),
                r@[j] as int,
                p@[j] as int,
            ) by {
                lemma_head_digits(p@, digits(a@), digits(before), a@[j] as int, j as nat);
                if j < k {
                    assert(before[j] == a@[j]);
                }
            }
        }
        k += 1;
    }
    proof {
        let aa = digits(a@);
        assert forall|k: int| 0 <= k < p@.len() implies same(
            mixed(p@, aa),
            #[trigger] residues(r@)[k],
            p@[k] as int,
        ) by {
            assert(params::limb_prime(p@[k]));
            lemma_head_cut(p@, aa, 0, k, n as nat);
            assert(aa[k] == a@[k]);
        }
    }
    a
}

spec fn bound(k: nat) -> int
    decreases k,
{
    if k == 0 {
        1
    } else {
        0x8000 * bound((k - 1) as nat)
    }
}

proof fn lemma_modulus(p: Seq<u16>, i: nat)
    requires
        moduli(p),
        i <= p.len(),
    ensures
        1 <= modulus(p, i) <= bound((p.len() - i) as nat),
        i < p.len() ==> modulus(p, i) % 2 == 1,
    decreases p.len() - i,
{
    if i < p.len() {
        lemma_modulus(p, i + 1);
        assert(params::limb_prime(p[i as int]));
        let (x, y, z) = (p[i as int] as int, modulus(p, i + 1), bound((p.len() - i - 1) as nat));
        assert(1 <= x * y <= 0x8000 * z) by (nonlinear_arith)
            requires
                1 <= x <= 0x8000,
                1 <= y <= z,
        ;
        assert(y % 2 == 1) by {
            if i + 1 >= p.len() {
                assert(y == 1);
            }
        }
        let (u, v) = (x / 2, y / 2);
        assert(x * y == 2 * (2 * u * v + u + v) + 1) by (nonlinear_arith)
            requires
                x == 2 * u + 1,
                y == 2 * v + 1,
        ;
    }
}

proof fn lemma_bound()
    ensures
        bound(7) < 0x8000_0000_0000_0000_0000_0000_0000,
        forall|k: nat| k <= 7 ==> #[trigger] bound(k) <= bound(7),
{
    reveal_with_fuel(bound, 8);
    assert(bound(0) == 1);
    assert(bound(1) == 0x8000 && bound(2) == 0x4000_0000 && bound(3) == 0x2000_0000_0000);
    assert forall|k: nat| k <= 7 implies #[trigger] bound(k) <= bound(7) by {
        if k == 0 {
        } else if k == 1 {
        } else if k == 2 {
        } else if k == 3 {
        } else if k == 4 {
        } else if k == 5 {
        } else if k == 6 {
        } else {
            assert(k == 7);
        }
    }
}

/// The product of the primes.
fn modulus_of(p: &[u16]) -> (q: u128)
    requires
        moduli(p@),
    ensures
        q == modulus(p@, 0),
        q % 2 == 1,
        q < 0x8000_0000_0000_0000_0000_0000_0000,
{
    let n: usize = p.len();
    let mut q: u128 = 1;
    let mut i: usize = n;
    proof {
        lemma_bound();
        lemma_modulus(p@, 0);
    }
    while i > 0
        invariant
            i <= n == p@.len(),
            moduli(p@),
            q == modulus(p@, i as nat),
        decreases i,
    {
        i -= 1;
        proof {
            lemma_bound();
            lemma_modulus(p@, i as nat);
        }
        q = p[i] as u128 * q;
    }
    q
}

/// The number with the given digits.
fn number(p: &[u16], a: &Vec<u64>) -> (v: u128)
    requires
        moduli(p@),
        a@.len() == p@.len(),
        forall|k: int| 0 <= k < p@.len() ==> (#[trigger] a@[k]) < p@[k],
    ensures
        v == mixed(p@, digits(a@)),
        v < modulus(p@, 0),
{
    let n: usize = p.len();
    let ghost aa = digits(a@);
    let mut v: u128 = 0;
    let mut i: usize = n;
    while i > 0
        invariant
            i <= n == p@.len(),
            a@.len() == n,
            moduli(p@),
            aa == digits(a@),
            forall|k: int| 0 <= k < p@.len() ==> (#[trigger] a@[k]) < p@[k],
            v < modulus(p@, i as nat),
            head(p@, aa, v as int, i as nat) == mixed(p@, aa),
        decreases i,
    {
        i -= 1;
        proof {
            lemma_bound();
            lemma_modulus(p@, i as nat);
            let (x, y, z) = (p@[i as int] as int, v as int, modulus(p@, (i + 1) as nat));
            assert(a@[i as int] < p@[i as int]);
            assert(0 <= x * y && x * y + x <= x * z) by (nonlinear_arith)
                requires
                    0 <= y,
                    y + 1 <= z,
                    0 <= x,
            ;
        }
        v = a[i] as u128 + p[i] as u128 * v;
    }
    v
}

/// `e` are the centred numbers with residues `r`.
pub open spec fn is_lift(p: Seq<u16>, r: Seq<[u32; 648]>, e: Seq<int>) -> bool {
    &&& centred(p, e)
    &&& forall|k: int, x: int|
        0 <= k < p.len() && 0 <= x < 648 ==> same(#[trigger] r[k]@[x] as int, e[x], p[k] as int)
}

/// The squared norm of the first `n` entries.
pub open spec fn normsq(e: Seq<int>, n: nat) -> int
    decreases n,
{
    if n == 0 {
        0
    } else {
        normsq(e, (n - 1) as nat) + e[n - 1] * e[n - 1]
    }
}

/// A number, cut off at the largest `u128`.
pub open spec fn capped(x: int) -> int {
    if x <= u128::MAX {
        x
    } else {
        u128::MAX as int
    }
}

/// The first `n` entries of a squared norm determine it.
pub proof fn lemma_normsq_prefix(e: Seq<int>, f: Seq<int>, n: nat)
    requires
        forall|i: int| 0 <= i < n ==> (#[trigger] e[i]) == f[i],
    ensures
        normsq(e, n) == normsq(f, n),
        normsq(e, n) >= 0,
    decreases n,
{
    if n > 0 {
        lemma_normsq_prefix(e, f, (n - 1) as nat);
        let x = e[n - 1];
        assert(x * x >= 0) by (nonlinear_arith);
    }
}

/// A square added to a sum, cut off.
fn add_square(s: u128, x: u128, Ghost(t): Ghost<int>) -> (r: u128)
    requires
        s == capped(t),
        t >= 0,
    ensures
        r == capped(t + x * x),
{
    if x > 0xFFFF_FFFF_FFFF_FFFF {
        proof {
            assert(x * x > 0xFFFF_FFFF_FFFF_FFFF_FFFF_FFFF_FFFF_FFFF) by (nonlinear_arith)
                requires
                    x >= 0x1_0000_0000_0000_0000,
            ;
        }
        return u128::MAX;
    }
    proof {
        assert(x * x <= 0xFFFF_FFFF_FFFF_FFFF * 0xFFFF_FFFF_FFFF_FFFF) by (nonlinear_arith)
            requires
                0 <= x <= 0xFFFF_FFFF_FFFF_FFFF,
        ;
    }
    let y: u128 = x * x;
    if s > u128::MAX - y {
        u128::MAX
    } else {
        s + y
    }
}

/// Coefficient `x` of every limb.
pub(crate) fn across(r: &[[u32; 648]], x: usize) -> (c: Vec<u32>)
    requires
        x < 648,
    ensures
        c@.len() == r@.len(),
        forall|k: int| 0 <= k < r@.len() ==> (#[trigger] c@[k]) == r@[k]@[x as int],
{
    let n: usize = r.len();
    let mut c: Vec<u32> = Vec::new();
    let mut k: usize = 0;
    while k < n
        invariant
            k <= n == r@.len(),
            x < 648,
            c@.len() == k,
            forall|i: int| 0 <= i < k ==> (#[trigger] c@[i]) == r@[i]@[x as int],
        decreases n - k,
    {
        c.push(r[k][x]);
        k += 1;
    }
    c
}

/// The squared norm of the centred numbers with residues `r`, cut off at the largest `u128`.
pub fn lifted_normsq(p: &[u16], r: &[[u32; 648]]) -> (n: u128)
    requires
        moduli(p@),
        r@.len() == p@.len(),
        forall|k: int, x: int|
            0 <= k < p@.len() && 0 <= x < 648 ==> (#[trigger] r@[k]@[x]) < p@[k],
    ensures
        exists|e: Seq<int>| #[trigger] is_lift(p@, r@, e) && n == capped(normsq(e, 648)),
{
    let q: u128 = modulus_of(p);
    let half: u128 = (q - 1) / 2;
    let mut s: u128 = 0;
    let ghost mut e: Seq<int> = Seq::empty();
    let mut x: usize = 0;
    while x < 648
        invariant
            x <= 648,
            moduli(p@),
            q == modulus(p@, 0),
            q % 2 == 1,
            half == (q - 1) / 2,
            r@.len() == p@.len(),
            forall|k: int, x: int|
                0 <= k < p@.len() && 0 <= x < 648 ==> (#[trigger] r@[k]@[x]) < p@[k],
            e.len() == x,
            s == capped(normsq(e, x as nat)),
            forall|i: int| 0 <= i < x ==> -q < 2 * (#[trigger] e[i]) < q,
            forall|k: int, i: int|
                0 <= k < p@.len() && 0 <= i < x ==> same(
                    #[trigger] r@[k]@[i] as int,
                    e[i],
                    p@[k] as int,
                ),
        decreases 648 - x,
    {
        let c = across(r, x);
        assert forall|k: int| 0 <= k < p@.len() implies (#[trigger] c@[k]) < p@[k] by {
            assert(r@[k]@[x as int] < p@[k]);
        }
        let a = digits_of(p, c.as_slice());
        assert forall|k: int| 0 <= k < p@.len() implies (#[trigger] a@[k]) < p@[k] by {
            assert(digits(a@)[k] < p@[k]);
        }
        let v: u128 = number(p, &a);
        let w: u128 = if v > half {
            q - v
        } else {
            v
        };
        let ghost y = if v > half {
            v - q
        } else {
            v as int
        };
        let ghost f = e.push(y);
        proof {
            lemma_normsq_prefix(f, e, x as nat);
            assert(y * y == w * w) by (nonlinear_arith)
                requires
                    y == w || y == -w,
            ;
            assert forall|k: int, i: int| 0 <= k < p@.len() && 0 <= i <= x implies same(
                #[trigger] r@[k]@[i] as int,
                f[i],
                p@[k] as int,
            ) by {
                if i == x {
                    assert(params::limb_prime(p@[k]));
                    assert(same(mixed(p@, digits(a@)), residues(c@)[k], p@[k] as int));
                    if v > half {
                        lemma_factor(p@, k);
                        let t = modulus(p@, 0) / p@[k] as int;
                        modular::lemma_multiple(v as int, -t, p@[k] as int);
                        assert((-t) * p@[k] == -(p@[k] * t)) by (nonlinear_arith);
                    }
                }
            }
        }
        s = add_square(s, w, Ghost(normsq(e, x as nat)));
        proof {
            e = f;
        }
        x += 1;
    }
    assert(is_lift(p@, r@, e));
    s
}

/// Every prime divides the product.
proof fn lemma_factor(p: Seq<u16>, k: int)
    requires
        moduli(p),
        0 <= k < p.len(),
    ensures
        modulus(p, 0) == p[k] * (modulus(p, 0) / p[k] as int),
{
    lemma_divides(p, k, 0);
    assert(params::limb_prime(p[k]));
    let (m, x) = (modulus(p, 0), p[k] as int);
    lemma_fundamental_div_mod(m, x);
}

proof fn lemma_divides(p: Seq<u16>, k: int, i: nat)
    requires
        moduli(p),
        i <= k < p.len(),
    ensures
        modulus(p, i) % (p[k] as int) == 0,
    decreases k - i,
{
    assert(params::limb_prime(p[k]));
    let (x, y) = (p[k] as int, modulus(p, i + 1));
    if i == k {
        lemma_mod_multiples_basic(y, x);
        assert(x * y == y * x) by (nonlinear_arith);
    } else {
        lemma_divides(p, k, i + 1);
        let z = p[i as int] as int;
        modular::lemma_mul(z, y, z, 0, x);
        assert(z * 0 == 0) by (nonlinear_arith);
        lemma_small_mod(0, x as nat);
    }
}

/// A number that all the primes from `i` on divide is a multiple of their product.
proof fn lemma_multiple_of_all(p: Seq<u16>, d: int, i: nat) -> (t: int)
    requires
        moduli(p),
        i <= p.len(),
        forall|k: int| i <= k < p.len() ==> same(d, 0, (#[trigger] p[k]) as int),
    ensures
        d == modulus(p, i) * t,
    decreases p.len() - i,
{
    if i == p.len() {
        d
    } else {
        let x = p[i as int] as int;
        assert(params::limb_prime(p[i as int]));
        assert(same(d, 0, x));
        lemma_small_mod(0, x as nat);
        lemma_fundamental_div_mod(d, x);
        let c = d / x;
        assert forall|k: int| i + 1 <= k < p.len() implies same(c, 0, (#[trigger] p[k]) as int) by {
            assert(params::limb_prime(p[k]));
            let q = p[k] as int;
            lemma_inverses(p[i as int], p[k]);
            let inv = INVERSES[7 * place(p[i as int]) + place(p[k])] as int;
            modular::lemma_mul(x * c, inv, 0, inv, q);
            assert(0 * inv == 0) by (nonlinear_arith);
            assert(x * c * inv == c * (x * inv)) by (nonlinear_arith);
            lemma_small_mod(1, q as nat);
            modular::lemma_mul(c, x * inv, c, 1, q);
        }
        let t = lemma_multiple_of_all(p, c, i + 1);
        let m = modulus(p, i + 1);
        assert(x * (m * t) == x * m * t) by (nonlinear_arith);
        t
    }
}

/// Numbers centred modulo the product of the primes.
pub open spec fn centred(p: Seq<u16>, e: Seq<int>) -> bool {
    &&& e.len() == 648
    &&& forall|x: int| 0 <= x < 648 ==> -modulus(p, 0) < 2 * (#[trigger] e[x]) < modulus(p, 0)
}

/// Centred numbers with the same residues are equal.
pub proof fn lift_unique(p: Seq<u16>, e: Seq<int>, f: Seq<int>)
    requires
        moduli(p),
        centred(p, e),
        centred(p, f),
        forall|k: int, x: int|
            #![trigger p[k], e[x]]
            0 <= k < p.len() && 0 <= x < 648 ==> same(e[x], f[x], p[k] as int),
    ensures
        e == f,
{
    let m = modulus(p, 0);
    lemma_modulus(p, 0);
    assert forall|x: int| 0 <= x < 648 implies e[x] == f[x] by {
        let d = e[x] - f[x];
        assert forall|k: int| 0 <= k < p.len() implies same(d, 0, (#[trigger] p[k]) as int) by {
            assert(params::limb_prime(p[k]));
            assert(same(e[x], f[x], p[k] as int));
            modular::lemma_sub(e[x], f[x], f[x], f[x], p[k] as int);
        }
        let t = lemma_multiple_of_all(p, d, 0);
        assert(t == 0) by (nonlinear_arith)
            requires
                d == m * t,
                -m < d < m,
                m >= 1,
        ;
        assert(m * 0 == 0) by (nonlinear_arith);
    }
    assert(e =~= f);
}


/// The squared norm is a sum over the entries: that of two lists joined is the sum of theirs, that of
/// one entry is its square, and no entry squared is above it.
pub proof fn norm_adds_up(a: Seq<int>, b: Seq<int>, i: int)
    requires
        0 <= i < a.len(),
    ensures
        normsq(a + b, a.len() + b.len()) == normsq(a, a.len()) + normsq(b, b.len()),
        normsq(seq![a[i]], 1) == a[i] * a[i],
        a[i] * a[i] <= normsq(a, a.len()),
    decreases b.len(),
{
    reveal_with_fuel(normsq, 2);
    lemma_norm_entry(a, i, a.len());
    if b.len() == 0 {
        assert(a + b =~= a);
    } else {
        let c = b.drop_last();
        norm_adds_up(a, c, i);
        lemma_normsq_prefix(a + b, a + c, a.len() + c.len());
        lemma_normsq_prefix(b, c, c.len());
    }
}

proof fn lemma_norm_entry(a: Seq<int>, i: int, n: nat)
    requires
        0 <= i < n <= a.len(),
    ensures
        a[i] * a[i] <= normsq(a, n),
    decreases n,
{
    let (m, x) = ((n - 1) as nat, a[n - 1]);
    lemma_normsq_prefix(a, a, m);
    assert(x * x >= 0) by (nonlinear_arith);
    if i < m {
        lemma_norm_entry(a, i, m);
    }
}

} // verus!
