//! Exact arithmetic of `Z_q[X]/(X^648 - X^324 + 1)`: the schoolbook product, the transforms of both
//! kinds of prime, and the products of transforms. Everything is fully reduced.
use crate::modular;
use crate::modular::same;
use crate::ntt::inverse;
use crate::ntt::laws;
use crate::ntt::poly;
use crate::ntt::tree;
use crate::params;
use crate::ring;
use vstd::arithmetic::div_mod::*;
use vstd::arithmetic::mul::*;
use vstd::arithmetic::power::*;
use vstd::prelude::*;

verus! {

/// The coefficients of a ring element.
pub type Coeffs = [u32; 648];

/// Every coefficient is in `[0, q)`.
pub open spec fn in_range(v: Seq<u32>, q: u16) -> bool {
    forall|i: int| 0 <= i < v.len() ==> (#[trigger] v[i]) < q
}

/// The exponent of slot `j`: slot `j` of a splitting limb is the value at `psi^slot_exp(j)`, leaf
/// `j` of a quadratic-slot limb is the residue modulo `X^2 - psi^slot_exp(j)`.
pub open spec fn exponent(q: u16, j: int) -> nat {
    tree::place(params::splitting(q), 1, j) as nat
}

/// The point of slot `j`.
pub open spec fn point(q: u16, j: int) -> int {
    pow(params::psi_of(q) as int, exponent(q, j))
}

/// `v` is the transform of `a` at a splitting prime.
pub open spec fn is_ntt(q: u16, v: Seq<u32>, a: Seq<int>) -> bool {
    forall|j: int|
        0 <= j < 648 ==> (#[trigger] v[j]) == poly::eval(a, point(q, j)) % (q as int)
}

/// `v` is the transform of `a` at a quadratic-slot prime: rows `2 j` and `2 j + 1` are the constant
/// and the linear coefficient of `a mod (X^2 - point(j))`.
pub open spec fn is_ntt_quad(q: u16, v: Seq<u32>, a: Seq<int>) -> bool {
    forall|s: int|
        0 <= s < 648 ==> (#[trigger] v[s]) == poly::strided(a, s % 2, 2, point(q, s / 2)) % (
        q as int)
}

proof fn lemma_conv_bound(a: Seq<int>, b: Seq<int>, k: int, n: nat, q: int)
    requires
        n <= a.len(),
        q >= 1,
        forall|i: int| 0 <= i < a.len() ==> 0 <= (#[trigger] a[i]) < q,
        forall|i: int| 0 <= i < b.len() ==> 0 <= (#[trigger] b[i]) < q,
    ensures
        0 <= poly::conv(a, b, k, n) <= n * (q * q),
    decreases n,
{
    if n > 0 {
        lemma_conv_bound(a, b, k, (n - 1) as nat, q);
        let i = k - (n - 1);
        if 0 <= i < b.len() {
            let (x, y) = (a[n - 1], b[i]);
            assert(0 <= x * y <= q * q) by (nonlinear_arith)
                requires
                    0 <= x < q,
                    0 <= y < q,
            ;
        }
        assert(((n - 1) as nat) * (q * q) + q * q == n * (q * q)) by (nonlinear_arith)
            requires
                n >= 1,
        ;
        assert(q * q >= 0) by (nonlinear_arith);
    } else {
        assert(0 * (q * q) == 0) by (nonlinear_arith);
    }
}

/// One coefficient of a product.
fn conv_at(a: &Coeffs, b: &Coeffs, k: usize, q: u16) -> (r: u64)
    requires
        in_range(a@, q),
        in_range(b@, q),
        k < 1296,
        q >= 1,
    ensures
        r == poly::product(poly::ints(a@), poly::ints(b@))[k as int] % (q as int),
        r < q,
{
    let ghost (x, y) = (poly::ints(a@), poly::ints(b@));
    let mut sum: u64 = 0;
    let mut i: usize = 0;
    while i < 648
        invariant
            i <= 648,
            k < 1296,
            q >= 1,
            in_range(a@, q),
            in_range(b@, q),
            x == poly::ints(a@),
            y == poly::ints(b@),
            sum == poly::conv(x, y, k as int, i as nat),
        decreases 648 - i,
    {
        proof {
            lemma_conv_bound(x, y, k as int, (i + 1) as nat, q as int);
            let n = (i + 1) as int;
            let m = q as int;
            assert(n * (m * m) <= 648 * (0x1_0000 * 0x1_0000)) by (nonlinear_arith)
                requires
                    0 <= n <= 648,
                    0 <= m <= 0x1_0000,
            ;
        }
        if i <= k && k - i < 648 {
            proof {
                let (u, v) = (a@[i as int], b@[k - i]);
                assert(u * v < 0x1_0000 * 0x1_0000) by (nonlinear_arith)
                    requires
                        u < 0x1_0000,
                        v < 0x1_0000,
                ;
            }
            sum = sum + a[i] as u64 * b[k - i] as u64;
        }
        i += 1;
    }
    proof {
        lemma_mod_bound(sum as int, q as int);
    }
    sum % (q as u64)
}

/// `a b` in `Z_q[X]/(X^648 - X^324 + 1)`, using `X^648 = X^324 - 1`.
pub fn mul_mod_phi(a: &Coeffs, b: &Coeffs, q: u16) -> (out: Coeffs)
    requires
        q >= 1,
        in_range(a@, q),
        in_range(b@, q),
    ensures
        forall|i: int|
            0 <= i < 648 ==> (#[trigger] out@[i]) == laws::reduce_phi(
                poly::product(poly::ints(a@), poly::ints(b@)),
            )[i] % (q as int),
{
    let ghost c = poly::product(poly::ints(a@), poly::ints(b@));
    let m: u64 = q as u64;
    let mut out: Coeffs = [0;648];
    let mut i: usize = 0;
    while i < 324
        invariant
            i <= 324,
            q >= 1,
            m == q,
            in_range(a@, q),
            in_range(b@, q),
            c == poly::product(poly::ints(a@), poly::ints(b@)),
            forall|j: int|
                0 <= j < 648 && (j < i || 324 <= j < 324 + i) ==> (#[trigger] out@[j])
                    == laws::reduce_phi(c)[j] % (q as int),
        decreases 324 - i,
    {
        let c0: u64 = conv_at(a, b, i, q);
        let c1: u64 = conv_at(a, b, i + 324, q);
        let c2: u64 = conv_at(a, b, i + 648, q);
        let c3: u64 = conv_at(a, b, i + 972, q);
        out[i] = ((c0 + 2 * m - c2 - c3) % m) as u32;
        out[i + 324] = ((c1 + c2) % m) as u32;
        proof {
            let n = q as int;
            let (e0, e1, e2, e3) = (c[i as int], c[i + 324], c[i + 648], c[i + 972]);
            modular::lemma_reduced(e0, n);
            modular::lemma_reduced(e1, n);
            modular::lemma_reduced(e2, n);
            modular::lemma_reduced(e3, n);
            modular::lemma_sub(c0 as int, c2 as int, e0, e2, n);
            modular::lemma_sub(c0 - c2, c3 as int, e0 - e2, e3, n);
            modular::lemma_multiple(c0 - c2 - c3, 2, n);
            modular::lemma_add(c1 as int, c2 as int, e1, e2, n);
            assert(laws::reduce_phi(c)[i as int] == e0 - e2 - e3);
            assert(laws::reduce_phi(c)[i + 324] == e1 + e2);
        }
        i += 1;
    }
    out
}

/// Forward transform in tree order: `out[j] = a(psi^slot_exp(j))`.
pub fn ntt<const Q: u16>(a: &Coeffs) -> (out: Coeffs)
    requires
        params::splitting(Q),
    ensures
        is_ntt(Q, out@, poly::ints(a@)),
        in_range(out@, Q),
{
    let t = params::limb_tree(Q);
    let v = tree::forward(&t, a);
    let out = narrowed(&v, Q);
    proof {
        lemma_leaves(Q, v@, poly::ints(a@));
    }
    out
}

/// Reduced residues as coefficients.
pub(crate) fn narrowed(v: &[u64; 648], q: u16) -> (out: Coeffs)
    requires
        tree::reduced(v@, q as u64),
    ensures
        forall|i: int| 0 <= i < 648 ==> (#[trigger] out@[i]) == v@[i],
        in_range(out@, q),
{
    let mut out: Coeffs = [0;648];
    let mut i: usize = 0;
    while i < 648
        invariant
            i <= 648,
            tree::reduced(v@, q as u64),
            forall|j: int| 0 <= j < i ==> (#[trigger] out@[j]) == v@[j],
        decreases 648 - i,
    {
        assert(v@[i as int] < q);
        out[i] = v[i] as u32;
        i += 1;
    }
    out
}

/// Coefficients reduced modulo `q`.
fn widened(v: &Coeffs, q: u16) -> (out: [u64; 648])
    requires
        q >= 1,
    ensures
        tree::reduced(out@, q as u64),
        forall|i: int| 0 <= i < 648 ==> (#[trigger] out@[i]) == v@[i] as int % q as int,
{
    let mut out: [u64; 648] = [0;648];
    let mut i: usize = 0;
    while i < 648
        invariant
            i <= 648,
            q >= 1,
            forall|j: int|
                0 <= j < i ==> (#[trigger] out@[j]) == v@[j] as int % q as int && out@[j] < q,
        decreases 648 - i,
    {
        out[i] = v[i] as u64 % (q as u64);
        i += 1;
    }
    out
}

/// What a tree holds at its leaves is the transform.
pub proof fn lemma_leaves(q: u16, v: Seq<u64>, a: Seq<int>)
    requires
        params::limb_prime(q),
        params::tree_of(q).holds(v, a, 1),
    ensures
        params::splitting(q) ==> forall|j: int|
            0 <= j < 648 ==> (#[trigger] v[j]) == poly::eval(a, point(q, j)) % (q as int),
        ring::quadratic(q) ==> forall|s: int|
            0 <= s < 648 ==> (#[trigger] v[s]) == poly::strided(a, s % 2, 2, point(q, s / 2)) % (
            q as int),
{
    let t = params::tree_of(q);
    let n = 1 * tree::leaf(t.split);
    assert forall|s: int| 0 <= s < 648 implies (#[trigger] v[s]) == poly::strided(
        a,
        s % n,
        n,
        point(q, s / n),
    ) % (q as int) by {
        assert(v[s] < t.q);
        lemma_small_mod(v[s] as nat, q as nat);
        tree::lemma_place(t.split, 1, s / n);
        assert(1 * tree::place(t.split, 1, s / n) == tree::place(t.split, 1, s / n));
    }
    if params::splitting(q) {
        assert forall|j: int| 0 <= j < 648 implies (#[trigger] v[j]) == poly::eval(
            a,
            point(q, j),
        ) % (q as int) by {
            assert(j % 1 == 0 && j / 1 == j);
        }
    }
}

/// The transform is what a tree holds at its leaves.
proof fn lemma_held(q: u16, v: Seq<u32>, w: Seq<u64>, a: Seq<int>)
    requires
        params::limb_prime(q),
        forall|j: int| 0 <= j < 648 ==> (#[trigger] w[j]) == v[j],
        params::splitting(q) ==> is_ntt(q, v, a),
        ring::quadratic(q) ==> is_ntt_quad(q, v, a),
    ensures
        params::tree_of(q).holds(w, a, 1),
{
    let t = params::tree_of(q);
    let n = 1 * tree::leaf(t.split);
    assert forall|s: int| 0 <= s < 648 implies (#[trigger] w[s]) < t.q && same(
        w[s] as int,
        poly::strided(a, s % n, n, t.root(1, s / n)),
        q as int,
    ) by {
        assert(w[s] == v[s]);
        let x = poly::strided(a, s % n, n, t.root(1, s / n));
        tree::lemma_place(t.split, 1, s / n);
        assert(1 * tree::place(t.split, 1, s / n) == tree::place(t.split, 1, s / n));
        if params::splitting(q) {
            assert(s % 1 == 0 && s / 1 == s);
        }
        modular::lemma_reduced(x, q as int);
    }
}

/// Direct evaluation `a(psi^u)` by Horner's rule.
pub fn eval_at<const Q: u16>(a: &Coeffs, u: u32) -> (r: u32)
    requires
        params::splitting(Q),
    ensures
        r == poly::eval(
            poly::ints(a@),
            pow(params::psi_of(Q) as int, u as nat),
        ) % (Q as int),
{
    let q: u64 = Q as u64;
    let t = params::limb_tree(Q);
    let x: u64 = modular::pow_mod(t.psi, u as u64, q);
    let ghost p = pow(params::psi_of(Q) as int, u as nat);
    let ghost s = poly::ints(a@);
    let mut acc: u64 = 0;
    proof {
        modular::lemma_reduced(p, q as int);
    }
    let mut i: usize = 648;
    while i > 0
        invariant
            i <= 648,
            2917 <= q <= 19441,
            x < q,
            same(x as int, p, q as int),
            s == poly::ints(a@),
            acc < q,
            same(acc as int, poly::strided(s, i as int, 1, p), q as int),
        decreases i,
    {
        i -= 1;
        proof {
            tree::lemma_product(acc, x);
            let n = q as int;
            let e = poly::strided(s, i + 1, 1, p);
            modular::lemma_mul(acc as int, x as int, e, p, n);
            modular::lemma_add(acc * x, a@[i as int] as int, e * p, a@[i as int] as int, n);
            modular::lemma_reduced(acc * x + a@[i as int], n);
            assert(e * p == p * e) by (nonlinear_arith);
        }
        acc = (acc * x + a[i] as u64) % q;
    }
    proof {
        lemma_small_mod(acc as nat, q as nat);
    }
    acc as u32
}

/// The slot-wise product of two transforms at a splitting prime.
pub fn pointwise_mul(a: &Coeffs, b: &Coeffs, q: u16) -> (c: Coeffs)
    requires
        q >= 1,
    ensures
        forall|j: int|
            0 <= j < 648 ==> (#[trigger] c@[j]) == (a@[j] * b@[j]) % (q as int),
{
    let mut c: Coeffs = [0;648];
    let mut j: usize = 0;
    while j < 648
        invariant
            j <= 648,
            q >= 1,
            forall|i: int| 0 <= i < j ==> (#[trigger] c@[i]) == (a@[i] * b@[i]) % (q as int),
        decreases 648 - j,
    {
        proof {
            let (x, y) = (a@[j as int], b@[j as int]);
            assert(x * y <= 0xFFFF_FFFF * 0xFFFF_FFFF) by (nonlinear_arith)
                requires
                    x <= 0xFFFF_FFFF,
                    y <= 0xFFFF_FFFF,
            ;
            lemma_mod_bound(x * y, q as int);
        }
        c[j] = (a[j] as u64 * b[j] as u64 % (q as u64)) as u32;
        j += 1;
    }
    c
}

/// Signed coefficients reduced modulo `q`.
pub fn normalize_i16(v: &[i16; 648], q: u16) -> (out: Coeffs)
    requires
        q >= 1,
    ensures
        forall|i: int| 0 <= i < 648 ==> (#[trigger] out@[i]) == v@[i] as int % q as int,
{
    let mut out: Coeffs = [0;648];
    let mut i: usize = 0;
    while i < 648
        invariant
            i <= 648,
            q >= 1,
            forall|j: int| 0 <= j < i ==> (#[trigger] out@[j]) == v@[j] as int % q as int,
        decreases 648 - i,
    {
        out[i] = ring::element::residue(v[i], q);
        i += 1;
    }
    out
}

/// Exact inverse of [`ntt`], in the same tree order.
pub fn intt<const Q: u16>(v: &Coeffs) -> (out: Coeffs)
    requires
        params::splitting(Q),
    ensures
        in_range(out@, Q),
        forall|j: int|
            0 <= j < 648 ==> (#[trigger] v@[j]) as int % Q as int == poly::eval(
                poly::ints(out@),
                point(Q, j),
            ) % (Q as int),
{
    let t = params::limb_tree(Q);
    let u = widened(v, Q);
    let out = inverse::backward(&t, &u);
    proof {
        lemma_leaves(Q, u@, poly::ints(out@));
        assert forall|j: int| 0 <= j < 648 implies (#[trigger] v@[j]) as int % Q as int
            == poly::eval(poly::ints(out@), point(Q, j)) % (Q as int) by {
            assert(u@[j] == v@[j] as int % Q as int);
        }
    }
    out
}

/// Forward transform at a quadratic-slot prime: the 324 leaves in tree order, leaf `j` in rows
/// `2 j` and `2 j + 1`.
pub fn ntt_quad<const Q: u16>(a: &Coeffs) -> (out: Coeffs)
    requires
        ring::quadratic(Q),
    ensures
        is_ntt_quad(Q, out@, poly::ints(a@)),
        in_range(out@, Q),
{
    let t = params::limb_tree(Q);
    let v = tree::forward(&t, a);
    let out = narrowed(&v, Q);
    proof {
        lemma_leaves(Q, v@, poly::ints(a@));
    }
    out
}

/// Exact inverse of [`ntt_quad`].
pub fn intt_quad<const Q: u16>(v: &Coeffs) -> (out: Coeffs)
    requires
        ring::quadratic(Q),
    ensures
        in_range(out@, Q),
        forall|s: int|
            0 <= s < 648 ==> (#[trigger] v@[s]) as int % Q as int == poly::strided(
                poly::ints(out@),
                s % 2,
                2,
                point(Q, s / 2),
            ) % (Q as int),
{
    let t = params::limb_tree(Q);
    let u = widened(v, Q);
    let out = inverse::backward(&t, &u);
    proof {
        lemma_leaves(Q, u@, poly::ints(out@));
        assert forall|s: int| 0 <= s < 648 implies (#[trigger] v@[s]) as int % Q as int
            == poly::strided(poly::ints(out@), s % 2, 2, point(Q, s / 2)) % (Q as int) by {
            assert(u@[s] == v@[s] as int % Q as int);
        }
    }
    out
}

/// `a mod (X^2 - psi^u) = r0 + r1 X` by Horner's rule in `X`.
pub fn eval_quad_at<const Q: u16>(a: &Coeffs, u: u32) -> (r: (u32, u32))
    requires
        ring::quadratic(Q),
    ensures
        r.0 == poly::strided(
            poly::ints(a@),
            0,
            2,
            pow(params::psi_of(Q) as int, u as nat),
        ) % (Q as int),
        r.1 == poly::strided(
            poly::ints(a@),
            1,
            2,
            pow(params::psi_of(Q) as int, u as nat),
        ) % (Q as int),
{
    let q: u64 = Q as u64;
    let t = params::limb_tree(Q);
    let c: u64 = modular::pow_mod(t.psi, u as u64, q);
    let ghost p = pow(params::psi_of(Q) as int, u as nat);
    let ghost s = poly::ints(a@);
    let mut r0: u64 = 0;
    let mut r1: u64 = 0;
    proof {
        modular::lemma_reduced(p, q as int);
    }
    let mut i: usize = 648;
    while i > 0
        invariant
            i <= 648,
            2917 <= q <= 19441,
            c < q,
            same(c as int, p, q as int),
            s == poly::ints(a@),
            r0 < q,
            r1 < q,
            same(r0 as int, poly::strided(s, i as int, 2, p), q as int),
            same(r1 as int, poly::strided(s, i + 1, 2, p), q as int),
        decreases i,
    {
        i -= 1;
        proof {
            tree::lemma_product(r1, c);
            let n = q as int;
            let e = poly::strided(s, i + 2, 2, p);
            modular::lemma_mul(r1 as int, c as int, e, p, n);
            modular::lemma_add(r1 * c, a@[i as int] as int, e * p, a@[i as int] as int, n);
            modular::lemma_reduced(r1 * c + a@[i as int], n);
            assert(e * p == p * e) by (nonlinear_arith);
        }
        let n0: u64 = (r1 * c + a[i] as u64) % q;
        r1 = r0;
        r0 = n0;
    }
    proof {
        lemma_small_mod(r0 as nat, q as nat);
        lemma_small_mod(r1 as nat, q as nat);
    }
    (r0 as u32, r1 as u32)
}

/// The slot-wise product of two transforms at a quadratic-slot prime: for every leaf,
/// `(a0 + a1 X)(b0 + b1 X) mod (X^2 - c)`.
pub fn mul_quad_slots<const Q: u16>(a: &Coeffs, b: &Coeffs) -> (c: Coeffs)
    requires
        ring::quadratic(Q),
    ensures
        forall|j: int|
            0 <= j < 324 ==> {
                &&& (#[trigger] c@[2 * j]) == (a@[2 * j] * b@[2 * j] + point(Q, j) * (a@[2 * j + 1]
                    * b@[2 * j + 1])) % (Q as int)
                &&& c@[2 * j + 1] == (a@[2 * j] * b@[2 * j + 1] + a@[2 * j + 1] * b@[2 * j]) % (
                Q as int)
            },
{
    let q: u64 = Q as u64;
    let t = params::limb_tree(Q);
    let mut c: Coeffs = [0;648];
    let mut j: usize = 0;
    while j < 324
        invariant
            j <= 324,
            ring::quadratic(Q),
            q == Q,
            t == params::tree_of(Q),
            forall|i: int|
                0 <= i < j ==> leaf_product(
                    Q,
                    a@,
                    b@,
                    #[trigger] c@[2 * i] as int,
                    c@[2 * i + 1] as int,
                    i,
                ),
        decreases 324 - j,
    {
        let e: u64 = tree::place_of(false, 1, j as u64);
        let cj: u64 = modular::pow_mod(t.psi, e, q);
        let a0: u64 = a[2 * j] as u64 % q;
        let a1: u64 = a[2 * j + 1] as u64 % q;
        let b0: u64 = b[2 * j] as u64 % q;
        let b1: u64 = b[2 * j + 1] as u64 % q;
        proof {
            tree::lemma_product(a0, b0);
            tree::lemma_product(a0, b1);
            tree::lemma_product(a1, b0);
            tree::lemma_product(a1, b1);
        }
        let d: u64 = a1 * b1 % q;
        proof {
            tree::lemma_product(cj, d);
            lemma_leaf_product(
                q as int,
                point(Q, j as int),
                a@[2 * j] as int,
                a@[2 * j + 1] as int,
                b@[2 * j] as int,
                b@[2 * j + 1] as int,
            );
        }
        let r0: u64 = (a0 * b0 + cj * d) % q;
        let r1: u64 = (a0 * b1 + a1 * b0) % q;
        let ghost before = c@;
        c[2 * j] = r0 as u32;
        c[2 * j + 1] = r1 as u32;
        assert forall|i: int| 0 <= i <= j implies leaf_product(
            Q,
            a@,
            b@,
            #[trigger] c@[2 * i] as int,
            c@[2 * i + 1] as int,
            i,
        ) by {
            if i < j {
                assert(leaf_product(Q, a@, b@, before[2 * i] as int, before[2 * i + 1] as int, i));
                assert(c@[2 * i] == before[2 * i] && c@[2 * i + 1] == before[2 * i + 1]);
            }
        }
        j += 1;
    }
    assert forall|i: int| 0 <= i < 324 implies {
        &&& (#[trigger] c@[2 * i]) == (a@[2 * i] * b@[2 * i] + point(Q, i) * (a@[2 * i + 1] * b@[2
            * i + 1])) % (Q as int)
        &&& c@[2 * i + 1] == (a@[2 * i] * b@[2 * i + 1] + a@[2 * i + 1] * b@[2 * i]) % (Q as int)
    } by {
        assert(leaf_product(Q, a@, b@, c@[2 * i] as int, c@[2 * i + 1] as int, i));
    }
    c
}

/// `(c0, c1)` is the product at leaf `j`.
spec fn leaf_product(q: u16, a: Seq<u32>, b: Seq<u32>, c0: int, c1: int, j: int) -> bool {
    &&& c0 == (a[2 * j] * b[2 * j] + point(q, j) * (a[2 * j + 1] * b[2 * j + 1])) % (q as int)
    &&& c1 == (a[2 * j] * b[2 * j + 1] + a[2 * j + 1] * b[2 * j]) % (q as int)
}

proof fn lemma_leaf_product(q: int, c: int, x0: int, x1: int, y0: int, y1: int)
    requires
        q > 0,
    ensures
        ({
            let (a0, a1, b0, b1) = (x0 % q, x1 % q, y0 % q, y1 % q);
            &&& (a0 * b0 + c % q * (a1 * b1 % q)) % q == (x0 * y0 + c * (x1 * y1)) % q
            &&& (a0 * b1 + a1 * b0) % q == (x0 * y1 + x1 * y0) % q
        }),
{
    let (a0, a1, b0, b1) = (x0 % q, x1 % q, y0 % q, y1 % q);
    modular::lemma_reduced(x0, q);
    modular::lemma_reduced(x1, q);
    modular::lemma_reduced(y0, q);
    modular::lemma_reduced(y1, q);
    modular::lemma_reduced(c, q);
    modular::lemma_mul(a0, b0, x0, y0, q);
    modular::lemma_mul(a1, b1, x1, y1, q);
    modular::lemma_reduced(a1 * b1, q);
    modular::lemma_mul(c % q, a1 * b1 % q, c, x1 * y1, q);
    modular::lemma_add(a0 * b0, c % q * (a1 * b1 % q), x0 * y0, c * (x1 * y1), q);
    modular::lemma_mul(a0, b1, x0, y1, q);
    modular::lemma_mul(a1, b0, x1, y0, q);
    modular::lemma_add(a0 * b1, a1 * b0, x0 * y1, x1 * y0, q);
}

/// The transform at any limb.
pub fn transform(q: u16, a: &Coeffs) -> (out: Coeffs)
    requires
        params::limb_prime(q),
    ensures
        ring::decompose::is_transform(q, out@, poly::ints(a@)),
        in_range(out@, q),
{
    let t = params::limb_tree(q);
    let v = tree::forward(&t, a);
    let out = narrowed(&v, q);
    proof {
        lemma_leaves(q, v@, poly::ints(a@));
    }
    out
}

/// The inverse transform at any limb.
pub fn inverse_transform(q: u16, v: &Coeffs) -> (out: Coeffs)
    requires
        params::limb_prime(q),
        in_range(v@, q),
    ensures
        in_range(out@, q),
        ring::decompose::is_transform(q, v@, poly::ints(out@)),
{
    let t = params::limb_tree(q);
    let u = widened(v, q);
    let out = inverse::backward(&t, &u);
    proof {
        lemma_leaves(q, u@, poly::ints(out@));
        assert forall|j: int| 0 <= j < 648 implies (#[trigger] v@[j]) == u@[j] by {
            assert(u@[j] == v@[j] as int % q as int);
            lemma_small_mod(v@[j] as nat, q as nat);
        }
    }
    out
}

// ---------------------------------------------------------------------------------------------
// laws
// ---------------------------------------------------------------------------------------------

/// A ring element is determined modulo `q` by its transform.
pub proof fn transform_determines_residues(q: u16, v: Seq<u32>, a: Seq<int>, b: Seq<int>)
    requires
        params::limb_prime(q),
        a.len() == 648,
        b.len() == 648,
        ring::decompose::is_transform(q, v, a),
        ring::decompose::is_transform(q, v, b),
    ensures
        forall|i: int| 0 <= i < 648 ==> same(#[trigger] a[i], b[i], q as int),
{
    let w = Seq::new(648, |i: int| v[i] as u64);
    params::lemma_limb(q);
    lemma_held(q, v, w, a);
    lemma_held(q, v, w, b);
    laws::transform_injective(params::tree_of(q), w, a, b);
}

/// A reduced ring element is determined by its transform, so that the inverse transform of a
/// transform gives the element back.
pub proof fn transform_determines(q: u16, v: Seq<u32>, a: Seq<u32>, b: Seq<u32>)
    requires
        params::limb_prime(q),
        a.len() == 648,
        b.len() == 648,
        in_range(a, q),
        in_range(b, q),
        params::splitting(q) ==> is_ntt(q, v, poly::ints(a)) && is_ntt(q, v, poly::ints(b)),
        ring::quadratic(q) ==> is_ntt_quad(q, v, poly::ints(a)) && is_ntt_quad(
            q,
            v,
            poly::ints(b),
        ),
    ensures
        a == b,
{
    let w = Seq::new(648, |i: int| v[i] as u64);
    params::lemma_limb(q);
    lemma_held(q, v, w, poly::ints(a));
    lemma_held(q, v, w, poly::ints(b));
    laws::transform_injective(params::tree_of(q), w, poly::ints(a), poly::ints(b));
    assert forall|i: int| 0 <= i < 648 implies a[i] == b[i] by {
        assert(same(poly::ints(a)[i], poly::ints(b)[i], q as int));
        modular::lemma_small(a[i] as int, b[i] as int, q as int);
    }
    assert(a =~= b);
}

/// The transform of a product at a splitting prime is the slot-wise product of the transforms.
pub proof fn ntt_product(q: u16, a: Seq<u32>, b: Seq<u32>, c: Seq<u32>, j: int)
    requires
        params::splitting(q),
        a.len() == 648,
        b.len() == 648,
        c.len() == 648,
        forall|i: int|
            0 <= i < 648 ==> (#[trigger] c[i]) == laws::reduce_phi(
                poly::product(poly::ints(a), poly::ints(b)),
            )[i] % (q as int),
        0 <= j < 648,
    ensures
        poly::eval(poly::ints(c), point(q, j)) % (q as int) == (poly::eval(
            poly::ints(a),
            point(q, j),
        ) % (q as int)) * (poly::eval(poly::ints(b), point(q, j)) % (q as int)) % (q as int),
{
    let (t, m, x) = (params::tree_of(q), q as int, point(q, j));
    let p = poly::product(poly::ints(a), poly::ints(b));
    params::lemma_limb(q);
    assert(j % 1 == 0 && j / 1 == j);
    tree::lemma_place(true, 1, j);
    assert(1 * tree::place(true, 1, j) == tree::place(true, 1, j));
    laws::remainder_transform(t, p, j);
    lemma_reduced_coefficients(q, c, laws::reduce_phi(p));
    poly::lemma_coefficients(poly::ints(c), laws::reduce_phi(p), 0, 1, x, m);
    poly::lemma_eval_product(poly::ints(a), poly::ints(b), x);
    let (e, f) = (poly::eval(poly::ints(a), x), poly::eval(poly::ints(b), x));
    modular::lemma_reduced(e, m);
    modular::lemma_reduced(f, m);
    modular::lemma_mul(e % m, f % m, e, f, m);
}

proof fn lemma_reduced_coefficients(q: u16, c: Seq<u32>, r: Seq<int>)
    requires
        q >= 1,
        c.len() == r.len(),
        forall|i: int| 0 <= i < c.len() ==> (#[trigger] c[i]) == r[i] % (q as int),
    ensures
        forall|i: int|
            0 <= i < c.len() ==> same(#[trigger] poly::ints(c)[i], r[i], q as int),
{
    assert forall|i: int| 0 <= i < c.len() implies same(
        #[trigger] poly::ints(c)[i],
        r[i],
        q as int,
    ) by {
        assert(c[i] == r[i] % (q as int));
        modular::lemma_reduced(r[i], q as int);
    }
}

/// The transform of a product at a quadratic-slot prime is, leaf by leaf, the product modulo
/// `X^2 - point(j)`.
pub proof fn ntt_quad_product(q: u16, a: Seq<u32>, b: Seq<u32>, c: Seq<u32>, j: int)
    requires
        ring::quadratic(q),
        a.len() == 648,
        b.len() == 648,
        c.len() == 648,
        forall|i: int|
            0 <= i < 648 ==> (#[trigger] c[i]) == laws::reduce_phi(
                poly::product(poly::ints(a), poly::ints(b)),
            )[i] % (q as int),
        0 <= j < 324,
    ensures
        ({
            let (m, x) = (q as int, point(q, j));
            let a0 = poly::strided(poly::ints(a), 0, 2, x) % m;
            let a1 = poly::strided(poly::ints(a), 1, 2, x) % m;
            let b0 = poly::strided(poly::ints(b), 0, 2, x) % m;
            let b1 = poly::strided(poly::ints(b), 1, 2, x) % m;
            &&& poly::strided(poly::ints(c), 0, 2, x) % m == (a0 * b0 + x * (a1 * b1)) % m
            &&& poly::strided(poly::ints(c), 1, 2, x) % m == (a0 * b1 + a1 * b0) % m
        }),
{
    let (t, m, x) = (params::tree_of(q), q as int, point(q, j));
    let p = poly::product(poly::ints(a), poly::ints(b));
    params::lemma_limb(q);
    tree::lemma_place(false, 1, j);
    assert(1 * tree::place(false, 1, j) == tree::place(false, 1, j));
    let (s0, s1) = (2 * j, 2 * j + 1);
    assert(s0 % 2 == 0 && s0 / 2 == j && s1 % 2 == 1 && s1 / 2 == j);
    laws::remainder_transform(t, p, s0);
    laws::remainder_transform(t, p, s1);
    lemma_reduced_coefficients(q, c, laws::reduce_phi(p));
    poly::lemma_coefficients(poly::ints(c), laws::reduce_phi(p), 0, 2, x, m);
    poly::lemma_coefficients(poly::ints(c), laws::reduce_phi(p), 1, 2, x, m);
    poly::lemma_quadratic_product(poly::ints(a), poly::ints(b), x);
    let (u0, u1) = (poly::strided(poly::ints(a), 0, 2, x), poly::strided(poly::ints(a), 1, 2, x));
    let (v0, v1) = (poly::strided(poly::ints(b), 0, 2, x), poly::strided(poly::ints(b), 1, 2, x));
    let (a0, a1, b0, b1) = (u0 % m, u1 % m, v0 % m, v1 % m);
    modular::lemma_reduced(u0, m);
    modular::lemma_reduced(u1, m);
    modular::lemma_reduced(v0, m);
    modular::lemma_reduced(v1, m);
    modular::lemma_mul(a0, b0, u0, v0, m);
    modular::lemma_mul(a1, b1, u1, v1, m);
    modular::lemma_mul(x, a1 * b1, x, u1 * v1, m);
    modular::lemma_add(a0 * b0, x * (a1 * b1), u0 * v0, x * (u1 * v1), m);
    modular::lemma_mul(a0, b1, u0, v1, m);
    modular::lemma_mul(a1, b0, u1, v0, m);
    modular::lemma_add(a0 * b1, a1 * b0, u0 * v1, u1 * v0, m);
}

} // verus!
