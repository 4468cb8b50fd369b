//! The inverse transform, node by node.
use super::poly;
use super::tree;
use super::tree::Tree;
use crate::modular;
use crate::modular::same;
use vstd::arithmetic::div_mod::*;
use vstd::arithmetic::mul::*;
use vstd::arithmetic::power::*;
use vstd::prelude::*;

verus! {

/// Adding and subtracting undo the two-way split.
proof fn lemma_unmix2(q: int, half: int, z: int, zi: int, y0: int, y1: int)
    requires
        q > 0,
        same(2 * half, 1, q),
        same(z * zi, 1, q),
    ensures
        ({
            let (u0, u1) = (half * (y0 + y1), zi * (half * (y0 - y1)));
            same(u0 + z * u1, y0, q) && same(u0 - z * u1, y1, q)
        }),
{
    let (u0, d) = (half * (y0 + y1), half * (y0 - y1));
    let u1 = zi * d;
    modular::lemma_mul(z * zi, d, 1, d, q);
    assert(z * u1 == z * zi * d) by (nonlinear_arith)
        requires
            u1 == zi * d,
    ;
    assert(1 * d == d);
    modular::lemma_add(u0, z * u1, u0, d, q);
    modular::lemma_sub(u0, z * u1, u0, d, q);
    assert(u0 + d == 2 * half * y0) by (nonlinear_arith)
        requires
            u0 == half * (y0 + y1),
            d == half * (y0 - y1),
    ;
    assert(u0 - d == 2 * half * y1) by (nonlinear_arith)
        requires
            u0 == half * (y0 + y1),
            d == half * (y0 - y1),
    ;
    modular::lemma_mul(2 * half, y0, 1, y0, q);
    modular::lemma_mul(2 * half, y1, 1, y1, q);
    assert(1 * y0 == y0 && 1 * y1 == y1);
}

/// Congruent weights give congruent sums.
proof fn lemma_sum(q: int, c: (int, int, int), d: (int, int, int), y: (int, int, int))
    requires
        q > 0,
        same(c.0, d.0, q),
        same(c.1, d.1, q),
        same(c.2, d.2, q),
    ensures
        same(
            c.0 * y.0 + c.1 * y.1 + c.2 * y.2,
            d.0 * y.0 + d.1 * y.1 + d.2 * y.2,
            q,
        ),
{
    modular::lemma_mul(c.0, y.0, d.0, y.0, q);
    modular::lemma_mul(c.1, y.1, d.1, y.1, q);
    modular::lemma_mul(c.2, y.2, d.2, y.2, q);
    modular::lemma_add(c.0 * y.0, c.1 * y.1, d.0 * y.0, d.1 * y.1, q);
    modular::lemma_add(
        c.0 * y.0 + c.1 * y.1,
        c.2 * y.2,
        d.0 * y.0 + d.1 * y.1,
        d.2 * y.2,
        q,
    );
}

proof fn lemma_distribute(a: int, b: int, c: int, y: int)
    ensures
        (a + b + c) * y == a * y + b * y + c * y,
        y * (a + b + c) == y * a + y * b + y * c,
{
    assert((a + b + c) * y == a * y + b * y + c * y) by (nonlinear_arith);
    assert(y * (a + b + c) == y * a + y * b + y * c) by (nonlinear_arith);
}

/// A third of three times a number.
proof fn lemma_third(q: int, third: int, s: int, y: int)
    requires
        q > 0,
        same(3 * third, 1, q),
        same(s, 3 * y, q),
    ensures
        same(third * s, y, q),
{
    modular::lemma_mul(third, s, third, 3 * y, q);
    assert(third * (3 * y) == 3 * third * y) by (nonlinear_arith);
    modular::lemma_mul(3 * third, y, 1, y, q);
    assert(1 * y == y);
}

/// The weighted sums of the three weighted sums, `u = w^2`.
pub proof fn lemma_sums(q: int, w: int, u: int, y0: int, y1: int, y2: int)
    requires
        q > 0,
        u == w * w,
        same(u + w + 1, 0, q),
    ensures
        ({
            let (s0, s1, s2) = (y0 + y1 + y2, y0 + u * y1 + w * y2, y0 + w * y1 + u * y2);
            &&& same(s0 + s1 + s2, 3 * y0, q)
            &&& same(s0 + w * s1 + u * s2, 3 * y1, q)
            &&& same(s0 + u * s1 + w * s2, 3 * y2, q)
        }),
{
    let (s0, s1, s2) = (y0 + y1 + y2, y0 + u * y1 + w * y2, y0 + w * y1 + u * y2);
    let p = 1 + w + u;
    assert(same(p, 0, q));
    // w u = 1 and u u = w
    assert(w * u == 1 + (w - 1) * p) by (nonlinear_arith)
        requires
            u == w * w,
            p == 1 + w + u,
    ;
    assert(u * u == w + (u - w) * p) by (nonlinear_arith)
        requires
            u == w * w,
            p == 1 + w + u,
    ;
    modular::lemma_mul(w - 1, p, w - 1, 0, q);
    modular::lemma_mul(u - w, p, u - w, 0, q);
    assert((w - 1) * 0 == 0 && (u - w) * 0 == 0);
    modular::lemma_add(1, (w - 1) * p, 1, 0, q);
    modular::lemma_add(w, (u - w) * p, w, 0, q);
    let (wu, uu) = (w * u, u * u);
    assert(same(wu, 1, q) && same(uu, w, q));
    assert(u * w == w * u) by (nonlinear_arith);
    lemma_distribute(1, w, u, y0);
    lemma_distribute(1, u, w, y1);
    lemma_distribute(1, w, u, y2);
    lemma_sum(q, (3, p, p), (3, 0, 0), (y0, y1, y2));
    assert(s0 + s1 + s2 == 3 * y0 + p * y1 + p * y2);
    assert(0 * y1 == 0 && 0 * y2 == 0 && 0 * y0 == 0);
    // the second and the third sum
    lemma_distribute(y0, u * y1, w * y2, w);
    lemma_distribute(y0, w * y1, u * y2, u);
    lemma_distribute(y0, u * y1, w * y2, u);
    lemma_distribute(y0, w * y1, u * y2, w);
    lemma_associate(w, u, y1);
    lemma_associate(w, w, y2);
    lemma_associate(u, w, y1);
    lemma_associate(u, u, y2);
    lemma_associate(u, u, y1);
    lemma_associate(u, w, y2);
    lemma_associate(w, w, y1);
    lemma_associate(w, u, y2);
    let c1 = 1 + wu + wu;
    let c2 = 1 + u + uu;
    lemma_distribute(1, wu, wu, y1);
    lemma_distribute(1, u, uu, y2);
    lemma_distribute(1, wu, wu, y2);
    lemma_distribute(1, u, uu, y1);
    modular::lemma_add(1, wu, 1, 1, q);
    modular::lemma_add(1 + wu, wu, 2, 1, q);
    modular::lemma_add(1 + u, uu, 1 + u, w, q);
    assert(same(c1, 3, q) && same(c2, 0, q));
    lemma_sum(q, (p, c1, c2), (0, 3, 0), (y0, y1, y2));
    lemma_sum(q, (p, c2, c1), (0, 0, 3), (y0, y1, y2));
    assert(s0 + w * s1 + u * s2 == p * y0 + c1 * y1 + c2 * y2);
    assert(s0 + u * s1 + w * s2 == p * y0 + c2 * y1 + c1 * y2);
}

proof fn lemma_associate(a: int, b: int, y: int)
    ensures
        a * (b * y) == a * b * y,
{
    assert(a * (b * y) == a * b * y) by (nonlinear_arith);
}

/// The three weighted means undo the three-way split.
proof fn lemma_unmix3(q: int, third: int, w: int, y0: int, y1: int, y2: int)
    requires
        q > 0,
        same(3 * third, 1, q),
        same(w * w + w + 1, 0, q),
    ensures
        ({
            let (a, b, c) = (
                third * (y0 + y1 + y2),
                third * (y0 + w * w * y1 + w * y2),
                third * (y0 + w * y1 + w * w * y2),
            );
            &&& same(a + b + c, y0, q)
            &&& same(a + w * b + w * w * c, y1, q)
            &&& same(a + w * w * b + w * c, y2, q)
        }),
{
    let u = w * w;
    let (s0, s1, s2) = (y0 + y1 + y2, y0 + u * y1 + w * y2, y0 + w * y1 + u * y2);
    let (a, b, c) = (third * s0, third * s1, third * s2);
    lemma_sums(q, w, u, y0, y1, y2);
    lemma_distribute(s0, s1, s2, third);
    lemma_distribute(s0, w * s1, u * s2, third);
    lemma_distribute(s0, u * s1, w * s2, third);
    lemma_exchange(third, w, s1);
    lemma_exchange(third, w, s2);
    lemma_exchange(third, u, s1);
    lemma_exchange(third, u, s2);
    lemma_third(q, third, s0 + s1 + s2, y0);
    lemma_third(q, third, s0 + w * s1 + u * s2, y1);
    lemma_third(q, third, s0 + u * s1 + w * s2, y2);
}

proof fn lemma_exchange(a: int, b: int, y: int)
    ensures
        a * (b * y) == b * (a * y),
{
    assert(a * (b * y) == b * (a * y)) by (nonlinear_arith);
}

/// One node of two children, undone.
fn join2(
    v: &[u64; 648],
    out: &mut [u64; 648],
    q: u64,
    base: usize,
    m: usize,
    half: u64,
    zi: u64,
)
    requires
        2917 <= q <= 19441,
        half < q,
        zi < q,
        base + 2 * m <= 648,
        tree::reduced(v@, q),
    ensures
        forall|j: int|
            0 <= j < base || base + 2 * m <= j < 648 ==> (#[trigger] final(out)@[j]) == old(
                out,
            )@[j],
        forall|j: int|
            base <= j < base + m ==> (#[trigger] final(out)@[j]) < q && same(
                final(out)@[j] as int,
                half * (v@[j] + v@[j + m]),
                q as int,
            ),
        forall|j: int|
            base + m <= j < base + 2 * m ==> (#[trigger] final(out)@[j]) < q && same(
                final(out)@[j] as int,
                zi * (half * (v@[j - m] - v@[j])),
                q as int,
            ),
{
    let mut i: usize = 0;
    while i < m
        invariant
            i <= m,
            2917 <= q <= 19441,
            half < q,
            zi < q,
            base + 2 * m <= 648,
            tree::reduced(v@, q),
            forall|j: int|
                0 <= j < base || base + i <= j < base + m || base + m + i <= j < 648 ==> (
                #[trigger] out@[j]) == old(out)@[j],
            forall|j: int|
                base <= j < base + i ==> (#[trigger] out@[j]) < q && same(
                    out@[j] as int,
                    half * (v@[j] + v@[j + m]),
                    q as int,
                ),
            forall|j: int|
                base + m <= j < base + m + i ==> (#[trigger] out@[j]) < q && same(
                    out@[j] as int,
                    zi * (half * (v@[j - m] - v@[j])),
                    q as int,
                ),
        decreases m - i,
    {
        let y0: u64 = v[base + i];
        let y1: u64 = v[base + m + i];
        let s: u64 = (y0 + y1) % q;
        let d: u64 = (y0 + q - y1) % q;
        proof {
            tree::lemma_product(s, half);
            tree::lemma_product(d, half);
        }
        let e: u64 = d * half % q;
        proof {
            tree::lemma_product(e, zi);
        }
        out[base + i] = s * half % q;
        out[base + m + i] = e * zi % q;
        proof {
            let n = q as int;
            let (a, b) = (y0 as int, y1 as int);
            modular::lemma_reduced(a + b, n);
            modular::lemma_mul(s as int, half as int, a + b, half as int, n);
            modular::lemma_reduced(s * half, n);
            assert((a + b) * half == half * (a + b)) by (nonlinear_arith);
            modular::lemma_multiple(a - b, 1, n);
            modular::lemma_reduced(a + q - b, n);
            modular::lemma_mul(d as int, half as int, a - b, half as int, n);
            modular::lemma_reduced(d * half, n);
            modular::lemma_mul(e as int, zi as int, (a - b) * half, zi as int, n);
            modular::lemma_reduced(e * zi, n);
            assert((a - b) * half * zi == zi * (half * (a - b))) by (nonlinear_arith);
        }
        i += 1;
    }
}

/// The weighted means of three residues.
proof fn lemma_means(q: int, third: int, w: int, w2: int, y0: int, y1: int, y2: int)
    requires
        q > 0,
        same(w2, w * w, q),
    ensures
        same((y0 + y1 + y2) % q * third % q, third * (y0 + y1 + y2), q),
        same(
            (y0 + w2 * y1 + w * y2) % q * third % q,
            third * (y0 + w * w * y1 + w * y2),
            q,
        ),
        same(
            (y0 + w * y1 + w2 * y2) % q * third % q,
            third * (y0 + w * y1 + w * w * y2),
            q,
        ),
{
    lemma_scale(q, third, y0 + y1 + y2, y0 + y1 + y2);
    modular::lemma_mul(w2, y1, w * w, y1, q);
    modular::lemma_mul(w2, y2, w * w, y2, q);
    modular::lemma_add(y0, w2 * y1, y0, w * w * y1, q);
    modular::lemma_add(y0 + w2 * y1, w * y2, y0 + w * w * y1, w * y2, q);
    lemma_scale(q, third, y0 + w2 * y1 + w * y2, y0 + w * w * y1 + w * y2);
    modular::lemma_add(y0 + w * y1, w2 * y2, y0 + w * y1, w * w * y2, q);
    lemma_scale(q, third, y0 + w * y1 + w2 * y2, y0 + w * y1 + w * w * y2);
}

proof fn lemma_scale(q: int, third: int, x: int, y: int)
    requires
        q > 0,
        same(x, y, q),
    ensures
        same(x % q * third % q, third * y, q),
{
    modular::lemma_reduced(x, q);
    modular::lemma_mul(x % q, third, y, third, q);
    modular::lemma_reduced(x % q * third, q);
    assert(y * third == third * y) by (nonlinear_arith);
}

/// One node of three children, undone.
fn join3(
    v: &[u64; 648],
    out: &mut [u64; 648],
    q: u64,
    base: usize,
    m: usize,
    third: u64,
    zi: u64,
    w: u64,
)
    requires
        2917 <= q <= 19441,
        third < q,
        zi < q,
        w < q,
        base + 3 * m <= 648,
        tree::reduced(v@, q),
    ensures
        forall|j: int|
            0 <= j < base || base + 3 * m <= j < 648 ==> (#[trigger] final(out)@[j]) == old(
                out,
            )@[j],
        forall|j: int|
            base <= j < base + m ==> (#[trigger] final(out)@[j]) < q && same(
                final(out)@[j] as int,
                third * (v@[j] + v@[j + m] + v@[j + 2 * m]),
                q as int,
            ),
        forall|j: int|
            base + m <= j < base + 2 * m ==> (#[trigger] final(out)@[j]) < q && same(
                final(out)@[j] as int,
                zi * (third * (v@[j - m] + w * w * v@[j] + w * v@[j + m])),
                q as int,
            ),
        forall|j: int|
            base + 2 * m <= j < base + 3 * m ==> (#[trigger] final(out)@[j]) < q && same(
                final(out)@[j] as int,
                zi * zi * (third * (v@[j - 2 * m] + w * v@[j - m] + w * w * v@[j])),
                q as int,
            ),
{
    proof {
        tree::lemma_product(w, w);
        tree::lemma_product(zi, zi);
        modular::lemma_reduced(w * w, q as int);
        modular::lemma_reduced(zi * zi, q as int);
    }
    let w2: u64 = w * w % q;
    let zi2: u64 = zi * zi % q;
    let mut i: usize = 0;
    while i < m
        invariant
            i <= m,
            2917 <= q <= 19441,
            third < q,
            zi < q,
            w < q,
            w2 < q,
            zi2 < q,
            same(w2 as int, w * w, q as int),
            same(zi2 as int, zi * zi, q as int),
            base + 3 * m <= 648,
            tree::reduced(v@, q),
            forall|j: int|
                0 <= j < base || base + i <= j < base + m || base + m + i <= j < base + 2 * m
                    || base + 2 * m + i <= j < 648 ==> (#[trigger] out@[j]) == old(out)@[j],
            forall|j: int|
                base <= j < base + i ==> (#[trigger] out@[j]) < q && same(
                    out@[j] as int,
                    third * (v@[j] + v@[j + m] + v@[j + 2 * m]),
                    q as int,
                ),
            forall|j: int|
                base + m <= j < base + m + i ==> (#[trigger] out@[j]) < q && same(
                    out@[j] as int,
                    zi * (third * (v@[j - m] + w * w * v@[j] + w * v@[j + m])),
                    q as int,
                ),
            forall|j: int|
                base + 2 * m <= j < base + 2 * m + i ==> (#[trigger] out@[j]) < q && same(
                    out@[j] as int,
                    zi * zi * (third * (v@[j - 2 * m] + w * v@[j - m] + w * w * v@[j])),
                    q as int,
                ),
        decreases m - i,
    {
        let y0: u64 = v[base + i];
        let y1: u64 = v[base + m + i];
        let y2: u64 = v[base + 2 * m + i];
        proof {
            tree::lemma_product(w, y1);
            tree::lemma_product(w, y2);
            tree::lemma_product(w2, y1);
            tree::lemma_product(w2, y2);
        }
        let s0: u64 = (y0 + y1 + y2) % q;
        let s1: u64 = (y0 + w2 * y1 + w * y2) % q;
        let s2: u64 = (y0 + w * y1 + w2 * y2) % q;
        proof {
            tree::lemma_product(s0, third);
            tree::lemma_product(s1, third);
            tree::lemma_product(s2, third);
        }
        let t1: u64 = s1 * third % q;
        let t2: u64 = s2 * third % q;
        proof {
            tree::lemma_product(t1, zi);
            tree::lemma_product(t2, zi2);
            let n = q as int;
            lemma_means(
                n,
                third as int,
                w as int,
                w2 as int,
                y0 as int,
                y1 as int,
                y2 as int,
            );
            lemma_scale(
                n,
                zi as int,
                t1 as int,
                third * (y0 + w * w * y1 + w * y2),
            );
            lemma_square_scale(
                n,
                zi as int,
                zi2 as int,
                t2 as int,
                third * (y0 + w * y1 + w * w * y2),
            );
            lemma_small_mod(t1 as nat, q as nat);
            lemma_small_mod(t2 as nat, q as nat);
        }
        out[base + i] = s0 * third % q;
        out[base + m + i] = t1 * zi % q;
        out[base + 2 * m + i] = t2 * zi2 % q;
        i += 1;
    }
}

proof fn lemma_square_scale(q: int, z: int, z2: int, x: int, y: int)
    requires
        q > 0,
        same(x, y, q),
        same(z2, z * z, q),
    ensures
        same(x * z2 % q, z * z * y, q),
{
    modular::lemma_mul(x, z2, y, z * z, q);
    modular::lemma_reduced(x * z2, q);
    assert(y * (z * z) == z * z * y) by (nonlinear_arith);
}

/// The joined node splits into its children.
proof fn lemma_join2(
    t: Tree,
    v: Seq<u64>,
    out: Seq<u64>,
    g: int,
    k: int,
    half: int,
    zi: int,
)
    requires
        t.wf(),
        v.len() == 648,
        out.len() == 648,
        tree::size(t.split, g),
        g > 1,
        tree::radix(g) == 2,
        0 <= k < tree::nodes(t.split, g),
        same(2 * half, 1, t.q as int),
        same(t.root(g / 2, 2 * k) * zi, 1, t.q as int),
        tree::reduced(v, t.q),
        ({
            let m = g / 2 * tree::leaf(t.split);
            let base = k * (2 * m);
            &&& 0 <= base && base + 2 * m <= 648
            &&& forall|j: int|
                base <= j < base + m ==> (#[trigger] out[j]) < t.q && same(
                    out[j] as int,
                    half * (v[j] + v[j + m]),
                    t.q as int,
                )
            &&& forall|j: int|
                base + m <= j < base + 2 * m ==> (#[trigger] out[j]) < t.q && same(
                    out[j] as int,
                    zi * (half * (v[j - m] - v[j])),
                    t.q as int,
                )
        }),
    ensures
        ({
            let m = g / 2 * tree::leaf(t.split);
            forall|s: int|
                k * (2 * m) <= s < k * (2 * m) + 2 * m ==> same(
                    #[trigger] v[s] as int,
                    t.part(out, g, s),
                    t.q as int,
                )
        }),
{
    let q = t.q as int;
    let m = g / 2 * tree::leaf(t.split);
    let base = k * (2 * m);
    let z = t.root(g / 2, 2 * k);
    assert forall|s: int| base <= s < base + 2 * m implies same(
        #[trigger] v[s] as int,
        t.part(out, g, s),
        q,
    ) by {
        let j = if s < base + m {
            0int
        } else {
            1
        };
        assert(0 * m == 0 && 1 * m == m);
        let i = s - base - j * m;
        tree::lemma_position(k, 2, j, m, i);
        t.lemma_roots(g, k, j);
        let (b, y) = (base + i, t.root(g / 2, 2 * k + j));
        let (y0, y1) = (v[b] as int, v[b + m] as int);
        let (u0, u1) = (half * (y0 + y1), zi * (half * (y0 - y1)));
        lemma_unmix2(q, half, z, zi, y0, y1);
        let (x0, x1) = (out[b] as int, out[b + m] as int);
        assert(same(x0, u0, q) && same(x1, u1, q));
        modular::lemma_mul(z, x1, z, u1, q);
        if j == 0 {
            modular::lemma_add(x0, z * x1, u0, z * u1, q);
        } else {
            modular::lemma_sub(x0, z * x1, u0, z * u1, q);
            modular::lemma_mul(y, x1, -z, x1, q);
            assert(-z * x1 == -(z * x1)) by (nonlinear_arith);
            modular::lemma_add(x0, y * x1, x0, -(z * x1), q);
        }
    }
}

/// The joined node splits into its children.
proof fn lemma_join3(
    t: Tree,
    v: Seq<u64>,
    out: Seq<u64>,
    g: int,
    k: int,
    third: int,
    zi: int,
    w: int,
)
    requires
        t.wf(),
        v.len() == 648,
        out.len() == 648,
        tree::size(t.split, g),
        g > 1,
        tree::radix(g) == 3,
        0 <= k < tree::nodes(t.split, g),
        same(3 * third, 1, t.q as int),
        same(t.root(g / 3, 3 * k) * zi, 1, t.q as int),
        same(w, pow(t.psi as int, 648), t.q as int),
        tree::reduced(v, t.q),
        ({
            let m = g / 3 * tree::leaf(t.split);
            let base = k * (3 * m);
            &&& 0 <= base && base + 3 * m <= 648
            &&& forall|j: int|
                base <= j < base + m ==> (#[trigger] out[j]) < t.q && same(
                    out[j] as int,
                    third * (v[j] + v[j + m] + v[j + 2 * m]),
                    t.q as int,
                )
            &&& forall|j: int|
                base + m <= j < base + 2 * m ==> (#[trigger] out[j]) < t.q && same(
                    out[j] as int,
                    zi * (third * (v[j - m] + w * w * v[j] + w * v[j + m])),
                    t.q as int,
                )
            &&& forall|j: int|
                base + 2 * m <= j < base + 3 * m ==> (#[trigger] out[j]) < t.q && same(
                    out[j] as int,
                    zi * zi * (third * (v[j - 2 * m] + w * v[j - m] + w * w * v[j])),
                    t.q as int,
                )
        }),
    ensures
        ({
            let m = g / 3 * tree::leaf(t.split);
            forall|s: int|
                k * (3 * m) <= s < k * (3 * m) + 3 * m ==> same(
                    #[trigger] v[s] as int,
                    t.part(out, g, s),
                    t.q as int,
                )
        }),
{
    let q = t.q as int;
    let m = g / 3 * tree::leaf(t.split);
    let base = k * (3 * m);
    let (z, ww) = (t.root(g / 3, 3 * k), pow(t.psi as int, 648));
    modular::lemma_mul(w, w, ww, ww, q);
    modular::lemma_add(w * w, w, ww * ww, ww, q);
    modular::lemma_add(w * w + w, 1, ww * ww + ww, 1, q);
    assert forall|s: int| base <= s < base + 3 * m implies same(
        #[trigger] v[s] as int,
        t.part(out, g, s),
        q,
    ) by {
        let j = if s < base + m {
            0int
        } else if s < base + 2 * m {
            1
        } else {
            2
        };
        assert(0 * m == 0 && 1 * m == m);
        let i = s - base - j * m;
        tree::lemma_position(k, 3, j, m, i);
        t.lemma_roots(g, k, j);
        let (b, y) = (base + i, t.root(g / 3, 3 * k + j));
        let (y0, y1, y2) = (v[b] as int, v[b + m] as int, v[b + 2 * m] as int);
        let (a, d, c) = (
            third * (y0 + y1 + y2),
            third * (y0 + w * w * y1 + w * y2),
            third * (y0 + w * y1 + w * w * y2),
        );
        lemma_unmix3(q, third, w, y0, y1, y2);
        let (x0, x1, x2) = (out[b] as int, out[b + m] as int, out[b + 2 * m] as int);
        assert(same(x0, a, q) && same(x1, zi * d, q) && same(x2, zi * zi * c, q));
        // z x1 = d and z^2 x2 = c
        modular::lemma_mul(z, x1, z, zi * d, q);
        modular::lemma_mul(z * zi, d, 1, d, q);
        assert(z * (zi * d) == z * zi * d) by (nonlinear_arith);
        modular::lemma_mul(z * zi, z * zi, 1, 1, q);
        modular::lemma_mul(z * zi * (z * zi), c, 1, c, q);
        modular::lemma_mul(z * z, x2, z * z, zi * zi * c, q);
        assert(z * z * (zi * zi * c) == z * zi * (z * zi) * c) by (nonlinear_arith);
        assert(1 * d == d && 1 * c == c);
        assert(same(z * x1, d, q) && same(z * z * x2, c, q));
        tree::lemma_weights(q, z, w, z, ww, x1, x2);
        modular::lemma_mul(w, z * x1, w, d, q);
        modular::lemma_mul(w * w, z * x1, w * w, d, q);
        modular::lemma_mul(w, z * z * x2, w, c, q);
        modular::lemma_mul(w * w, z * z * x2, w * w, c, q);
        if j == 0 {
            modular::lemma_add(x0, z * x1, a, d, q);
            modular::lemma_add(x0 + z * x1, z * z * x2, a + d, c, q);
        } else if j == 1 {
            assert(y * x1 == ww * (z * x1)) by (nonlinear_arith)
                requires
                    y == z * ww,
            ;
            assert(y * y * x2 == ww * ww * (z * z * x2)) by (nonlinear_arith)
                requires
                    y == z * ww,
            ;
            modular::lemma_add(x0, y * x1, a, w * d, q);
            modular::lemma_add(x0 + y * x1, y * y * x2, a + w * d, w * w * c, q);
        } else {
            assert(y * x1 == ww * ww * (z * x1)) by (nonlinear_arith)
                requires
                    y == z * (ww * ww),
            ;
            assert(y * y * x2 == ww * ww * ww * (ww * (z * z * x2))) by (nonlinear_arith)
                requires
                    y == z * (ww * ww),
            ;
            tree::lemma_cube(t);
            let e = ww * (z * z * x2);
            modular::lemma_mul(ww * ww * ww, e, 1, e, q);
            assert(1 * e == e);
            modular::lemma_add(x0, y * x1, a, w * w * d, q);
            modular::lemma_add(x0 + y * x1, y * y * x2, a + w * w * d, w * c, q);
        }
    }
}

/// One level up: nodes of size `g` whose children are `v`.
#[verifier::rlimit(60)]
fn ascend(t: &Tree, v: &[u64; 648], g: u64) -> (out: [u64; 648])
    requires
        t.wf(),
        tree::size(t.split, g as int),
        g > 1,
        tree::reduced(v@, t.q),
    ensures
        tree::reduced(out@, t.q),
        t.down(out@, v@, g as int),
{
    let q: u64 = t.q;
    let p: u64 = if g % 2 == 0 {
        2
    } else {
        3
    };
    let h: u64 = g / p;
    let l: u64 = if t.split {
        1
    } else {
        2
    };
    let m: usize = (h * l) as usize;
    let n: usize = p as usize * m;
    let half: u64 = (q + 1) / 2;
    let third: u64 = (2 * q + 1) / 3;
    proof {
        tree::lemma_level(t.split, g as int);
        modular::lemma_reduced(pow(t.psi as int, 648), q as int);
        modular::lemma_multiple(1, 1, q as int);
        modular::lemma_multiple(1, 2, q as int);
        assert(2 * half == 1 + 1 * q);
        assert(3 * third == 1 + 2 * q);
    }
    let count: u64 = 648 / (g * l);
    let w: u64 = modular::pow_mod(t.psi, 648, q);
    let mut out: [u64; 648] = [0;648];
    let mut k: u64 = 0;
    let mut base: usize = 0;
    assert(count == tree::nodes(t.split, g as int)) by {
        let (a, b) = (tree::nodes(t.split, g as int), (g * l) as int);
        lemma_fundamental_div_mod_converse(648, b, a, 0);
    }
    while k < count
        invariant
            t.wf(),
            tree::size(t.split, g as int),
            g > 1,
            tree::reduced(v@, t.q),
            q == t.q,
            p == tree::radix(g as int),
            h == g as int / p as int,
            l == tree::leaf(t.split),
            m == h * l,
            n == p * m,
            half < q,
            third < q,
            same(2 * half, 1, q as int),
            same(3 * third, 1, q as int),
            w < q,
            same(w as int, pow(t.psi as int, 648), q as int),
            count == tree::nodes(t.split, g as int),
            count * n == 648,
            k <= count,
            base == k * n,
            forall|s: int| 0 <= s < base ==> (#[trigger] out@[s]) < q,
            forall|s: int|
                0 <= s < base ==> same(
                    #[trigger] v@[s] as int,
                    t.part(out@, g as int, s),
                    q as int,
                ),
        decreases count - k,
    {
        let ghost before = out@;
        proof {
            tree::lemma_span(k as int, count as int, n as int);
            tree::lemma_place_bound(t.split, g as int, k as int);
            t.lemma_roots(g as int, k as int, 0);
        }
        let r: u64 = tree::place_of(t.split, g, k);
        proof {
            assert(h * r <= g * r) by (nonlinear_arith)
                requires
                    0 <= h <= g,
                    0 <= r,
            ;
            assert(k * p == p * k) by (nonlinear_arith);
            lemma_inverse_root(*t, (h * r) as nat);
        }
        let zi: u64 = modular::pow_mod(t.psi, 1944 - h * r, q);
        proof {
            let e = (1944 - h * r) as nat;
            modular::lemma_reduced(pow(t.psi as int, e), q as int);
            let z = pow(t.psi as int, (h * r) as nat);
            modular::lemma_mul(z, zi as int, z, pow(t.psi as int, e), q as int);
        }
        if p == 2 {
            join2(v, &mut out, q, base, m, half, zi);
            proof {
                lemma_join2(*t, v@, out@, g as int, k as int, half as int, zi as int);
            }
        } else {
            join3(v, &mut out, q, base, m, third, zi, w);
            proof {
                lemma_join3(*t, v@, out@, g as int, k as int, third as int, zi as int, w as int);
            }
        }
        proof {
            assert forall|s: int| 0 <= s < base + n implies (#[trigger] out@[s]) < q by {
                if s < base {
                    assert(out@[s] == before[s]);
                }
            }
            assert forall|s: int| 0 <= s < base + n implies same(
                #[trigger] v@[s] as int,
                t.part(out@, g as int, s),
                q as int,
            ) by {
                if s < base {
                    lemma_part_same(*t, before, out@, g as int, s, k as int);
                }
            }
        }
        base = base + n;
        k += 1;
    }
    out
}

/// `psi^e psi^(1944 - e) = 1`.
pub proof fn lemma_inverse_root(t: Tree, e: nat)
    requires
        t.wf(),
        e <= 1944,
    ensures
        same(pow(t.psi as int, e) * pow(t.psi as int, (1944 - e) as nat), 1, t.q as int),
{
    lemma_pow_adds(t.psi as int, e, (1944 - e) as nat);
    if t.split {
        modular::lemma_order(t.psi as int, 1944, 1, t.q as int);
    } else {
        modular::lemma_order(t.psi as int, 972, 2, t.q as int);
    }
}

/// The children of the nodes before node `k` depend on those nodes alone.
proof fn lemma_part_same(t: Tree, x: Seq<u64>, y: Seq<u64>, g: int, s: int, k: int)
    requires
        tree::size(t.split, g),
        g > 1,
        0 <= k,
        ({
            let n = tree::radix(g) * (g / tree::radix(g) * tree::leaf(t.split));
            0 <= s < k * n && forall|j: int| 0 <= j < k * n ==> x[j] == y[j]
        }),
    ensures
        t.part(x, g, s) == t.part(y, g, s),
{
    tree::lemma_level(t.split, g);
    let p = tree::radix(g);
    let m = g / p * tree::leaf(t.split);
    let n = p * m;
    let (c, i) = (s / m, s % m);
    let kk = c / p;
    lemma_fundamental_div_mod(s, m);
    lemma_mod_bound(s, m);
    lemma_div_pos_is_pos(s, m);
    lemma_fundamental_div_mod(c, p);
    lemma_mod_bound(c, p);
    lemma_div_pos_is_pos(c, p);
    let j = c % p;
    assert(s == kk * n + j * m + i) by (nonlinear_arith)
        requires
            s == m * c + i,
            c == p * kk + j,
            n == p * m,
    ;
    assert(0 <= j * m) by (nonlinear_arith)
        requires
            0 <= j,
            0 <= m,
    ;
    assert(kk < k) by (nonlinear_arith)
        requires
            kk * n <= s,
            s < k * n,
            n > 0,
    ;
    assert(0 <= kk * n && kk * n + n <= k * n) by (nonlinear_arith)
        requires
            0 <= kk,
            kk + 1 <= k,
            n > 0,
    ;
    assert(n == p * m);
    assert(p == 2 ==> n == 2 * m);
    assert(p == 3 ==> n == 3 * m);
}

/// The sizes of the levels, from the leaves up.
spec fn sizes(i: nat) -> int
    decreases i,
{
    if i == 0 {
        1
    } else {
        tree::parent(sizes((i - 1) as nat))
    }
}

/// The levels `hist`, from the leaves up, are each the split of the next.
spec fn stacked(t: Tree, hist: Seq<Seq<u64>>) -> bool {
    &&& forall|i: int| 0 <= i < hist.len() ==> (#[trigger] hist[i]).len() == 648
    &&& forall|i: int|
        0 < i < hist.len() ==> t.down(#[trigger] hist[i], hist[i - 1], sizes(i as nat))
    &&& forall|i: int|
        0 <= i < hist.len() ==> tree::size(t.split, #[trigger] sizes(i as nat)) && (i > 0
            ==> sizes(i as nat) > 1)
}

/// What holds at the top of the stack holds at every level.
proof fn lemma_stack(t: Tree, hist: Seq<Seq<u64>>, a: Seq<int>, i: nat)
    requires
        t.wf(),
        stacked(t, hist),
        i < hist.len(),
        t.holds(hist.last(), a, sizes((hist.len() - 1) as nat)),
    ensures
        t.holds(hist[i as int], a, sizes(i)),
    decreases hist.len() - i,
{
    if i + 1 < hist.len() {
        lemma_stack(t, hist, a, i + 1);
        let j = (i + 1) as int;
        assert(t.down(hist[j], hist[j - 1], sizes(j as nat)));
        assert(tree::size(t.split, sizes(j as nat)) && sizes(j as nat) > 1);
        assert(hist[j].len() == 648);
        tree::lemma_down(t, hist[j], hist[j - 1], a, sizes(j as nat));
        lemma_sizes(t.split, i);
    }
}

proof fn lemma_sizes(split: bool, i: nat)
    requires
        tree::size(split, sizes(i)),
        tree::size(split, sizes(i + 1)),
    ensures
        sizes(i + 1) / tree::radix(sizes(i + 1)) == sizes(i),
{
    let g = sizes(i);
    assert(sizes(i + 1) == tree::parent(g));
    assert(324int / 2 == 162 && 162int / 2 == 81 && 81int / 3 == 27 && 27int / 3 == 9);
    assert(9int / 3 == 3 && 3int / 3 == 1);
}

/// The split of `X^648 - X^324 + 1`, undone.
fn join_top(t: &Tree, v: &[u64; 648]) -> (out: [u32; 648])
    requires
        t.wf(),
        tree::reduced(v@, t.q),
    ensures
        forall|i: int| 0 <= i < 648 ==> (#[trigger] out@[i]) < t.q,
        t.holds(v@, poly::ints(out@), tree::top(t.split)),
{
    let q: u64 = t.q;
    let g: u64 = if t.split {
        324
    } else {
        162
    };
    let z: u64 = modular::pow_mod(t.psi, g, q);
    let third: u64 = (2 * q + 1) / 3;
    let b: u64 = (2 * z + q - 1) % q;
    proof {
        tree::lemma_product(b, third);
    }
    let c: u64 = b * third % q;
    let det: u64 = (q - c) % q;
    let ghost zz = pow(t.psi as int, g as nat);
    proof {
        let n = q as int;
        tree::lemma_top(*t);
        modular::lemma_reduced(zz, n);
        lemma_det(n, z as int, zz, third as int, b as int, c as int, det as int);
    }
    let mut out: [u32; 648] = [0;648];
    let mut i: usize = 0;
    while i < 324
        invariant
            i <= 324,
            t.wf(),
            q == t.q,
            tree::reduced(v@, q),
            z < q,
            det < q,
            zz == pow(t.psi as int, tree::top(t.split) as nat),
            same(z as int, zz, q as int),
            same((2 * zz - 1) * det, 1, q as int),
            forall|j: int| 0 <= j < 648 ==> (#[trigger] out@[j]) < q,
            forall|j: int|
                0 <= j < i ==> same(v@[j] as int, #[trigger] out@[j] + zz * out@[j + 324], q as int),
            forall|j: int|
                0 <= j < i ==> same(
                    v@[j + 324] as int,
                    #[trigger] out@[j] + (1 - zz) * out@[j + 324],
                    q as int,
                ),
        decreases 324 - i,
    {
        let y0: u64 = v[i];
        let y1: u64 = v[i + 324];
        let d: u64 = (y0 + q - y1) % q;
        proof {
            tree::lemma_product(d, det);
        }
        let a1: u64 = d * det % q;
        proof {
            tree::lemma_product(z, a1);
        }
        let a0: u64 = (y0 + q - z * a1 % q) % q;
        proof {
            lemma_pair(
                q as int,
                z as int,
                zz,
                det as int,
                y0 as int,
                y1 as int,
                d as int,
                a1 as int,
                a0 as int,
            );
        }
        out[i] = a0 as u32;
        out[i + 324] = a1 as u32;
        i += 1;
    }
    proof {
        let s = poly::ints(out@);
        let r = t.root(tree::top(t.split), 1);
        tree::lemma_top(*t);
        assert forall|j: int| 0 <= j < 648 implies (#[trigger] v@[j]) < t.q && same(
            v@[j] as int,
            poly::strided(s, j % 324, 324, t.root(tree::top(t.split), j / 324)),
            q as int,
        ) by {
            let i = j % 324;
            let a1 = out@[i + 324] as int;
            tree::lemma_two(s, i, zz);
            tree::lemma_two(s, i, r);
            assert(out@[i] < q);
            modular::lemma_mul(r, a1, 1 - zz, a1, q as int);
            modular::lemma_add(out@[i] as int, r * a1, out@[i] as int, (1 - zz) * a1, q as int);
        }
    }
    out
}

proof fn lemma_det(q: int, z: int, zz: int, third: int, b: int, c: int, det: int)
    requires
        q > 3,
        q % 3 == 1,
        third == (2 * q + 1) / 3,
        same(z, zz, q),
        same(zz * zz - zz + 1, 0, q),
        b == (2 * z + q - 1) % q,
        c == b * third % q,
        det == (q - c) % q,
    ensures
        same((2 * zz - 1) * det, 1, q),
{
    let e = 2 * zz - 1;
    modular::lemma_mul(2, z, 2, zz, q);
    modular::lemma_sub(2 * z, 1, 2 * zz, 1, q);
    modular::lemma_multiple(2 * z - 1, 1, q);
    modular::lemma_reduced(2 * z + q - 1, q);
    assert(same(b, e, q));
    modular::lemma_mul(b, third, e, third, q);
    modular::lemma_reduced(b * third, q);
    modular::lemma_sub(0, c, 0, e * third, q);
    modular::lemma_multiple(-c, 1, q);
    modular::lemma_reduced(q - c, q);
    assert(same(det, -(e * third), q));
    modular::lemma_mul(e, det, e, -(e * third), q);
    let p = zz * zz - zz + 1;
    assert(e * -(e * third) == third * (3 - 4 * p)) by (nonlinear_arith)
        requires
            e == 2 * zz - 1,
            p == zz * zz - zz + 1,
    ;
    modular::lemma_mul(4, p, 4, 0, q);
    modular::lemma_sub(3, 4 * p, 3, 0, q);
    modular::lemma_mul(third, 3 - 4 * p, third, 3, q);
    assert(third * 3 == 1 + 2 * q);
    modular::lemma_multiple(1, 2, q);
}

proof fn lemma_pair(
    q: int,
    z: int,
    zz: int,
    det: int,
    y0: int,
    y1: int,
    d: int,
    a1: int,
    a0: int,
)
    requires
        q > 0,
        same(z, zz, q),
        same((2 * zz - 1) * det, 1, q),
        d == (y0 + q - y1) % q,
        a1 == d * det % q,
        a0 == (y0 + q - z * a1 % q) % q,
    ensures
        same(y0, a0 + zz * a1, q),
        same(y1, a0 + (1 - zz) * a1, q),
{
    let e = 2 * zz - 1;
    modular::lemma_multiple(y0 - y1, 1, q);
    modular::lemma_reduced(y0 + q - y1, q);
    assert(same(d, y0 - y1, q));
    modular::lemma_mul(d, det, y0 - y1, det, q);
    modular::lemma_reduced(d * det, q);
    modular::lemma_mul(e, a1, e, (y0 - y1) * det, q);
    assert(e * ((y0 - y1) * det) == e * det * (y0 - y1)) by (nonlinear_arith);
    modular::lemma_mul(e * det, y0 - y1, 1, y0 - y1, q);
    assert(1 * (y0 - y1) == y0 - y1);
    assert(same(e * a1, y0 - y1, q));
    modular::lemma_mul(z, a1, zz, a1, q);
    modular::lemma_reduced(z * a1, q);
    modular::lemma_sub(y0, z * a1 % q, y0, zz * a1, q);
    modular::lemma_multiple(y0 - z * a1 % q, 1, q);
    modular::lemma_reduced(y0 + q - z * a1 % q, q);
    assert(same(a0, y0 - zz * a1, q));
    modular::lemma_add(a0, zz * a1, y0 - zz * a1, zz * a1, q);
    modular::lemma_add(a0, (1 - zz) * a1, y0 - zz * a1, (1 - zz) * a1, q);
    assert(y0 - zz * a1 + (1 - zz) * a1 == y0 - e * a1) by (nonlinear_arith)
        requires
            e == 2 * zz - 1,
    ;
    modular::lemma_sub(y0, e * a1, y0, y0 - y1, q);
}

/// The inverse transform: the polynomial whose residues modulo the leaves are `v`.
pub fn backward(t: &Tree, v: &[u64; 648]) -> (out: [u32; 648])
    requires
        t.wf(),
        tree::reduced(v@, t.q),
    ensures
        forall|i: int| 0 <= i < 648 ==> (#[trigger] out@[i]) < t.q,
        t.holds(v@, poly::ints(out@), 1),
{
    let last: u64 = if t.split {
        324
    } else {
        162
    };
    let mut u: [u64; 648] = *v;
    let mut g: u64 = 1;
    let ghost mut hist: Seq<Seq<u64>> = seq![v@];
    while g < last
        invariant
            t.wf(),
            last == tree::top(t.split),
            g <= last,
            tree::size(t.split, g as int),
            tree::reduced(u@, t.q),
            hist.len() >= 1,
            hist[0] == v@,
            hist.last() == u@,
            g == sizes((hist.len() - 1) as nat),
            stacked(*t, hist),
        decreases last - g,
    {
        let up: u64 = if g >= 81 {
            2 * g
        } else {
            3 * g
        };
        proof {
            assert(sizes(hist.len()) == up) by {
                reveal_with_fuel(sizes, 2);
            }
        }
        let x = ascend(t, &u, up);
        proof {
            let next = hist.push(x@);
            assert forall|i: int| 0 <= i < next.len() implies tree::size(
                t.split,
                #[trigger] sizes(i as nat),
            ) && (i > 0 ==> sizes(i as nat) > 1) by {
                if i < hist.len() {
                    assert(tree::size(t.split, sizes(i as nat)));
                }
            }
            assert forall|i: int| 0 < i < next.len() implies t.down(
                #[trigger] next[i],
                next[i - 1],
                sizes(i as nat),
            ) by {
                if i < hist.len() {
                    assert(t.down(hist[i], hist[i - 1], sizes(i as nat)));
                }
            }
            hist = next;
        }
        u = x;
        g = up;
    }
    let out = join_top(t, &u);
    proof {
        lemma_stack(*t, hist, poly::ints(out@), 0);
    }
    out
}

} // verus!
