//! The levels of the forward transforms on lanes: Montgomery products and sums, with a reduction only
//! where a schedule puts one.
use super::lane;
use super::lane::{abs, paired, product_bound, settles, stands_for, Twiddle};
use super::schedule::larger;
use crate::modular;
use crate::modular::same;
use crate::ntt::tree;
use crate::ntt::tree::Tree;
use crate::params;
use crate::recursion::chunk;
use vstd::arithmetic::div_mod::*;
use vstd::arithmetic::power::*;
use vstd::prelude::*;

verus! {

/// Every lane has magnitude at most `b`.
pub open spec fn within(v: Seq<i16>, b: int) -> bool {
    forall|j: int| 0 <= j < v.len() ==> abs(#[trigger] v[j] as int) <= b
}

/// The residues of 648 lanes.
pub open spec fn residues(v: Seq<i16>, q: u64) -> Seq<u64> {
    Seq::new(648, |j: int| (v[j] as int % q as int) as u64)
}

pub(crate) proof fn lemma_residue(v: Seq<i16>, q: u64, j: int)
    requires
        q > 0,
        0 <= j < 648,
    ensures
        residues(v, q)[j] < q,
        same(residues(v, q)[j] as int, v[j] as int, q as int),
{
    modular::lemma_reduced(v[j] as int, q as int);
}

/// The reductions of a radix-3 butterfly: of the untwiddled input, of the two twiddle products, and
/// of the product by the cube root of unity.
#[derive(Clone, Copy, Debug)]
pub struct Sites {
    pub a: u8,
    pub t: u8,
    pub u: u8,
}

/// The prime has the reduction.
pub open spec fn offered(k: u8, q: u16) -> bool {
    k == 2 ==> q == 9721 || q == 17497 || q == 19441
}

impl Sites {
    pub open spec fn offered(&self, q: u16) -> bool {
        offered(self.a, q) && offered(self.t, q) && offered(self.u, q)
    }

    /// The sites take an input of magnitude `b` to `r.0`, products of magnitude `p` to `r.1` and the
    /// product by the cube root to `r.2`. The sums stay in a lane where `r.3` bounds the magnitudes of
    /// the two products together.
    pub open spec fn keeps(&self, q: int, b: int, p: int, r: (int, int, int, int)) -> bool {
        &&& settles(self.a, b, r.0, q)
        &&& settles(self.t, p, r.1, q)
        &&& settles(self.u, product_bound(2 * r.1, q), r.2, q)
        &&& 0 <= r.0
        &&& 0 <= 2 * r.1 <= 32767
        &&& summed(r) <= 32767
    }
}

/// The largest sum of a butterfly.
pub open spec fn summed(r: (int, int, int, int)) -> int {
    r.0 + larger(r.3, r.1 + r.2)
}

/// Products of lanes are lanes.
pub(crate) proof fn lemma_product_fits(a: int, b: int, q: u16)
    requires
        params::limb_prime(q),
        0 <= a <= b <= 32768,
    ensures
        0 <= product_bound(a, q as int) <= product_bound(b, q as int) <= 32767,
{
    lane::product_bound_monotone(a, b, q as int);
    lane::product_bound_monotone(b, 32768, q as int);
    assert(0 <= a * q) by (nonlinear_arith)
        requires
            0 <= a,
    ;
    assert(32768 * q / 131072 == q as int / 4);
}

/// A lane of magnitude `b` through a site.
fn through(a: i16, q: u16, k: u8, Ghost(b): Ghost<int>, Ghost(r): Ghost<int>) -> (x: i16)
    requires
        params::limb_prime(q),
        offered(k, q),
        settles(k, b, r, q as int),
        abs(a as int) <= b,
    ensures
        abs(x as int) <= r,
        same(x as int, a as int, q as int),
        k == 0 ==> x == a,
{
    proof {
        reveal(settles);
    }
    lane::reduce(a, q, k)
}

/// A lane of magnitude `b` times the multiplier `z`.
fn times(a: i16, w: &Twiddle, q: u16, Ghost(z): Ghost<int>, Ghost(b): Ghost<int>) -> (r: i16)
    requires
        params::limb_prime(q),
        paired(*w, q as int),
        stands_for(*w, z, q as int),
        abs(a as int) <= b <= 32768,
    ensures
        abs(r as int) <= product_bound(b, q as int),
        same(r as int, a * z, q as int),
{
    proof {
        lemma_product_fits(abs(a as int), b, q);
    }
    lane::mont(a, w, q)
}

/// The arithmetic of a butterfly whose twiddles are applied.
proof fn lemma_rotated(q: int, w: int, a0: int, t1: int, t2: int, b: int, x1: int, x2: int, u: int)
    requires
        q > 0,
        same(w * w + w + 1, 0, q),
        same(b, a0, q),
        same(x1, t1, q),
        same(x2, t2, q),
        same(u, (x1 - x2) * w, q),
    ensures
        same(b + x1 + x2, a0 + t1 + t2, q),
        same(b - x2 + u, a0 + w * t1 + w * w * t2, q),
        same(b - x1 - u, a0 + w * w * t1 + w * t2, q),
{
    modular::lemma_add(b, x1, a0, t1, q);
    modular::lemma_add(b + x1, x2, a0 + t1, t2, q);
    modular::lemma_sub(x1, x2, t1, t2, q);
    modular::lemma_mul(x1 - x2, w, t1 - t2, w, q);
    modular::lemma_sub(b, x2, a0, t2, q);
    modular::lemma_add(b - x2, u, a0 - t2, (t1 - t2) * w, q);
    modular::lemma_sub(b, x1, a0, t1, q);
    modular::lemma_sub(b - x1, u, a0 - t1, (t1 - t2) * w, q);
    let (s1, s2) = (a0 - t2 + (t1 - t2) * w, a0 - t1 - (t1 - t2) * w);
    let e = w * w + w + 1;
    assert(s1 + e * t2 == a0 + w * t1 + w * w * t2) by (nonlinear_arith)
        requires
            s1 == a0 - t2 + (t1 - t2) * w,
            e == w * w + w + 1,
    ;
    assert(s2 + e * t1 == a0 + w * w * t1 + w * t2) by (nonlinear_arith)
        requires
            s2 == a0 - t1 - (t1 - t2) * w,
            e == w * w + w + 1,
    ;
    modular::lemma_mul(e, t1, 0, t1, q);
    modular::lemma_mul(e, t2, 0, t2, q);
    assert(0 * t1 == 0 && 0 * t2 == 0);
    modular::lemma_add(s1, e * t2, s1, 0, q);
    modular::lemma_add(s2, e * t1, s2, 0, q);
}

/// A radix-3 butterfly whose twiddles are applied: the values of `a0 + t1 X + t2 X^2` at the cube
/// roots of unity.
#[verifier::spinoff_prover]
#[verifier::rlimit(30)]
pub(crate) fn butterfly(
    q: u16,
    om: &Twiddle,
    a0: i16,
    t1: i16,
    t2: i16,
    s: Sites,
    Ghost(w): Ghost<int>,
    Ghost(b): Ghost<(int, int)>,
    Ghost(r): Ghost<(int, int, int, int)>,
) -> (o: (i16, i16, i16))
    requires
        params::limb_prime(q),
        paired(*om, q as int),
        stands_for(*om, w, q as int),
        same(w * w + w + 1, 0, q as int),
        s.offered(q),
        s.keeps(q as int, b.0, b.1, r),
        abs(a0 as int) <= b.0,
        abs(t1 as int) <= b.1,
        abs(t2 as int) <= b.1,
        2 * r.1 <= r.3 || (s.t == 0 && abs(t1 as int) + abs(t2 as int) <= r.3),
    ensures
        same(o.0 as int, a0 + t1 + t2, q as int),
        same(o.1 as int, a0 + w * t1 + w * w * t2, q as int),
        same(o.2 as int, a0 + w * w * t1 + w * t2, q as int),
        abs(o.0 as int) <= summed(r),
        abs(o.1 as int) <= summed(r),
        abs(o.2 as int) <= summed(r),
{
    let x1: i16 = through(t1, q, s.t, Ghost(b.1), Ghost(r.1));
    let x2: i16 = through(t2, q, s.t, Ghost(b.1), Ghost(r.1));
    let d: i16 = x1 - x2;
    let p: i16 = times(d, om, q, Ghost(w), Ghost(2 * r.1));
    let u: i16 = through(p, q, s.u, Ghost(product_bound(2 * r.1, q as int)), Ghost(r.2));
    let b0: i16 = through(a0, q, s.a, Ghost(b.0), Ghost(r.0));
    proof {
        assert(same(p as int, d * w, q as int));
        assert(same(u as int, (x1 - x2) * w, q as int));
        lemma_rotated(
            q as int,
            w,
            a0 as int,
            t1 as int,
            t2 as int,
            b0 as int,
            x1 as int,
            x2 as int,
            u as int,
        );
    }
    (b0 + (x1 + x2), b0 - x2 + u, b0 - x1 - u)
}

/// From lanes to residues.
proof fn lemma_three(
    q: int,
    z: int,
    w: int,
    a: (int, int, int),
    t: (int, int),
    x: (int, int, int),
    o: (int, int, int),
)
    requires
        q > 0,
        same(a.0, x.0, q),
        same(a.1, x.1, q),
        same(a.2, x.2, q),
        same(t.0, a.1 * z, q),
        same(t.1, a.2 * (z * z), q),
        same(o.0, a.0 + t.0 + t.1, q),
        same(o.1, a.0 + w * t.0 + w * w * t.1, q),
        same(o.2, a.0 + w * w * t.0 + w * t.1, q),
    ensures
        same(o.0, x.0 + z * x.1 + z * z * x.2, q),
        same(o.1, x.0 + w * (z * x.1) + w * w * (z * z * x.2), q),
        same(o.2, x.0 + w * w * (z * x.1) + w * (z * z * x.2), q),
{
    let (u1, u2) = (z * x.1, z * z * x.2);
    modular::lemma_mul(a.1, z, x.1, z, q);
    assert(x.1 * z == u1) by (nonlinear_arith)
        requires
            u1 == z * x.1,
    ;
    modular::lemma_mul(a.2, z * z, x.2, z * z, q);
    assert(x.2 * (z * z) == u2) by (nonlinear_arith)
        requires
            u2 == z * z * x.2,
    ;
    lemma_folded(q, z, w, (a.0, t.0, t.1), x, o);
}

/// From lanes whose twiddles are applied to residues.
pub(crate) proof fn lemma_folded(
    q: int,
    z: int,
    w: int,
    t: (int, int, int),
    x: (int, int, int),
    o: (int, int, int),
)
    requires
        q > 0,
        same(t.0, x.0, q),
        same(t.1, z * x.1, q),
        same(t.2, z * z * x.2, q),
        same(o.0, t.0 + t.1 + t.2, q),
        same(o.1, t.0 + w * t.1 + w * w * t.2, q),
        same(o.2, t.0 + w * w * t.1 + w * t.2, q),
    ensures
        same(o.0, x.0 + z * x.1 + z * z * x.2, q),
        same(o.1, x.0 + w * (z * x.1) + w * w * (z * z * x.2), q),
        same(o.2, x.0 + w * w * (z * x.1) + w * (z * z * x.2), q),
{
    let (u1, u2) = (z * x.1, z * z * x.2);
    modular::lemma_add(t.0, t.1, x.0, u1, q);
    modular::lemma_add(t.0 + t.1, t.2, x.0 + u1, u2, q);
    modular::lemma_mul(w, t.1, w, u1, q);
    modular::lemma_mul(w * w, t.2, w * w, u2, q);
    modular::lemma_add(t.0, w * t.1, x.0, w * u1, q);
    modular::lemma_add(t.0 + w * t.1, w * w * t.2, x.0 + w * u1, w * w * u2, q);
    modular::lemma_mul(w * w, t.1, w * w, u1, q);
    modular::lemma_mul(w, t.2, w, u2, q);
    modular::lemma_add(t.0, w * w * t.1, x.0, w * w * u1, q);
    modular::lemma_add(t.0 + w * w * t.1, w * t.2, x.0 + w * w * u1, w * u2, q);
}

/// The twiddles of a node: of `y`, of `y^2` and of the cube root of unity.
#[derive(Clone, Copy)]
pub(crate) struct Twiddles {
    pub y: Twiddle,
    pub y2: Twiddle,
    pub om: Twiddle,
}

impl Twiddles {
    pub(crate) open spec fn wf(&self, q: int, z: int, w: int) -> bool {
        &&& paired(self.y, q)
        &&& paired(self.y2, q)
        &&& paired(self.om, q)
        &&& stands_for(self.y, z, q)
        &&& stands_for(self.y2, z * z, q)
        &&& stands_for(self.om, w, q)
        &&& same(w * w + w + 1, 0, q)
    }
}

/// The magnitudes of the multipliers of a node's two products, together.
pub(crate) open spec fn weight(tw: Twiddles) -> int {
    abs(tw.y.w as int) + abs(tw.y2.w as int)
}

/// The two products of lanes of magnitude `b` have magnitudes of at most `r.3` together: each has at
/// most half of it, or the multipliers have a magnitude of at most `c` together.
pub open spec fn spread(q: int, k: u8, b: int, c: int, r: (int, int, int, int)) -> bool {
    2 * r.1 <= r.3 || (k == 0 && b * c / 65536 + q <= r.3)
}

/// Two products together.
proof fn lemma_together(q: int, b: int, a: (int, int), w: (int, int), t: (int, int))
    requires
        abs(a.0) <= b,
        abs(a.1) <= b,
        65536 * abs(t.0) <= abs(a.0) * abs(w.0) + 32768 * q,
        65536 * abs(t.1) <= abs(a.1) * abs(w.1) + 32768 * q,
    ensures
        abs(t.0) + abs(t.1) <= b * (abs(w.0) + abs(w.1)) / 65536 + q,
{
    let (x, y) = (abs(w.0), abs(w.1));
    assert(abs(a.0) * x <= b * x && abs(a.1) * y <= b * y) by (nonlinear_arith)
        requires
            abs(a.0) <= b,
            abs(a.1) <= b,
            x >= 0,
            y >= 0,
    ;
    assert(b * (x + y) == b * x + b * y) by (nonlinear_arith);
}

/// The values of `a0 + a1 X + a2 X^2` at the children of a node, where `x` are congruent to the
/// coefficients.
#[verifier::spinoff_prover]
#[verifier::rlimit(30)]
fn values_of(
    q: u16,
    tw: &Twiddles,
    a0: i16,
    a1: i16,
    a2: i16,
    s: Sites,
    Ghost(x): Ghost<(int, int, int)>,
    Ghost(zw): Ghost<(int, int)>,
    Ghost(b): Ghost<int>,
    Ghost(r): Ghost<(int, int, int, int)>,
) -> (o: (i16, i16, i16))
    requires
        params::limb_prime(q),
        tw.wf(q as int, zw.0, zw.1),
        s.offered(q),
        abs(a0 as int) <= b,
        abs(a1 as int) <= b,
        abs(a2 as int) <= b,
        0 <= b <= 32768,
        s.keeps(q as int, b, product_bound(b, q as int), r),
        spread(q as int, s.t, b, weight(*tw), r),
        same(x.0, a0 as int, q as int),
        same(x.1, a1 as int, q as int),
        same(x.2, a2 as int, q as int),
    ensures
        abs(o.0 as int) <= summed(r),
        abs(o.1 as int) <= summed(r),
        abs(o.2 as int) <= summed(r),
        ({
            let (z, w, n) = (zw.0, zw.1, q as int);
            &&& same(o.0 as int, x.0 + z * x.1 + z * z * x.2, n)
            &&& same(o.1 as int, x.0 + w * (z * x.1) + w * w * (z * z * x.2), n)
            &&& same(o.2 as int, x.0 + w * w * (z * x.1) + w * (z * z * x.2), n)
        }),
{
    proof {
        lemma_product_fits(abs(a1 as int), b, q);
        lemma_product_fits(abs(a2 as int), b, q);
    }
    let t1: i16 = lane::mont(a1, &tw.y, q);
    let t2: i16 = lane::mont(a2, &tw.y2, q);
    proof {
        lemma_together(
            q as int,
            b,
            (a1 as int, a2 as int),
            (tw.y.w as int, tw.y2.w as int),
            (t1 as int, t2 as int),
        );
    }
    let o: (i16, i16, i16) = butterfly(
        q,
        &tw.om,
        a0,
        t1,
        t2,
        s,
        Ghost(zw.1),
        Ghost((b, product_bound(b, q as int))),
        Ghost(r),
    );
    proof {
        lemma_three(
            q as int,
            zw.0,
            zw.1,
            (a0 as int, a1 as int, a2 as int),
            (t1 as int, t2 as int),
            x,
            (o.0 as int, o.1 as int, o.2 as int),
        );
    }
    o
}

/// One node with three children, into `out`.
fn node3(
    v: &[i16; 648],
    out: &mut [i16; 648],
    q: u16,
    base: usize,
    m: usize,
    tw: &Twiddles,
    s: Sites,
    Ghost(zw): Ghost<(int, int)>,
    Ghost(b): Ghost<int>,
    Ghost(r): Ghost<(int, int, int, int)>,
)
    requires
        params::limb_prime(q),
        base + 3 * m <= 648,
        tw.wf(q as int, zw.0, zw.1),
        s.offered(q),
        within(v@, b),
        0 <= b <= 32768,
        s.keeps(q as int, b, product_bound(b, q as int), r),
        spread(q as int, s.t, b, weight(*tw), r),
    ensures
        forall|j: int|
            0 <= j < base || base + 3 * m <= j < 648 ==> (#[trigger] final(out)@[j]) == old(
                out,
            )@[j],
        forall|j: int|
            base <= j < base + 3 * m ==> abs(#[trigger] final(out)@[j] as int) <= summed(r),
        ({
            let (x, z, w) = (residues(v@, q as u64), zw.0, zw.1);
            &&& forall|j: int|
                base <= j < base + m ==> same(
                    #[trigger] final(out)@[j] as int,
                    x[j] + z * x[j + m] + z * z * x[j + 2 * m],
                    q as int,
                )
            &&& forall|j: int|
                base + m <= j < base + 2 * m ==> same(
                    #[trigger] final(out)@[j] as int,
                    x[j - m] + w * (z * x[j]) + w * w * (z * z * x[j + m]),
                    q as int,
                )
            &&& forall|j: int|
                base + 2 * m <= j < base + 3 * m ==> same(
                    #[trigger] final(out)@[j] as int,
                    x[j - 2 * m] + w * w * (z * x[j - m]) + w * (z * z * x[j]),
                    q as int,
                )
        }),
{
    let ghost x = residues(v@, q as u64);
    let ghost (z, w) = zw;
    let mut i: usize = 0;
    while i < m
        invariant
            i <= m,
            params::limb_prime(q),
            base + 3 * m <= 648,
            x == residues(v@, q as u64),
            tw.wf(q as int, z, w),
            s.offered(q),
            within(v@, b),
            0 <= b <= 32768,
            s.keeps(q as int, b, product_bound(b, q as int), r),
            spread(q as int, s.t, b, weight(*tw), r),
            forall|j: int|
                0 <= j < base || base + i <= j < base + m || base + m + i <= j < base + 2 * m
                    || base + 2 * m + i <= j < 648 ==> (#[trigger] out@[j]) == old(out)@[j],
            forall|j: int|
                base <= j < base + i || base + m <= j < base + m + i || base + 2 * m <= j < base
                    + 2 * m + i ==> abs(#[trigger] out@[j] as int) <= summed(r),
            forall|j: int|
                base <= j < base + i ==> same(
                    #[trigger] out@[j] as int,
                    x[j] + z * x[j + m] + z * z * x[j + 2 * m],
                    q as int,
                ),
            forall|j: int|
                base + m <= j < base + m + i ==> same(
                    #[trigger] out@[j] as int,
                    x[j - m] + w * (z * x[j]) + w * w * (z * z * x[j + m]),
                    q as int,
                ),
            forall|j: int|
                base + 2 * m <= j < base + 2 * m + i ==> same(
                    #[trigger] out@[j] as int,
                    x[j - 2 * m] + w * w * (z * x[j - m]) + w * (z * z * x[j]),
                    q as int,
                ),
        decreases m - i,
    {
        let a0: i16 = v[base + i];
        let a1: i16 = v[base + m + i];
        let a2: i16 = v[base + 2 * m + i];
        proof {
            assert(abs(v@[base + i] as int) <= b);
            assert(abs(v@[base + m + i] as int) <= b);
            assert(abs(v@[base + 2 * m + i] as int) <= b);
            lemma_residue(v@, q as u64, base + i);
            lemma_residue(v@, q as u64, base + m + i);
            lemma_residue(v@, q as u64, base + 2 * m + i);
        }
        let (o0, o1, o2): (i16, i16, i16) = values_of(
            q,
            tw,
            a0,
            a1,
            a2,
            s,
            Ghost((x[base + i] as int, x[base + m + i] as int, x[base + 2 * m + i] as int)),
            Ghost((z, w)),
            Ghost(b),
            Ghost(r),
        );
        out[base + i] = o0;
        out[base + m + i] = o1;
        out[base + 2 * m + i] = o2;
        i += 1;
    }
}

/// The twiddles of node `k` of a level.
fn twiddles_of(t: &Tree, q: u16, g: u64, k: u64) -> (tw: (Twiddles, Ghost<(int, int)>))
    requires
        params::limb_prime(q),
        *t == params::tree_of(q),
        t.wf(),
        tree::size(t.split, g as int),
        g > 1,
        k < tree::nodes(t.split, g as int),
    ensures
        tw.0.wf(q as int, tw.1@.0, tw.1@.1),
        same(tw.1@.0, t.root(g as int / tree::radix(g as int), k * tree::radix(g as int)), q as int),
        same(tw.1@.1, pow(t.psi as int, 648), q as int),
{
    let p: u64 = if g % 2 == 0 {
        2
    } else {
        3
    };
    let h: u64 = g / p;
    proof {
        tree::lemma_level(t.split, g as int);
        tree::lemma_place_bound(t.split, g as int, k as int);
        t.lemma_roots(g as int, k as int, 0);
    }
    let e: u64 = tree::place_of(t.split, g, k);
    proof {
        assert(h * e <= 324 * 1944) by (nonlinear_arith)
            requires
                0 <= h <= 324,
                0 <= e < 1944,
        ;
    }
    let m: u64 = q as u64;
    let y: u64 = modular::pow_mod(t.psi, h * e, m);
    let w: u64 = modular::pow_mod(t.psi, 648, m);
    proof {
        modular::lemma_reduced(pow(t.psi as int, (h * e) as nat), q as int);
        modular::lemma_reduced(pow(t.psi as int, 648), q as int);
        tree::lemma_product(y, y);
        modular::lemma_reduced(y * y, q as int);
    }
    let y2: u64 = y * y % m;
    let tw = Twiddles {
        y: lane::twiddle(y, q),
        y2: lane::twiddle(y2, q),
        om: lane::twiddle(w, q),
    };
    proof {
        let (n, x) = (q as int, pow(t.psi as int, 648));
        modular::lemma_mul(65536, y2 as int, 65536, y * y, n);
        modular::lemma_mul(w as int, w as int, x, x, n);
        modular::lemma_add(w * w, w as int, x * x, x, n);
        modular::lemma_add(w * w + w, 1, x * x + x, 1, n);
    }
    (tw, Ghost((y as int, w as int)))
}

/// The magnitude of the Montgomery form of `z`, centred.
pub open spec fn scaled(z: int, q: int) -> int {
    let y = 65536 * z % q;
    if 2 * y > q {
        q - y
    } else {
        y
    }
}

/// The multipliers of node `k` have a magnitude of at most `c` together.
pub open spec fn light(t: Tree, g: int, k: int, c: int) -> bool {
    let z = t.root(g / 3, 3 * k);
    scaled(z, t.q as int) + scaled(z * z, t.q as int) <= c
}

/// Every node of a level is `spread`.
pub open spec fn level_spread(t: Tree, g: int, k: u8, b: int, r: (int, int, int, int)) -> bool {
    2 * r.1 <= r.3 || exists|c: int|
        spread(t.q as int, k, b, c, r) && forall|i: int|
            0 <= i < tree::nodes(t.split, g) ==> #[trigger] light(t, g, i, c)
}

/// A twiddle's multiplier is the centred one.
proof fn lemma_scaled(w: Twiddle, z: int, x: int, q: int)
    requires
        q > 0,
        q % 2 == 1,
        paired(w, q),
        stands_for(w, z, q),
        same(z, x, q),
    ensures
        abs(w.w as int) == scaled(x, q),
{
    let m = w.w as int;
    modular::lemma_mul(65536, z, 65536, x, q);
    let y = 65536 * x % q;
    if m >= 0 {
        lemma_small_mod(m as nat, q as nat);
    } else {
        lemma_mod_multiples_vanish(1, m, q);
        lemma_small_mod((m + q) as nat, q as nat);
    }
    assert(y == if m >= 0 {
        m
    } else {
        m + q
    });
}

proof fn lemma_spread(
    t: Tree,
    q: u16,
    g: int,
    i: int,
    k: u8,
    b: int,
    r: (int, int, int, int),
    tw: Twiddles,
    z: int,
    w: int,
)
    requires
        params::limb_prime(q),
        t.q == q,
        t.wf(),
        0 <= b,
        0 <= i < tree::nodes(t.split, g),
        tw.wf(q as int, z, w),
        same(z, t.root(g / 3, 3 * i), q as int),
        level_spread(t, g, k, b, r),
    ensures
        spread(q as int, k, b, weight(tw), r),
{
    if 2 * r.1 > r.3 {
        let c = choose|c: int|
            spread(t.q as int, k, b, c, r) && forall|j: int|
                0 <= j < tree::nodes(t.split, g) ==> #[trigger] light(t, g, j, c);
        let (n, x) = (q as int, t.root(g / 3, 3 * i));
        assert(light(t, g, i, c));
        lemma_scaled(tw.y, z, x, n);
        modular::lemma_mul(z, z, x, x, n);
        lemma_scaled(tw.y2, z * z, x * x, n);
        let d = weight(tw);
        assert(b * d <= b * c) by (nonlinear_arith)
            requires
                d <= c,
                0 <= b,
        ;
        lemma_div_is_ordered(b * d, b * c, 65536);
    }
}

/// A level with three children to a node.
#[verifier::spinoff_prover]
pub(crate) fn level3(
    t: &Tree,
    q: u16,
    v: &[i16; 648],
    g: u64,
    s: Sites,
    Ghost(b): Ghost<int>,
    Ghost(r): Ghost<(int, int, int, int)>,
) -> (out: [i16; 648])
    requires
        params::limb_prime(q),
        *t == params::tree_of(q),
        t.wf(),
        tree::size(t.split, g as int),
        g > 1,
        tree::radix(g as int) == 3,
        s.offered(q),
        within(v@, b),
        0 <= b <= 32768,
        s.keeps(q as int, b, product_bound(b, q as int), r),
        level_spread(*t, g as int, s.t, b, r),
    ensures
        t.down(residues(v@, t.q), residues(out@, t.q), g as int),
        within(out@, summed(r)),
{
    let l: u64 = if t.split {
        1
    } else {
        2
    };
    let m: usize = (g / 3 * l) as usize;
    let n: usize = 3 * m;
    let ghost x = residues(v@, t.q);
    proof {
        tree::lemma_level(t.split, g as int);
    }
    let count: u64 = 648 / (g * l);
    assert(count == tree::nodes(t.split, g as int)) by {
        let (a, c) = (tree::nodes(t.split, g as int), (g * l) as int);
        lemma_fundamental_div_mod_converse(648, c, a, 0);
    }
    let mut out: [i16; 648] = [0;648];
    let mut k: u64 = 0;
    let mut base: usize = 0;
    while k < count
        invariant
            params::limb_prime(q),
            *t == params::tree_of(q),
            t.wf(),
            tree::size(t.split, g as int),
            g > 1,
            tree::radix(g as int) == 3,
            s.offered(q),
            within(v@, b),
            0 <= b <= 32768,
            s.keeps(q as int, b, product_bound(b, q as int), r),
            level_spread(*t, g as int, s.t, b, r),
            x == residues(v@, t.q),
            l == tree::leaf(t.split),
            m == g as int / 3 * l,
            n == 3 * m,
            count == tree::nodes(t.split, g as int),
            count * n == 648,
            k <= count,
            base == k * n,
            forall|j: int|
                0 <= j < base ==> abs(#[trigger] out@[j] as int) <= summed(r) && same(
                    out@[j] as int,
                    t.part(x, g as int, j),
                    t.q as int,
                ),
        decreases count - k,
    {
        let ghost before = out@;
        proof {
            tree::lemma_span(k as int, count as int, n as int);
        }
        let (tw, Ghost(zw)): (Twiddles, Ghost<(int, int)>) = twiddles_of(t, q, g, k);
        proof {
            assert(k * 3 == 3 * k);
            lemma_spread(*t, q, g as int, k as int, s.t, b, r, tw, zw.0, zw.1);
        }
        node3(v, &mut out, q, base, m, &tw, s, Ghost(zw), Ghost(b), Ghost(r));
        proof {
            let y = residues(out@, t.q);
            assert forall|j: int| base <= j < base + 3 * m implies (#[trigger] y[j]) < t.q && same(
                y[j] as int,
                out@[j] as int,
                t.q as int,
            ) by {
                lemma_residue(out@, t.q, j);
            }
            assert(k * 3 == 3 * k);
            tree::lemma_node3(*t, x, y, g as int, k as int, zw.0, zw.1);
            assert forall|j: int| 0 <= j < base + n implies abs(#[trigger] out@[j] as int)
                <= summed(r) && same(out@[j] as int, t.part(x, g as int, j), t.q as int) by {
                if j < base {
                    assert(out@[j] == before[j]);
                } else {
                    assert(y[j] < t.q);
                }
            }
        }
        base = base + n;
        k += 1;
    }
    proof {
        let y = residues(out@, t.q);
        assert forall|j: int| 0 <= j < 648 implies (#[trigger] y[j]) < t.q && same(
            y[j] as int,
            t.part(x, g as int, j),
            t.q as int,
        ) by {
            lemma_residue(out@, t.q, j);
            assert(abs(out@[j] as int) <= summed(r));
        }
    }
    out
}

/// One node with two children, into `out`; the untwiddled input goes through site `s`.
fn node2(
    v: &[i16; 648],
    out: &mut [i16; 648],
    q: u16,
    base: usize,
    m: usize,
    y: &Twiddle,
    s: u8,
    Ghost(z): Ghost<int>,
    Ghost(b): Ghost<(int, int)>,
)
    requires
        params::limb_prime(q),
        base + 2 * m <= 648,
        paired(*y, q as int),
        stands_for(*y, z, q as int),
        offered(s, q),
        within(v@, b.0),
        0 <= b.0 <= 32768,
        settles(s, b.0, b.1, q as int),
        b.1 + product_bound(b.0, q as int) <= 32767,
    ensures
        forall|j: int|
            0 <= j < base || base + 2 * m <= j < 648 ==> (#[trigger] final(out)@[j]) == old(
                out,
            )@[j],
        forall|j: int|
            base <= j < base + 2 * m ==> abs(#[trigger] final(out)@[j] as int) <= b.1
                + product_bound(b.0, q as int),
        ({
            let x = residues(v@, q as u64);
            &&& forall|j: int|
                base <= j < base + m ==> same(
                    #[trigger] final(out)@[j] as int,
                    x[j] + z * x[j + m],
                    q as int,
                )
            &&& forall|j: int|
                base + m <= j < base + 2 * m ==> same(
                    #[trigger] final(out)@[j] as int,
                    x[j - m] - z * x[j],
                    q as int,
                )
        }),
{
    let ghost x = residues(v@, q as u64);
    let mut i: usize = 0;
    while i < m
        invariant
            i <= m,
            params::limb_prime(q),
            base + 2 * m <= 648,
            x == residues(v@, q as u64),
            paired(*y, q as int),
            stands_for(*y, z, q as int),
            offered(s, q),
            within(v@, b.0),
            0 <= b.0 <= 32768,
            settles(s, b.0, b.1, q as int),
            b.1 + product_bound(b.0, q as int) <= 32767,
            forall|j: int|
                0 <= j < base || base + i <= j < base + m || base + m + i <= j < 648 ==> (
                #[trigger] out@[j]) == old(out)@[j],
            forall|j: int|
                base <= j < base + i || base + m <= j < base + m + i ==> abs(
                    #[trigger] out@[j] as int,
                ) <= b.1 + product_bound(b.0, q as int),
            forall|j: int|
                base <= j < base + i ==> same(
                    #[trigger] out@[j] as int,
                    x[j] + z * x[j + m],
                    q as int,
                ),
            forall|j: int|
                base + m <= j < base + m + i ==> same(
                    #[trigger] out@[j] as int,
                    x[j - m] - z * x[j],
                    q as int,
                ),
        decreases m - i,
    {
        let a0: i16 = v[base + i];
        let a1: i16 = v[base + m + i];
        proof {
            assert(abs(v@[base + i] as int) <= b.0);
            assert(abs(v@[base + m + i] as int) <= b.0);
        }
        let c: i16 = through(a0, q, s, Ghost(b.0), Ghost(b.1));
        let t: i16 = times(a1, y, q, Ghost(z), Ghost(b.0));
        proof {
            let n = q as int;
            let (x0, x1) = (x[base + i] as int, x[base + m + i] as int);
            lemma_residue(v@, q as u64, base + i);
            lemma_residue(v@, q as u64, base + m + i);
            modular::lemma_mul(a1 as int, z, x1, z, n);
            assert(x1 * z == z * x1) by (nonlinear_arith);
            modular::lemma_add(c as int, t as int, x0, z * x1, n);
            modular::lemma_sub(c as int, t as int, x0, z * x1, n);
        }
        out[base + i] = c + t;
        out[base + m + i] = c - t;
        i += 1;
    }
}

/// A level with two children to a node.
#[verifier::spinoff_prover]
pub(crate) fn level2(
    t: &Tree,
    q: u16,
    v: &[i16; 648],
    g: u64,
    s: u8,
    Ghost(b): Ghost<(int, int)>,
) -> (out: [i16; 648])
    requires
        params::limb_prime(q),
        *t == params::tree_of(q),
        t.wf(),
        tree::size(t.split, g as int),
        g > 1,
        tree::radix(g as int) == 2,
        offered(s, q),
        within(v@, b.0),
        0 <= b.0 <= 32768,
        settles(s, b.0, b.1, q as int),
        b.1 + product_bound(b.0, q as int) <= 32767,
    ensures
        t.down(residues(v@, t.q), residues(out@, t.q), g as int),
        within(out@, b.1 + product_bound(b.0, q as int)),
{
    let l: u64 = if t.split {
        1
    } else {
        2
    };
    let m: usize = (g / 2 * l) as usize;
    let n: usize = 2 * m;
    let ghost x = residues(v@, t.q);
    let ghost top = b.1 + product_bound(b.0, q as int);
    proof {
        tree::lemma_level(t.split, g as int);
    }
    let count: u64 = 648 / (g * l);
    assert(count == tree::nodes(t.split, g as int)) by {
        let (a, c) = (tree::nodes(t.split, g as int), (g * l) as int);
        lemma_fundamental_div_mod_converse(648, c, a, 0);
    }
    let mut out: [i16; 648] = [0;648];
    let mut k: u64 = 0;
    let mut base: usize = 0;
    while k < count
        invariant
            params::limb_prime(q),
            *t == params::tree_of(q),
            t.wf(),
            tree::size(t.split, g as int),
            g > 1,
            tree::radix(g as int) == 2,
            offered(s, q),
            within(v@, b.0),
            0 <= b.0 <= 32768,
            settles(s, b.0, b.1, q as int),
            top == b.1 + product_bound(b.0, q as int),
            top <= 32767,
            x == residues(v@, t.q),
            l == tree::leaf(t.split),
            m == g as int / 2 * l,
            n == 2 * m,
            count == tree::nodes(t.split, g as int),
            count * n == 648,
            k <= count,
            base == k * n,
            forall|j: int|
                0 <= j < base ==> abs(#[trigger] out@[j] as int) <= top && same(
                    out@[j] as int,
                    t.part(x, g as int, j),
                    t.q as int,
                ),
        decreases count - k,
    {
        let ghost before = out@;
        proof {
            tree::lemma_span(k as int, count as int, n as int);
        }
        let (tw, Ghost(zw)): (Twiddles, Ghost<(int, int)>) = twiddles_of(t, q, g, k);
        node2(v, &mut out, q, base, m, &tw.y, s, Ghost(zw.0), Ghost(b));
        proof {
            let y = residues(out@, t.q);
            assert forall|j: int| base <= j < base + 2 * m implies (#[trigger] y[j]) < t.q && same(
                y[j] as int,
                out@[j] as int,
                t.q as int,
            ) by {
                lemma_residue(out@, t.q, j);
            }
            assert(k * 2 == 2 * k);
            tree::lemma_node2(*t, x, y, g as int, k as int, zw.0);
            assert forall|j: int| 0 <= j < base + n implies abs(#[trigger] out@[j] as int) <= top
                && same(out@[j] as int, t.part(x, g as int, j), t.q as int) by {
                if j < base {
                    assert(out@[j] == before[j]);
                } else {
                    assert(y[j] < t.q);
                }
            }
        }
        base = base + n;
        k += 1;
    }
    proof {
        let y = residues(out@, t.q);
        assert forall|j: int| 0 <= j < 648 implies (#[trigger] y[j]) < t.q && same(
            y[j] as int,
            t.part(x, g as int, j),
            t.q as int,
        ) by {
            lemma_residue(out@, t.q, j);
            assert(abs(out@[j] as int) <= top);
        }
    }
    out
}

// ---------------------------------------------------------------------------------------------
// the first level
// ---------------------------------------------------------------------------------------------

/// The twiddle of a primitive sixth root of unity `z`, and that of `1 - z`.
fn sixth(t: &Tree, q: u16) -> (r: (Twiddle, Twiddle))
    requires
        params::limb_prime(q),
        *t == params::tree_of(q),
        t.wf(),
    ensures
        paired(r.0, q as int),
        paired(r.1, q as int),
        stands_for(r.0, t.root(tree::top(t.split), 0), q as int),
        stands_for(r.1, t.root(tree::top(t.split), 1), q as int),
        same(
            t.root(tree::top(t.split), 1),
            1 - t.root(tree::top(t.split), 0),
            q as int,
        ),
{
    let m: u64 = q as u64;
    let g: u64 = if t.split {
        324
    } else {
        162
    };
    let z: u64 = modular::pow_mod(t.psi, g, m);
    let zi: u64 = (1 + m - z) % m;
    proof {
        let n = q as int;
        let zz = pow(t.psi as int, g as nat);
        let c = t.root(tree::top(t.split), 1);
        tree::lemma_top(*t);
        modular::lemma_reduced(zz, n);
        modular::lemma_mul(65536, z as int, 65536, zz, n);
        modular::lemma_reduced(1 + m - z, n);
        modular::lemma_multiple(1 - z, 1, n);
        modular::lemma_sub(1, z as int, 1, zz, n);
        modular::lemma_mul(65536, zi as int, 65536, c, n);
    }
    (lane::twiddle(z, q), lane::twiddle(zi, q))
}

/// Lanes hold the two nodes of the first level at `i`.
spec fn held_at(t: Tree, s: Seq<int>, v: Seq<i16>, j: int) -> bool {
    same(
        v[j] as int,
        s[j % 324] + t.root(tree::top(t.split), j / 324) * s[j % 324 + 324],
        t.q as int,
    )
}

proof fn lemma_first(t: Tree, s: Seq<int>, v: Seq<i16>)
    requires
        t.wf(),
        s.len() == 648,
        forall|j: int| 0 <= j < 648 ==> #[trigger] held_at(t, s, v, j),
    ensures
        t.holds(residues(v, t.q), s, tree::top(t.split)),
{
    let n = tree::top(t.split) * tree::leaf(t.split);
    assert(n == 324);
    assert forall|j: int| 0 <= j < 648 implies (#[trigger] residues(v, t.q)[j]) < t.q && same(
        residues(v, t.q)[j] as int,
        crate::ntt::poly::strided(s, j % n, n, t.root(tree::top(t.split), j / n)),
        t.q as int,
    ) by {
        lemma_residue(v, t.q, j);
        assert(held_at(t, s, v, j));
        tree::lemma_two(s, j % 324, t.root(tree::top(t.split), j / 324));
    }
}

/// The first level as two products: `a0 + z a1` and `a0 + (1 - z) a1`.
#[verifier::spinoff_prover]
pub(crate) fn first_products(t: &Tree, q: u16, a: &[i16; 648], Ghost(b): Ghost<int>) -> (out: [i16;
    648])
    requires
        params::limb_prime(q),
        *t == params::tree_of(q),
        t.wf(),
        within(a@, b),
        0 <= b <= 32768,
        b + product_bound(b, q as int) <= 32767,
    ensures
        t.holds(residues(out@, t.q), chunk::shorts(a@), tree::top(t.split)),
        within(out@, b + product_bound(b, q as int)),
{
    let (z, zi): (Twiddle, Twiddle) = sixth(t, q);
    let ghost s = chunk::shorts(a@);
    let ghost (c0, c1) = (t.root(tree::top(t.split), 0), t.root(tree::top(t.split), 1));
    let mut out: [i16; 648] = [0;648];
    let mut i: usize = 0;
    while i < 324
        invariant
            i <= 324,
            params::limb_prime(q),
            *t == params::tree_of(q),
            within(a@, b),
            0 <= b <= 32768,
            b + product_bound(b, q as int) <= 32767,
            s == chunk::shorts(a@),
            paired(z, q as int),
            paired(zi, q as int),
            c0 == t.root(tree::top(t.split), 0),
            c1 == t.root(tree::top(t.split), 1),
            stands_for(z, c0, q as int),
            stands_for(zi, c1, q as int),
            forall|j: int|
                0 <= j < i || 324 <= j < 324 + i ==> #[trigger] held_at(*t, s, out@, j) && abs(
                    out@[j] as int,
                ) <= b + product_bound(b, q as int),
        decreases 324 - i,
    {
        let a0: i16 = a[i];
        let a1: i16 = a[i + 324];
        proof {
            assert(abs(a@[i as int] as int) <= b);
            assert(abs(a@[i + 324] as int) <= b);
        }
        let x: i16 = times(a1, &z, q, Ghost(c0), Ghost(b));
        let y: i16 = times(a1, &zi, q, Ghost(c1), Ghost(b));
        proof {
            let n = q as int;
            assert(a1 * c0 == c0 * a1 && a1 * c1 == c1 * a1) by (nonlinear_arith);
            modular::lemma_add(a0 as int, x as int, a0 as int, c0 * a1, n);
            modular::lemma_add(a0 as int, y as int, a0 as int, c1 * a1, n);
        }
        let ghost before = out@;
        out[i] = a0 + x;
        out[i + 324] = a0 + y;
        proof {
            assert forall|j: int| 0 <= j < i + 1 || 324 <= j < 325 + i implies #[trigger] held_at(
                *t,
                s,
                out@,
                j,
            ) && abs(out@[j] as int) <= b + product_bound(b, q as int) by {
                if j == i || j == 324 + i {
                    assert((324 + i) % 324 == i && (324 + i) / 324 == 1);
                    assert(i as int % 324 == i && i as int / 324 == 0);
                } else {
                    assert(held_at(*t, s, before, j));
                    assert(out@[j] == before[j]);
                }
            }
        }
        i += 1;
    }
    proof {
        lemma_first(*t, s, out@);
        assert forall|j: int| 0 <= j < 648 implies abs(#[trigger] out@[j] as int) <= b
            + product_bound(b, q as int) by {
            assert(held_at(*t, s, out@, j));
        }
    }
    out
}

/// The arithmetic of the first level with one product.
proof fn lemma_second(q: int, c0: int, c1: int, a0: int, a1: int, d: int, x: int, y: int)
    requires
        q > 0,
        same(c1, 1 - c0, q),
        same(d, a1, q),
        same(x, d * c0, q),
        same(y, a0 + d - x, q),
    ensures
        same(a0 + x, a0 + c0 * a1, q),
        same(y, a0 + c1 * a1, q),
{
    modular::lemma_mul(d, c0, a1, c0, q);
    assert(a1 * c0 == c0 * a1) by (nonlinear_arith);
    modular::lemma_add(a0, x, a0, c0 * a1, q);
    modular::lemma_add(a0, d, a0, a1, q);
    modular::lemma_sub(a0 + d, x, a0 + a1, c0 * a1, q);
    assert((1 - c0) * a1 == a1 - c0 * a1) by (nonlinear_arith);
    modular::lemma_mul(c1, a1, 1 - c0, a1, q);
    modular::lemma_add(a0, c1 * a1, a0, (1 - c0) * a1, q);
}

/// The two sums of the first level with one product.
fn sums_of(
    q: u16,
    z: &Twiddle,
    a0: i16,
    a1: i16,
    si: u8,
    sa: u8,
    Ghost(c): Ghost<(int, int)>,
    Ghost(b): Ghost<int>,
    Ghost(r): Ghost<(int, int)>,
) -> (o: (i16, i16))
    requires
        params::limb_prime(q),
        paired(*z, q as int),
        stands_for(*z, c.0, q as int),
        same(c.1, 1 - c.0, q as int),
        offered(si, q),
        offered(sa, q),
        abs(a0 as int) <= b,
        abs(a1 as int) <= b,
        0 <= r.0 <= 32768,
        settles(si, b, r.0, q as int),
        settles(sa, b + r.0 + product_bound(r.0, q as int), r.1, q as int),
        b + r.0 + product_bound(r.0, q as int) <= 32767,
    ensures
        abs(o.0 as int) <= b + product_bound(r.0, q as int),
        abs(o.1 as int) <= r.1,
        same(o.0 as int, a0 + c.0 * a1, q as int),
        same(o.1 as int, a0 + c.1 * a1, q as int),
{
    let d: i16 = through(a1, q, si, Ghost(b), Ghost(r.0));
    let x: i16 = times(d, z, q, Ghost(c.0), Ghost(r.0));
    proof {
        lemma_product_fits(r.0, 32768, q);
    }
    let e: i16 = a0 + d - x;
    let y: i16 = through(
        e,
        q,
        sa,
        Ghost(b + r.0 + product_bound(r.0, q as int)),
        Ghost(r.1),
    );
    proof {
        lemma_second(
            q as int,
            c.0,
            c.1,
            a0 as int,
            a1 as int,
            d as int,
            x as int,
            y as int,
        );
    }
    (a0 + x, y)
}

/// The first level with one product: `a0 + z a1` and `a0 + a1 - z a1`. The twiddled input goes
/// through site `si`, the second sum through site `sa`.
#[verifier::spinoff_prover]
pub(crate) fn first_sums(
    t: &Tree,
    q: u16,
    a: &[i16; 648],
    si: u8,
    sa: u8,
    Ghost(b): Ghost<int>,
    Ghost(r): Ghost<(int, int)>,
) -> (out: [i16; 648])
    requires
        params::limb_prime(q),
        *t == params::tree_of(q),
        t.wf(),
        offered(si, q),
        offered(sa, q),
        within(a@, b),
        0 <= b <= 32768,
        0 <= r.0 <= 32768,
        settles(si, b, r.0, q as int),
        settles(sa, b + r.0 + product_bound(r.0, q as int), r.1, q as int),
        b + r.0 + product_bound(r.0, q as int) <= 32767,
    ensures
        t.holds(residues(out@, t.q), chunk::shorts(a@), tree::top(t.split)),
        within(out@, larger(b + product_bound(r.0, q as int), r.1)),
{
    let (z, _): (Twiddle, Twiddle) = sixth(t, q);
    let ghost s = chunk::shorts(a@);
    let ghost (c0, c1) = (t.root(tree::top(t.split), 0), t.root(tree::top(t.split), 1));
    let ghost top = larger(b + product_bound(r.0, q as int), r.1);
    let mut out: [i16; 648] = [0;648];
    let mut i: usize = 0;
    while i < 324
        invariant
            i <= 324,
            params::limb_prime(q),
            *t == params::tree_of(q),
            offered(si, q),
            offered(sa, q),
            within(a@, b),
            0 <= b <= 32768,
            0 <= r.0 <= 32768,
            settles(si, b, r.0, q as int),
            settles(sa, b + r.0 + product_bound(r.0, q as int), r.1, q as int),
            b + r.0 + product_bound(r.0, q as int) <= 32767,
            top == larger(b + product_bound(r.0, q as int), r.1),
            s == chunk::shorts(a@),
            paired(z, q as int),
            c0 == t.root(tree::top(t.split), 0),
            c1 == t.root(tree::top(t.split), 1),
            same(c1, 1 - c0, q as int),
            stands_for(z, c0, q as int),
            forall|j: int|
                0 <= j < i || 324 <= j < 324 + i ==> #[trigger] held_at(*t, s, out@, j) && abs(
                    out@[j] as int,
                ) <= top,
        decreases 324 - i,
    {
        let a0: i16 = a[i];
        let a1: i16 = a[i + 324];
        proof {
            assert(abs(a@[i as int] as int) <= b);
            assert(abs(a@[i + 324] as int) <= b);
        }
        let (x, y): (i16, i16) = sums_of(
            q,
            &z,
            a0,
            a1,
            si,
            sa,
            Ghost((c0, c1)),
            Ghost(b),
            Ghost(r),
        );
        let ghost before = out@;
        out[i] = x;
        out[i + 324] = y;
        proof {
            assert forall|j: int| 0 <= j < i + 1 || 324 <= j < 325 + i implies #[trigger] held_at(
                *t,
                s,
                out@,
                j,
            ) && abs(out@[j] as int) <= top by {
                if j == i || j == 324 + i {
                    assert((324 + i) % 324 == i && (324 + i) / 324 == 1);
                    assert(i as int % 324 == i && i as int / 324 == 0);
                } else {
                    assert(held_at(*t, s, before, j));
                    assert(out@[j] == before[j]);
                }
            }
        }
        i += 1;
    }
    proof {
        lemma_first(*t, s, out@);
        assert forall|j: int| 0 <= j < 648 implies abs(#[trigger] out@[j] as int) <= top by {
            assert(held_at(*t, s, out@, j));
        }
    }
    out
}

/// Every lane through a site.
pub(crate) fn reduce_all(
    q: u16,
    v: &[i16; 648],
    s: u8,
    Ghost(b): Ghost<(int, int)>,
) -> (out: [i16; 648])
    requires
        params::limb_prime(q),
        offered(s, q),
        within(v@, b.0),
        settles(s, b.0, b.1, q as int),
    ensures
        residues(out@, q as u64) == residues(v@, q as u64),
        within(out@, b.1),
{
    let mut out: [i16; 648] = [0;648];
    let mut i: usize = 0;
    while i < 648
        invariant
            i <= 648,
            params::limb_prime(q),
            offered(s, q),
            within(v@, b.0),
            settles(s, b.0, b.1, q as int),
            forall|j: int|
                0 <= j < i ==> abs(#[trigger] out@[j] as int) <= b.1 && same(
                    out@[j] as int,
                    v@[j] as int,
                    q as int,
                ),
        decreases 648 - i,
    {
        assert(abs(v@[i as int] as int) <= b.0);
        out[i] = through(v[i], q, s, Ghost(b.0), Ghost(b.1));
        i += 1;
    }
    assert(residues(out@, q as u64) =~= residues(v@, q as u64)) by {
        assert forall|j: int| 0 <= j < 648 implies #[trigger] residues(out@, q as u64)[j]
            == residues(v@, q as u64)[j] by {
            assert(abs(out@[j] as int) <= b.1);
        }
    }
    out
}

} // verus!
