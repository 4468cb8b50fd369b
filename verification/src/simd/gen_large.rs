//! The forward transform of general elements at the two primes above `2^14`, and the bounds of both
//! transforms.
//!
//! Every term a butterfly adds goes through the lookup reduction first. The two schedules are
//! replayed on bounds, and every intermediate stays in a lane.
use super::lane;
use super::lane::product_bound;
use super::network;
use super::network::Sites;
use super::schedule::larger;
use super::schedule::Caps;
use crate::ntt::tree;
use crate::params;
use crate::recursion::chunk;
use vstd::prelude::*;

verus! {

/// The bound carried for a lane of magnitude `b` at a lookup reduction: the smaller of `b` and the
/// largest lane the reduction leaves.
pub open spec fn red(c: Caps, b: int) -> int {
    if c.lut < b {
        c.lut as int
    } else {
        b
    }
}

/// The bound of a twiddle product on lanes of magnitude `b`, reduced.
pub open spec fn product_of(c: Caps, b: int) -> int {
    red(c, product_bound(b, c.q as int))
}

/// The outputs of a radix-3 butterfly on lanes of magnitude `b`, everything reduced.
#[verifier::opaque]
pub open spec fn r3_out(c: Caps, b: int) -> int {
    let t = product_of(c, b);
    red(c, b) + t + product_of(c, 2 * t)
}

/// The largest intermediate of that butterfly.
#[verifier::opaque]
pub open spec fn r3_peak(c: Caps, b: int) -> int {
    let t = product_of(c, b);
    larger(
        larger(product_bound(b, c.q as int), 2 * t),
        larger(
            larger(product_bound(2 * t, c.q as int), red(c, b) + 2 * t),
            r3_out(c, b),
        ),
    )
}

/// The lanes after the first level, a product added to an input of magnitude `q`.
pub open spec fn first_sum(c: Caps) -> int {
    c.q + product_bound(c.q as int, c.q as int)
}

/// A radix-2 butterfly on lanes of magnitude `b`: the untwiddled input reduced.
pub open spec fn r2_out(c: Caps, b: int) -> int {
    red(c, b) + product_bound(b, c.q as int)
}

/// The bounds of the forward transform: after levels 0 and 1, after 2 and 3, after 4, after 5, and
/// of the output, which is reduced once more.
pub open spec fn forward_bound(c: Caps, i: int) -> int {
    let b0 = r2_out(c, first_sum(c));
    let b1 = r3_out(c, r2_out(c, b0));
    let b2 = r3_out(c, b1);
    let b3 = r3_out(c, b2);
    if i == 0 {
        b0
    } else if i == 1 {
        b1
    } else if i == 2 {
        b2
    } else if i == 3 {
        b3
    } else {
        red(c, r3_out(c, b3))
    }
}

/// The largest intermediate of the forward transform.
pub open spec fn forward_peak(c: Caps) -> int {
    let b0 = forward_bound(c, 0);
    let n = r2_out(c, b0);
    larger(
        larger(larger(first_sum(c), b0), larger(n, r3_peak(c, n))),
        larger(
            r3_peak(c, forward_bound(c, 1)),
            larger(r3_peak(c, forward_bound(c, 2)), r3_peak(c, forward_bound(c, 3))),
        ),
    )
}

fn reduce(c: &Caps, b: i32) -> (r: i32)
    requires
        c.wf(),
        0 <= b,
    ensures
        r == red(*c, b as int),
        0 <= r <= b,
        r <= c.lut,
{
    if c.lut < b {
        c.lut
    } else {
        b
    }
}

fn most(a: i32, b: i32) -> (r: i32)
    ensures
        r == larger(a as int, b as int),
{
    if a > b {
        a
    } else {
        b
    }
}

/// The bounds of a butterfly: its outputs and its largest intermediate.
fn r3(c: &Caps, b: i32) -> (r: (i32, i32))
    requires
        c.wf(),
        0 <= b <= 100000,
    ensures
        r.0 == r3_out(*c, b as int),
        r.1 == r3_peak(*c, b as int),
        0 <= r.0 <= 3 * c.lut,
{
    proof {
        reveal(r3_out);
        reveal(r3_peak);
    }
    let p: i32 = lane::mont_bound(b, c.q);
    let t: i32 = reduce(c, p);
    let w: i32 = lane::mont_bound(2 * t, c.q);
    let u: i32 = reduce(c, w);
    let a: i32 = reduce(c, b);
    let out: i32 = a + t + u;
    (out, most(most(p, 2 * t), most(most(w, a + 2 * t), out)))
}

/// The forward schedule replayed on bounds: the lanes after each stage, and the largest intermediate.
pub fn fwd_model(c: &Caps) -> (r: ([i32; 5], i32))
    requires
        c.wf(),
    ensures
        forall|i: int| 0 <= i < 5 ==> (#[trigger] r.0@[i]) == forward_bound(*c, i),
        r.1 == forward_peak(*c),
{
    let q: i32 = c.q as i32;
    let f: i32 = q + lane::mont_bound(q, c.q);
    let b0: i32 = reduce(c, f) + lane::mont_bound(f, c.q);
    let n: i32 = reduce(c, b0) + lane::mont_bound(b0, c.q);
    let (b1, p1): (i32, i32) = r3(c, n);
    let (b2, p2): (i32, i32) = r3(c, b1);
    let (b3, p3): (i32, i32) = r3(c, b2);
    let (b4, p4): (i32, i32) = r3(c, b3);
    let out: i32 = reduce(c, b4);
    let peak: i32 = most(most(most(f, b0), most(n, p1)), most(p2, most(p3, p4)));
    let lm: [i32; 5] = [b0, b1, b2, b3, out];
    assert(lm@[0] == b0 && lm@[1] == b1 && lm@[2] == b2 && lm@[3] == b3 && lm@[4] == out);
    (lm, peak)
}

/// The largest lane the forward transform leaves.
pub fn output_bound(c: &Caps) -> (b: i32)
    requires
        c.wf(),
    ensures
        b == forward_bound(*c, 4),
{
    fwd_model(c).0[4]
}

/// The magnitude of the lanes the inverse transform takes: a centred transform.
pub fn in_bound(q: u16) -> (b: i32)
    requires
        q >= 1,
    ensures
        b == (q - 1) / 2,
{
    ((q - 1) / 2) as i32
}

/// The lookup reduction leaves at most half of `q` and half of a window.
proof fn lemma_lut(c: Caps)
    requires
        c.wf(),
    ensures
        2 * c.lut <= c.q + 2047,
        c.lut >= 8000,
{
    let a = choose|a: int|
        -32768 <= a < 32768 && abs_reduced(c, a) == c.lut;
    lemma_reached(c);
    lane::lookup_bound(a, c.q as int);
    lemma_far(c);
}

spec fn abs_reduced(c: Caps, a: int) -> int {
    lane::abs(lane::lookup_reduced(a, c.q as int))
}

proof fn lemma_reached(c: Caps)
    requires
        c.wf(),
    ensures
        exists|a: int| -32768 <= a < 32768 && abs_reduced(c, a) == c.lut,
{
    let a = choose|a: int|
        -32768 <= a < 32768 && lane::abs(#[trigger] lane::lookup_reduced(a, c.q as int)) == c.lut;
    assert(abs_reduced(c, a) == c.lut);
}

/// A lane below half of `q` whose window's centre is nearer to zero stays as it is.
proof fn lemma_far(c: Caps)
    requires
        c.wf(),
    ensures
        c.lut >= 8000,
{
    let a = 8000int;
    assert(a / 2048 == 3 && 3int % 32 == 3);
    assert(lane::window(a) == 3);
    let num = 4096int * 3 + 2047;
    assert(num == 14335);
    if c.q == 17497 {
        assert((14335 + 17497int) / 34994 == 0);
    } else {
        assert((14335 + 19441int) / 38882 == 0);
    }
    assert(lane::nearest(3, c.q as int) == 0);
    assert(lane::lookup_reduced(a, c.q as int) == a);
    assert(lane::abs(lane::lookup_reduced(a, c.q as int)) <= c.lut);
}

proof fn lemma_product(b: int, q: int, hi: int)
    requires
        0 <= b <= hi,
        0 < q,
    ensures
        0 <= product_bound(b, q) <= product_bound(hi, q),
{
    lane::product_bound_monotone(b, hi, q);
    assert(0 <= b * q) by (nonlinear_arith)
        requires
            0 <= b,
            0 < q,
    ;
}

/// A butterfly on lanes of magnitude at most `2^15` stays in a lane.
proof fn lemma_butterfly(c: Caps, b: int)
    requires
        c.wf(),
        0 <= b <= 32767,
    ensures
        0 <= r3_out(c, b) <= 32767,
        r3_peak(c, b) <= 32767,
{
    reveal(r3_out);
    reveal(r3_peak);
    lemma_lut(c);
    let q = c.q as int;
    lemma_product(b, q, 32767);
    let t = product_of(c, b);
    lemma_product(2 * t, q, 32767);
    if q == 17497 {
        assert(32767 * 17497int / 131072 == 4374);
    } else {
        assert(32767 * 19441int / 131072 == 4860);
    }
}

/// The forward transform keeps every intermediate in a lane, and its output is below `q`.
pub proof fn forward_fits(c: Caps)
    requires
        c.wf(),
    ensures
        forward_peak(c) <= 32767,
        forward_bound(c, 4) < c.q,
{
    lemma_lut(c);
    let q = c.q as int;
    let f = first_sum(c);
    if q == 17497 {
        assert(17497 * 17497int / 131072 == 2335);
        assert(f == 17497 + 2335 + 8749);
    } else {
        assert(19441 * 19441int / 131072 == 2883);
        assert(f == 19441 + 2883 + 9721);
    }
    lemma_product(f, q, 32767);
    if q == 17497 {
        assert(32767 * 17497int / 131072 == 4374);
    } else {
        assert(32767 * 19441int / 131072 == 4860);
    }
    let b0 = r2_out(c, f);
    lemma_product(b0, q, 32767);
    let n = r2_out(c, b0);
    lemma_butterfly(c, n);
    lemma_butterfly(c, forward_bound(c, 1));
    lemma_butterfly(c, forward_bound(c, 2));
    lemma_butterfly(c, forward_bound(c, 3));
}

/// Every lane goes through the lookup reduction to its largest magnitude.
proof fn lemma_settles(c: Caps, b: int)
    requires
        c.wf(),
    ensures
        lane::settles(1, b, c.lut as int, c.q as int),
{
    reveal(lane::settles);
}

/// The bound of the output is what the lookup reduction leaves.
proof fn lemma_output(c: Caps)
    requires
        c.wf(),
    ensures
        forward_bound(c, 4) == c.lut,
        2 * c.lut <= c.q + 2047,
        first_sum(c) <= 32767,
        c.lut + product_bound(first_sum(c), c.q as int) <= 32767,
{
    lemma_lut(c);
    forward_fits(c);
    let q = c.q as int;
    let f = first_sum(c);
    lemma_product(f, q, 32767);
    if q == 17497 {
        assert(32767 * 17497int / 131072 == 4374);
    } else {
        assert(32767 * 19441int / 131072 == 4860);
    }
    let b0 = r2_out(c, f);
    let n = r2_out(c, b0);
    lemma_product(b0, q, 32767);
    lemma_butterfly(c, n);
    lemma_butterfly(c, forward_bound(c, 1));
    lemma_butterfly(c, forward_bound(c, 2));
    let b3 = forward_bound(c, 3);
    reveal(r3_out);
    lemma_product(b3, q, 32767);
    let t = product_of(c, b3);
    lemma_product(2 * t, q, 32767);
}

/// The transform of one element whose coefficients have magnitude at most `q`, lazily reduced.
pub fn transform(c: &Caps, a: &[i16; 648]) -> (out: [i16; 648])
    requires
        c.wf(),
        network::within(a@, c.q as int),
    ensures
        params::tree_of(c.q).holds(
            network::residues(out@, c.q as u64),
            chunk::shorts(a@),
            1,
        ),
        network::within(out@, forward_bound(*c, 4)),
{
    let q: u16 = c.q;
    let t = params::limb_tree(q);
    let s = Sites { a: 1, t: 1, u: 1 };
    let ghost (m, r, x) = (q as int, c.lut as int, chunk::shorts(a@));
    let ghost f = first_sum(*c);
    let ghost f1 = r + product_bound(f, m);
    let ghost f2 = r + product_bound(f1, m);
    let ghost rrr = (r, r, r, 2 * r);
    proof {
        lemma_output(*c);
        network::lemma_product_fits(f, 32767, q);
        network::lemma_product_fits(f1, 32767, q);
        lane::product_bound_monotone(f1, 32767, m);
        if q == 17497 {
            assert(32767 * 17497int / 131072 == 4374);
        } else {
            assert(32767 * 19441int / 131072 == 4860);
        }
        lemma_settles(*c, f);
        lemma_settles(*c, f1);
        lemma_settles(*c, f2);
        lemma_settles(*c, product_bound(f2, m));
        lemma_settles(*c, product_bound(2 * r, m));
        lemma_settles(*c, 3 * r);
        lemma_settles(*c, product_bound(3 * r, m));
    }
    let v324 = network::first_products(&t, q, a, Ghost(m));
    let v162 = network::level2(&t, q, &v324, 324, 1, Ghost((f, r)));
    let v81 = network::level2(&t, q, &v162, 162, 1, Ghost((f1, r)));
    let v27 = network::level3(&t, q, &v81, 81, s, Ghost(f2), Ghost(rrr));
    let v9 = network::level3(&t, q, &v27, 27, s, Ghost(3 * r), Ghost(rrr));
    let v3 = network::level3(&t, q, &v9, 9, s, Ghost(3 * r), Ghost(rrr));
    let v1 = network::level3(&t, q, &v3, 3, s, Ghost(3 * r), Ghost(rrr));
    let out = network::reduce_all(q, &v1, 1, Ghost((3 * r, r)));
    proof {
        let n = t.q;
        tree::lemma_down(t, network::residues(v324@, n), network::residues(v162@, n), x, 324);
        assert(324int / 2 == 162);
        tree::lemma_down(t, network::residues(v162@, n), network::residues(v81@, n), x, 162);
        assert(162int / 2 == 81);
        tree::lemma_down(t, network::residues(v81@, n), network::residues(v27@, n), x, 81);
        assert(81int / 3 == 27);
        tree::lemma_down(t, network::residues(v27@, n), network::residues(v9@, n), x, 27);
        assert(27int / 3 == 9);
        tree::lemma_down(t, network::residues(v9@, n), network::residues(v3@, n), x, 9);
        assert(9int / 3 == 3);
        tree::lemma_down(t, network::residues(v3@, n), network::residues(v1@, n), x, 3);
        assert(3int / 3 == 1);
    }
    out
}

// ---------------------------------------------------------------------------------------------
// the inverse
// ---------------------------------------------------------------------------------------------

/// The outputs of an inverse radix-3 butterfly on lanes of magnitude `b`: the inputs and the product
/// by the cube root reduced, the untwiddled sum left.
#[verifier::opaque]
pub open spec fn ir3_out(c: Caps, b: int) -> int {
    let y = red(c, b);
    let u = product_of(c, 2 * y);
    larger(3 * y, product_bound(2 * y + u, c.q as int))
}

#[verifier::opaque]
pub open spec fn ir3_peak(c: Caps, b: int) -> int {
    let y = red(c, b);
    let u = product_of(c, 2 * y);
    larger(
        larger(product_bound(2 * y, c.q as int), 2 * y),
        larger(2 * y + u, ir3_out(c, b)),
    )
}

/// The outputs of an inverse radix-2 butterfly.
#[verifier::opaque]
pub open spec fn ir2_out(c: Caps, b: int) -> int {
    let y = red(c, b);
    larger(2 * y, product_bound(2 * y, c.q as int))
}

/// The bounds of the inverse transform after levels 6, 5, 4, 3, 2, 1 and 0.
pub open spec fn inverse_bound(c: Caps, i: int) -> int
    decreases i,
{
    if i <= 0 {
        ir3_out(c, (c.q - 1) / 2)
    } else if i <= 3 {
        ir3_out(c, inverse_bound(c, i - 1))
    } else if i <= 5 {
        ir2_out(c, inverse_bound(c, i - 1))
    } else {
        2 * product_bound(2 * red(c, inverse_bound(c, 5)), c.q as int)
    }
}

/// The largest intermediate of the inverse transform.
pub open spec fn inverse_peak(c: Caps) -> int {
    larger(
        larger(
            larger(ir3_peak(c, (c.q - 1) / 2), ir3_peak(c, inverse_bound(c, 0))),
            larger(ir3_peak(c, inverse_bound(c, 1)), ir3_peak(c, inverse_bound(c, 2))),
        ),
        larger(
            larger(inverse_bound(c, 4), inverse_bound(c, 5)),
            larger(2 * red(c, inverse_bound(c, 5)), inverse_bound(c, 6)),
        ),
    )
}

fn ir3(c: &Caps, b: i32) -> (r: (i32, i32))
    requires
        c.wf(),
        0 <= b,
    ensures
        r.0 == ir3_out(*c, b as int),
        r.1 == ir3_peak(*c, b as int),
        0 <= r.0,
{
    proof {
        reveal(ir3_out);
        reveal(ir3_peak);
    }
    let y: i32 = reduce(c, b);
    let p: i32 = lane::mont_bound(2 * y, c.q);
    let u: i32 = reduce(c, p);
    let a: i32 = lane::mont_bound(2 * y + u, c.q);
    let out: i32 = most(3 * y, a);
    (out, most(most(p, 2 * y), most(2 * y + u, out)))
}

fn ir2(c: &Caps, b: i32) -> (r: i32)
    requires
        c.wf(),
        0 <= b,
    ensures
        r == ir2_out(*c, b as int),
        0 <= r,
{
    proof {
        reveal(ir2_out);
    }
    let y: i32 = reduce(c, b);
    most(2 * y, lane::mont_bound(2 * y, c.q))
}

/// The inverse schedule replayed on bounds.
pub fn inv_model(c: &Caps) -> (r: ([i32; 7], i32))
    requires
        c.wf(),
    ensures
        forall|i: int| 0 <= i < 7 ==> (#[trigger] r.0@[i]) == inverse_bound(*c, i),
        r.1 == inverse_peak(*c),
{
    let (b0, p0): (i32, i32) = ir3(c, in_bound(c.q));
    let (b1, p1): (i32, i32) = ir3(c, b0);
    let (b2, p2): (i32, i32) = ir3(c, b1);
    let (b3, p3): (i32, i32) = ir3(c, b2);
    let b4: i32 = ir2(c, b3);
    let b5: i32 = ir2(c, b4);
    let y: i32 = reduce(c, b5);
    let b6: i32 = 2 * lane::mont_bound(2 * y, c.q);
    let peak: i32 = most(most(most(p0, p1), most(p2, p3)), most(most(b4, b5), most(2 * y, b6)));
    let lm: [i32; 7] = [b0, b1, b2, b3, b4, b5, b6];
    proof {
        assert(inverse_bound(*c, 0) == b0);
        assert(inverse_bound(*c, 1) == b1);
        assert(inverse_bound(*c, 2) == b2);
        assert(inverse_bound(*c, 3) == b3);
        assert(inverse_bound(*c, 4) == b4);
        assert(inverse_bound(*c, 5) == b5);
        assert(inverse_bound(*c, 6) == b6);
        assert(lm@[0] == b0 && lm@[1] == b1 && lm@[2] == b2 && lm@[3] == b3 && lm@[4] == b4
            && lm@[5] == b5 && lm@[6] == b6);
    }
    (lm, peak)
}

proof fn lemma_inverse_butterfly(c: Caps, b: int)
    requires
        c.wf(),
        0 <= b,
    ensures
        0 <= ir3_out(c, b) <= 32767,
        ir3_peak(c, b) <= 32767,
        0 <= ir2_out(c, b) <= 32767,
        2 * product_bound(2 * red(c, b), c.q as int) <= 32767,
        2 * red(c, b) <= 32767,
{
    reveal(ir3_out);
    reveal(ir3_peak);
    reveal(ir2_out);
    lemma_lut(c);
    let q = c.q as int;
    let y = red(c, b);
    lemma_product(2 * y, q, 21488);
    let u = product_of(c, 2 * y);
    lemma_product(2 * y + u, q, 32767);
    if q == 17497 {
        assert(32767 * 17497int / 131072 == 4374);
        assert(21488 * 17497int / 131072 == 2868);
    } else {
        assert(32767 * 19441int / 131072 == 4860);
        assert(21488 * 19441int / 131072 == 3187);
    }
}

/// The inverse transform keeps every intermediate in a lane.
pub proof fn inverse_fits(c: Caps)
    requires
        c.wf(),
    ensures
        inverse_peak(c) <= 32767,
{
    let q = c.q as int;
    lemma_inverse_butterfly(c, (c.q - 1) / 2);
    lemma_inverse_butterfly(c, inverse_bound(c, 0));
    lemma_inverse_butterfly(c, inverse_bound(c, 1));
    lemma_inverse_butterfly(c, inverse_bound(c, 2));
    assert(inverse_bound(c, 3) == ir3_out(c, inverse_bound(c, 2)));
    lemma_inverse_butterfly(c, inverse_bound(c, 3));
    assert(inverse_bound(c, 4) == ir2_out(c, inverse_bound(c, 3)));
    lemma_inverse_butterfly(c, inverse_bound(c, 4));
    assert(inverse_bound(c, 5) == ir2_out(c, inverse_bound(c, 4)));
    lemma_inverse_butterfly(c, inverse_bound(c, 5));
    assert(inverse_bound(c, 6) == 2 * product_bound(2 * red(c, inverse_bound(c, 5)), q));
}

} // verus!
