//! The forward transform of general elements at the quadratic-slot primes, the bounds of both
//! transforms, and where they reduce.
//!
//! A butterfly has inputs of one magnitude, so a level is a function of the largest lane before it.
//! A placement says at which sites a lane goes through the lookup reduction; the cheapest one that
//! keeps every intermediate in a lane is searched for.
use super::lane;
use super::lane::{abs, product_bound};
use super::network;
use super::network::Sites;
use super::schedule::larger;
use crate::ntt::tree;
use crate::params;
use crate::recursion::chunk;
use vstd::prelude::*;

verus! {

/// The placements of either transform: six sites.
pub const PLACEMENTS: usize = 64;

/// The largest magnitude the lookup reduction leaves at a prime.
#[derive(Clone, Copy, Debug)]
pub struct Cap {
    pub q: u16,
    pub lut: i32,
}

impl Cap {
    /// The magnitude is a bound that is reached.
    pub open spec fn wf(&self) -> bool {
        &&& self.q == 2917 || self.q == 4861 || self.q == 12637
        &&& 0 <= self.lut
        &&& 2 * self.lut <= self.q + 2047
        &&& forall|a: int|
            -32768 <= a < 32768 ==> abs(#[trigger] lane::lookup_reduced(a, self.q as int))
                <= self.lut
        &&& exists|a: int|
            -32768 <= a < 32768 && abs(#[trigger] lane::lookup_reduced(a, self.q as int))
                == self.lut
    }

    /// The magnitude at `q`, by going through every lane.
    pub fn of(q: u16) -> (c: Cap)
        requires
            q == 2917 || q == 4861 || q == 12637,
        ensures
            c.q == q,
            c.wf(),
    {
        let lut: i32 = lane::barrett_lut_max(q);
        let c = Cap { q, lut };
        proof {
            let a = choose|a: int|
                -32768 <= a < 32768 && abs(#[trigger] lane::lookup_reduced(a, q as int)) == lut;
            assert(abs(lane::lookup_reduced(a, c.q as int)) == c.lut);
        }
        c
    }
}

/// The value of bit `l` of a placement, `2^l`.
pub open spec fn weight(l: int) -> int {
    if l == 0 {
        1
    } else if l == 1 {
        2
    } else if l == 2 {
        4
    } else if l == 3 {
        8
    } else if l == 4 {
        16
    } else {
        32
    }
}

/// Is site `l` of the placement reduced?
pub open spec fn site(mask: int, l: int) -> bool {
    mask / weight(l) % 2 == 1
}

fn is_reduced(mask: usize, l: usize) -> (r: bool)
    requires
        l < 6,
    ensures
        r == site(mask as int, l as int),
{
    let w: usize = if l == 0 {
        1
    } else if l == 1 {
        2
    } else if l == 2 {
        4
    } else if l == 3 {
        8
    } else if l == 4 {
        16
    } else {
        32
    };
    mask / w % 2 == 1
}

fn most(a: i32, b: i32) -> (r: i32)
    ensures
        r == larger(a as int, b as int),
{
    if a > b {
        a
    } else {
        b
    }
}

// ---------------------------------------------------------------------------------------------
// the forward transform
// ---------------------------------------------------------------------------------------------

/// The bound past a site: what the reduction leaves, or `b`.
pub open spec fn past(c: Cap, b: int, on: bool) -> int {
    if on {
        c.lut as int
    } else {
        b
    }
}

/// The lanes after the first two levels, on inputs of magnitude `q`: `bi` reduces the two twiddled
/// inputs, `ba` the sum of an input, a twiddled input and its product.
#[verifier::opaque]
pub open spec fn first_out(c: Cap, bi: bool, ba: bool) -> int {
    let q = c.q as int;
    let a = past(c, q, bi);
    let t = product_bound(a, q);
    let s = past(c, q + a + t, ba);
    larger(q + t + product_bound(q + t, q), s + product_bound(s, q))
}

/// The largest intermediate of the first two levels.
#[verifier::opaque]
pub open spec fn first_peak(c: Cap, bi: bool, ba: bool) -> int {
    let q = c.q as int;
    let a = past(c, q, bi);
    let t = product_bound(a, q);
    larger(larger(q + t, q + a + t), first_out(c, bi, ba))
}

/// The lanes after a radix-3 level on lanes of magnitude `v`, the untwiddled input reduced or not.
#[verifier::opaque]
pub open spec fn level_out(c: Cap, v: int, on: bool) -> int {
    let q = c.q as int;
    let t = product_bound(v, q);
    let b = past(c, v, on);
    larger(b + 2 * t, b + t + product_bound(2 * t, q))
}

/// The largest intermediate of that level.
#[verifier::opaque]
pub open spec fn level_peak(c: Cap, v: int, on: bool) -> int {
    larger(2 * product_bound(v, c.q as int), level_out(c, v, on))
}

/// The lanes after the first two levels and `l` radix-3 levels.
pub open spec fn bound_after(c: Cap, bi: bool, ba: bool, bl: Seq<bool>, l: int) -> int
    decreases l,
{
    if l <= 0 {
        first_out(c, bi, ba)
    } else {
        level_out(c, bound_after(c, bi, ba, bl, l - 1), bl[l - 1])
    }
}

/// The largest intermediate of the first two levels and `l` radix-3 levels.
pub open spec fn peak_after(c: Cap, bi: bool, ba: bool, bl: Seq<bool>, l: int) -> int
    decreases l,
{
    if l <= 0 {
        first_peak(c, bi, ba)
    } else {
        larger(
            peak_after(c, bi, ba, bl, l - 1),
            level_peak(c, bound_after(c, bi, ba, bl, l - 1), bl[l - 1]),
        )
    }
}

fn pass(c: &Cap, b: i32, on: bool) -> (r: i32)
    requires
        c.wf(),
        0 <= b,
    ensures
        r == past(*c, b as int, on),
        0 <= r,
        r <= b || r <= 7342,
{
    if on {
        c.lut
    } else {
        b
    }
}

fn first_levels(c: &Cap, bi: bool, ba: bool) -> (r: (i32, i32))
    requires
        c.wf(),
    ensures
        r.0 == first_out(*c, bi, ba),
        r.1 == first_peak(*c, bi, ba),
        0 <= r.0 <= 100000,
{
    proof {
        reveal(first_out);
        reveal(first_peak);
    }
    let q: i32 = c.q as i32;
    let a: i32 = pass(c, q, bi);
    let t: i32 = lane::mont_bound(a, c.q);
    let s: i32 = pass(c, q + a + t, ba);
    let u: i32 = q + t + lane::mont_bound(q + t, c.q);
    let w: i32 = s + lane::mont_bound(s, c.q);
    let out: i32 = most(u, w);
    (out, most(most(q + t, q + a + t), out))
}

fn level(c: &Cap, v: i32, on: bool) -> (r: (i32, i32))
    requires
        c.wf(),
        0 <= v <= 0x10_0000,
    ensures
        r.0 == level_out(*c, v as int, on),
        r.1 == level_peak(*c, v as int, on),
        0 <= r.0 <= v + v / 2 + 50000,
{
    proof {
        reveal(level_out);
        reveal(level_peak);
    }
    let t: i32 = lane::mont_bound(v, c.q);
    let b: i32 = pass(c, v, on);
    let u: i32 = lane::mont_bound(2 * t, c.q);
    let out: i32 = most(b + 2 * t, b + t + u);
    (out, most(2 * t, out))
}

/// The forward schedule replayed on bounds: the lanes after levels 0 and 1 and after each of the
/// radix-3 levels, and the largest intermediate. `bi` reduces the twiddled inputs of the first pass,
/// `ba` its sums, `bl[l]` the untwiddled input of level `2 + l`.
pub fn gen_model(c: &Cap, bi: bool, ba: bool, bl: [bool; 4]) -> (r: ([i32; 5], i32))
    requires
        c.wf(),
    ensures
        forall|i: int|
            0 <= i < 5 ==> (#[trigger] r.0@[i]) == bound_after(*c, bi, ba, bl@, i) && r.0@[i] >= 0,
        r.1 == peak_after(*c, bi, ba, bl@, 4),
{
    let (b0, p0): (i32, i32) = first_levels(c, bi, ba);
    let (b1, p1): (i32, i32) = level(c, b0, bl[0]);
    let (b2, p2): (i32, i32) = level(c, b1, bl[1]);
    let (b3, p3): (i32, i32) = level(c, b2, bl[2]);
    let (b4, p4): (i32, i32) = level(c, b3, bl[3]);
    let lm: [i32; 5] = [b0, b1, b2, b3, b4];
    proof {
        assert(bound_after(*c, bi, ba, bl@, 0) == b0);
        assert(bound_after(*c, bi, ba, bl@, 1) == b1);
        assert(bound_after(*c, bi, ba, bl@, 2) == b2);
        assert(bound_after(*c, bi, ba, bl@, 3) == b3);
        assert(bound_after(*c, bi, ba, bl@, 4) == b4);
        assert(peak_after(*c, bi, ba, bl@, 0) == p0);
        assert(peak_after(*c, bi, ba, bl@, 1) == larger(p0 as int, p1 as int));
        reveal_with_fuel(peak_after, 5);
        assert(lm@[0] == b0 && lm@[1] == b1 && lm@[2] == b2 && lm@[3] == b3 && lm@[4] == b4);
    }
    (lm, most(most(most(most(p0, p1), p2), p3), p4))
}

/// The radix-3 levels that a placement reduces.
pub open spec fn levels_of(mask: int) -> Seq<bool> {
    seq![site(mask, 2), site(mask, 3), site(mask, 4), site(mask, 5)]
}

/// The placement keeps every intermediate in a lane.
pub open spec fn fits(c: Cap, mask: int) -> bool {
    peak_after(c, site(mask, 0), site(mask, 1), levels_of(mask), 4) <= 32767
}

/// The largest lane a placement leaves.
pub open spec fn left_by(c: Cap, mask: int) -> int {
    bound_after(c, site(mask, 0), site(mask, 1), levels_of(mask), 4)
}

/// `n` reductions where a site is on.
pub open spec fn cost_if(on: bool, n: int) -> int {
    if on {
        n
    } else {
        0
    }
}

/// The reductions of a placement: 324 for each site of the first pass, 216 for each radix-3 level.
pub open spec fn cost(mask: int) -> int {
    cost_if(site(mask, 0), 324) + cost_if(site(mask, 1), 324) + cost_if(site(mask, 2), 216)
        + cost_if(site(mask, 3), 216) + cost_if(site(mask, 4), 216) + cost_if(site(mask, 5), 216)
}

/// The placement `a` is cheaper than `b`, or as cheap with the tighter output.
pub open spec fn better(c: Cap, a: int, b: int) -> bool {
    cost(a) < cost(b) || (cost(a) == cost(b) && left_by(c, a) < left_by(c, b))
}

/// `mask` is the first of the best placements among the first `n`.
pub open spec fn is_best(c: Cap, mask: int, n: int) -> bool {
    &&& 0 <= mask < n
    &&& fits(c, mask)
    &&& forall|j: int| 0 <= j < n && #[trigger] fits(c, j) ==> !better(c, j, mask)
    &&& forall|j: int| 0 <= j < mask && #[trigger] fits(c, j) ==> better(c, mask, j)
}

fn count(on: bool, n: u32) -> (r: u32)
    ensures
        r == cost_if(on, n as int),
        r <= n,
{
    if on {
        n
    } else {
        0
    }
}

/// Everything reduced keeps every intermediate in a lane.
proof fn lemma_all_fit(c: Cap)
    requires
        c.wf(),
    ensures
        fits(c, 63),
{
    assert(site(63, 0) && site(63, 1) && site(63, 2) && site(63, 3) && site(63, 4) && site(63, 5));
    reveal(first_out);
    reveal(first_peak);
    lemma_product(c, c.lut as int, 7342);
    let q = c.q as int;
    lemma_product(c, q + product_bound(c.lut as int, q), 19663);
    let bl = levels_of(63);
    assert(bl[0] && bl[1] && bl[2] && bl[3]);
    lemma_level_fits(c, bound_after(c, true, true, bl, 0));
    lemma_level_fits(c, bound_after(c, true, true, bl, 1));
    lemma_level_fits(c, bound_after(c, true, true, bl, 2));
    lemma_level_fits(c, bound_after(c, true, true, bl, 3));
    reveal_with_fuel(peak_after, 5);
}

/// The products of lanes of magnitude at most `hi`, at the largest of the primes.
proof fn lemma_product(c: Cap, b: int, hi: int)
    requires
        c.wf(),
        0 <= b <= hi,
    ensures
        (c.q + 1) / 2 <= product_bound(b, c.q as int) <= hi * 12637 / 131072 + 6319,
{
    let q = c.q as int;
    lane::product_bound_monotone(b, hi, q);
    assert(0 <= b * q) by (nonlinear_arith)
        requires
            0 <= b,
            0 < q,
    ;
    assert(hi * q <= hi * 12637) by (nonlinear_arith)
        requires
            0 <= hi,
            q <= 12637,
    ;
    vstd::arithmetic::div_mod::lemma_div_is_ordered(hi * q, hi * 12637, 131072);
}

proof fn lemma_level_fits(c: Cap, v: int)
    requires
        c.wf(),
        0 <= v <= 27877,
    ensures
        0 <= level_out(c, v, true) <= 27877,
        level_peak(c, v, true) <= 32767,
{
    reveal(level_out);
    reveal(level_peak);
    lemma_product(c, v, 27877);
    let t = product_bound(v, c.q as int);
    lemma_product(c, 2 * t, 18012);
}

fn best_placement(c: &Cap) -> (mask: usize)
    requires
        c.wf(),
    ensures
        is_best(*c, mask as int, 64),
{
    let mut best: usize = PLACEMENTS;
    let mut cheapest: u32 = 0;
    let mut tightest: i32 = 0;
    let mut mask: usize = 0;
    while mask < PLACEMENTS
        invariant
            mask <= PLACEMENTS,
            c.wf(),
            best == PLACEMENTS ==> forall|j: int| 0 <= j < mask ==> !#[trigger] fits(*c, j),
            best != PLACEMENTS ==> {
                &&& is_best(*c, best as int, mask as int)
                &&& cheapest == cost(best as int)
                &&& tightest == left_by(*c, best as int)
            },
        decreases PLACEMENTS - mask,
    {
        let (bi, ba): (bool, bool) = (is_reduced(mask, 0), is_reduced(mask, 1));
        let bl: [bool; 4] = [
            is_reduced(mask, 2),
            is_reduced(mask, 3),
            is_reduced(mask, 4),
            is_reduced(mask, 5),
        ];
        assert(bl@ =~= levels_of(mask as int));
        let k: u32 = count(bi, 324) + count(ba, 324) + count(bl[0], 216) + count(bl[1], 216)
            + count(bl[2], 216) + count(bl[3], 216);
        let (lm, peak): ([i32; 5], i32) = gen_model(c, bi, ba, bl);
        let out: i32 = lm[4];
        assert(out == left_by(*c, mask as int));
        assert(k == cost(mask as int));
        assert(fits(*c, mask as int) == (peak <= 32767));
        if peak <= 32767 && (best == PLACEMENTS || k < cheapest || (k == cheapest && out
            < tightest)) {
            best = mask;
            cheapest = k;
            tightest = out;
        }
        mask += 1;
    }
    proof {
        lemma_all_fit(*c);
        assert(fits(*c, 63));
    }
    best
}

/// The flags are those of the placement.
pub open spec fn is_placement(f: (bool, bool, [bool; 4]), mask: int) -> bool {
    f.0 == site(mask, 0) && f.1 == site(mask, 1) && f.2@ == levels_of(mask)
}

/// The cheapest placement of reductions that keeps every intermediate of the forward transform in a
/// lane; ties on cost go to the tighter output, and then to the first tried.
pub fn gen_flags(c: &Cap) -> (f: (bool, bool, [bool; 4]))
    requires
        c.wf(),
    ensures
        exists|mask: int| #[trigger] is_best(*c, mask, 64) && is_placement(f, mask),
        peak_after(*c, f.0, f.1, f.2@, 4) <= 32767,
{
    let mask: usize = best_placement(c);
    let bl: [bool; 4] = [
        is_reduced(mask, 2),
        is_reduced(mask, 3),
        is_reduced(mask, 4),
        is_reduced(mask, 5),
    ];
    let f: (bool, bool, [bool; 4]) = (is_reduced(mask, 0), is_reduced(mask, 1), bl);
    assert(bl@ =~= levels_of(mask as int));
    assert(is_placement(f, mask as int));
    f
}

/// `out` is the output bound of the best placement.
pub open spec fn leaves(c: Cap, out: int) -> bool {
    exists|mask: int| #[trigger] is_best(c, mask, 64) && out == left_by(c, mask)
}

/// The largest lane the forward transform leaves.
pub fn output_bound(c: &Cap) -> (b: i32)
    requires
        c.wf(),
    ensures
        leaves(*c, b as int),
        0 <= b <= 32767,
{
    let (bi, ba, bl): (bool, bool, [bool; 4]) = gen_flags(c);
    let (lm, _): ([i32; 5], i32) = gen_model(c, bi, ba, bl);
    let b: i32 = lm[4];
    proof {
        let mask = choose|mask: int| #[trigger]
            is_best(*c, mask, 64) && is_placement((bi, ba, bl), mask);
        assert(b == left_by(*c, mask));
        reveal(level_out);
        reveal(level_peak);
        assert(bound_after(*c, bi, ba, bl@, 4) == level_out(
            *c,
            bound_after(*c, bi, ba, bl@, 3),
            bl@[3],
        ));
        assert(level_peak(*c, bound_after(*c, bi, ba, bl@, 3), bl@[3]) <= peak_after(
            *c,
            bi,
            ba,
            bl@,
            4,
        ));
        assert(b <= 32767);
    }
    b
}

/// The output of the forward transform under its placement stays in a lane.
pub proof fn forward_fits(c: Cap, mask: int)
    requires
        is_best(c, mask, 64),
    ensures
        peak_after(c, site(mask, 0), site(mask, 1), levels_of(mask), 4) <= 32767,
        left_by(c, mask) <= 32767,
{
    let bl = levels_of(mask);
    reveal(level_peak);
    assert(left_by(c, mask) == level_out(
        c,
        bound_after(c, site(mask, 0), site(mask, 1), bl, 3),
        bl[3],
    ));
}

/// The site of a flag.
fn kind(on: bool) -> (k: u8)
    ensures
        k == kind_of(on),
{
    if on {
        1
    } else {
        0
    }
}

/// The lookup reduction where the flag is set.
spec fn kind_of(on: bool) -> u8 {
    if on {
        1u8
    } else {
        0u8
    }
}

proof fn lemma_settles(c: Cap, on: bool, b: int)
    requires
        c.wf(),
    ensures
        lane::settles(kind_of(on), b, past(c, b, on), c.q as int),
        lane::settles(0, b, b, c.q as int),
{
    reveal(lane::settles);
}

/// A level of the schedule in terms of what its sites leave.
proof fn lemma_level_sites(c: Cap, v: int, on: bool) -> (r: (int, int, int, int))
    requires
        c.wf(),
        0 <= v <= 32768,
        level_peak(c, v, on) <= 32767,
    ensures
        (Sites { a: kind_of(on), t: 0, u: 0 }).keeps(
            c.q as int,
            v,
            product_bound(v, c.q as int),
            r,
        ),
        2 * r.1 <= r.3,
        network::summed(r) == level_out(c, v, on),
        0 <= level_out(c, v, on) <= 32767,
{
    reveal(level_out);
    reveal(level_peak);
    let q = c.q as int;
    let t = product_bound(v, q);
    network::lemma_product_fits(v, 32768, c.q);
    network::lemma_product_fits(2 * t, 32768, c.q);
    lemma_settles(c, on, v);
    lemma_settles(c, false, t);
    lemma_settles(c, false, product_bound(2 * t, q));
    (past(c, v, on), t, product_bound(2 * t, q), 2 * t)
}

/// The first two levels of the schedule in terms of what their sites leave.
proof fn lemma_first_sites(c: Cap, bi: bool, ba: bool) -> (r: (int, int))
    requires
        c.wf(),
        first_peak(c, bi, ba) <= 32767,
    ensures
        ({
            let q = c.q as int;
            let p = product_bound(r.0, q);
            let top = larger(q + p, r.1);
            &&& lane::settles(kind_of(bi), q, r.0, q)
            &&& lane::settles(kind_of(ba), q + r.0 + p, r.1, q)
            &&& lane::settles(0, top, top, q)
            &&& 0 <= r.0 <= 32768
            &&& q + r.0 + p <= 32767
            &&& 0 <= top <= 32768
            &&& top + product_bound(top, q) == first_out(c, bi, ba)
            &&& 0 <= first_out(c, bi, ba) <= 32767
        }),
{
    reveal(first_out);
    reveal(first_peak);
    let q = c.q as int;
    let a = past(c, q, bi);
    let t = product_bound(a, q);
    let s = past(c, q + a + t, ba);
    network::lemma_product_fits(a, 32768, c.q);
    lemma_settles(c, bi, q);
    lemma_settles(c, ba, q + a + t);
    let top = larger(q + t, s);
    lemma_settles(c, false, top);
    network::lemma_product_fits(top, 32768, c.q);
    lane::product_bound_monotone(q + t, top, q);
    lane::product_bound_monotone(s, top, q);
    (a, s)
}

/// The transform of one element whose coefficients have magnitude at most `q`, lazily reduced.
pub fn transform(c: &Cap, f: &(bool, bool, [bool; 4]), a: &[i16; 648]) -> (out: [i16; 648])
    requires
        c.wf(),
        peak_after(*c, f.0, f.1, f.2@, 4) <= 32767,
        network::within(a@, c.q as int),
    ensures
        params::tree_of(c.q).holds(
            network::residues(out@, c.q as u64),
            chunk::shorts(a@),
            1,
        ),
        network::within(out@, bound_after(*c, f.0, f.1, f.2@, 4)),
{
    let q: u16 = c.q;
    let t = params::limb_tree(q);
    let (bi, ba): (u8, u8) = (kind(f.0), kind(f.1));
    let s0 = Sites { a: kind(f.2[0]), t: 0, u: 0 };
    let s1 = Sites { a: kind(f.2[1]), t: 0, u: 0 };
    let s2 = Sites { a: kind(f.2[2]), t: 0, u: 0 };
    let s3 = Sites { a: kind(f.2[3]), t: 0, u: 0 };
    let ghost (m, x, bl) = (q as int, chunk::shorts(a@), f.2@);
    let ghost b0 = bound_after(*c, f.0, f.1, bl, 0);
    let ghost b1 = bound_after(*c, f.0, f.1, bl, 1);
    let ghost b2 = bound_after(*c, f.0, f.1, bl, 2);
    let ghost b3 = bound_after(*c, f.0, f.1, bl, 3);
    proof {
        reveal_with_fuel(peak_after, 5);
        reveal_with_fuel(bound_after, 5);
    }
    let ghost r = lemma_first_sites(*c, f.0, f.1);
    let ghost r0 = lemma_level_sites(*c, b0, bl[0]);
    let ghost r1 = lemma_level_sites(*c, b1, bl[1]);
    let ghost r2 = lemma_level_sites(*c, b2, bl[2]);
    let ghost r3 = lemma_level_sites(*c, b3, bl[3]);
    let ghost top = larger(m + product_bound(r.0, m), r.1);
    let v162 = network::first_sums(&t, q, a, bi, ba, Ghost(m), Ghost(r));
    let v81 = network::level2(&t, q, &v162, 162, 0, Ghost((top, top)));
    let v27 = network::level3(&t, q, &v81, 81, s0, Ghost(b0), Ghost(r0));
    let v9 = network::level3(&t, q, &v27, 27, s1, Ghost(b1), Ghost(r1));
    let v3 = network::level3(&t, q, &v9, 9, s2, Ghost(b2), Ghost(r2));
    let v1 = network::level3(&t, q, &v3, 3, s3, Ghost(b3), Ghost(r3));
    proof {
        let n = t.q;
        tree::lemma_down(t, network::residues(v162@, n), network::residues(v81@, n), x, 162);
        assert(162int / 2 == 81);
        tree::lemma_down(t, network::residues(v81@, n), network::residues(v27@, n), x, 81);
        assert(81int / 3 == 27);
        tree::lemma_down(t, network::residues(v27@, n), network::residues(v9@, n), x, 27);
        assert(27int / 3 == 9);
        tree::lemma_down(t, network::residues(v9@, n), network::residues(v3@, n), x, 9);
        assert(9int / 3 == 3);
        tree::lemma_down(t, network::residues(v3@, n), network::residues(v1@, n), x, 3);
        assert(3int / 3 == 1);
    }
    v1
}

/// The magnitude of a prime is determined by it, and the best placements leave one bound.
pub proof fn bound_unique(a: Cap, b: Cap, f: (bool, bool, [bool; 4]), mask: int, out: int)
    requires
        a.wf(),
        b.wf(),
        a.q == b.q,
        is_best(a, mask, 64),
        is_placement(f, mask),
        leaves(b, out),
    ensures
        a == b,
        out == bound_after(a, f.0, f.1, f.2@, 4),
{
    let x = choose|x: int|
        -32768 <= x < 32768 && abs(#[trigger] lane::lookup_reduced(x, a.q as int)) == a.lut;
    let y = choose|y: int|
        -32768 <= y < 32768 && abs(#[trigger] lane::lookup_reduced(y, b.q as int)) == b.lut;
    assert(abs(lane::lookup_reduced(x, b.q as int)) <= b.lut);
    assert(abs(lane::lookup_reduced(y, a.q as int)) <= a.lut);
    let other = choose|other: int| #[trigger] is_best(b, other, 64) && out == left_by(b, other);
    assert(fits(a, other) && fits(a, mask));
    assert(!better(a, other, mask) && !better(a, mask, other));
}

// ---------------------------------------------------------------------------------------------
// the inverse transform
// ---------------------------------------------------------------------------------------------

/// The bound carried past a site of the inverse: the smaller of `b` and what the reduction leaves.
pub open spec fn carried(c: Cap, b: int, on: bool) -> int {
    if on && c.lut < b {
        c.lut as int
    } else {
        b
    }
}

/// The lanes after an inverse radix-3 level on lanes of magnitude `y`, the untwiddled sum reduced or
/// not.
#[verifier::opaque]
pub open spec fn inverse_out(c: Cap, y: int, on: bool) -> int {
    let q = c.q as int;
    larger(
        carried(c, 3 * y, on),
        product_bound(2 * y + product_bound(2 * y, q), q),
    )
}

/// The largest intermediate of that level.
#[verifier::opaque]
pub open spec fn inverse_peak(c: Cap, y: int) -> int {
    larger(3 * y, 2 * y + product_bound(2 * y, c.q as int))
}

/// The lanes after the inverse radix-2 level.
#[verifier::opaque]
pub open spec fn inverse_pair(c: Cap, y: int, on: bool) -> int {
    larger(carried(c, 2 * y, on), product_bound(2 * y, c.q as int))
}

/// The lanes of the inverse transform on inputs of magnitude `b`, after level `5 - l`; level 0 before
/// it is centred. The sites are the inputs of level 5 and the sums of levels 5, 4, 3, 2 and 1.
pub open spec fn inverse_after(c: Cap, b: int, f: Seq<bool>, l: int) -> int
    decreases l,
{
    if l <= 0 {
        inverse_out(c, carried(c, b, f[0]), f[1])
    } else if l <= 3 {
        inverse_out(c, inverse_after(c, b, f, l - 1), f[l + 1])
    } else if l == 4 {
        inverse_pair(c, inverse_after(c, b, f, 3), f[5])
    } else {
        2 * product_bound(2 * inverse_after(c, b, f, 4), c.q as int)
    }
}

/// The largest intermediate of the inverse transform.
pub open spec fn inverse_largest(c: Cap, b: int, f: Seq<bool>) -> int {
    larger(
        larger(
            larger(
                inverse_peak(c, carried(c, b, f[0])),
                inverse_peak(c, inverse_after(c, b, f, 0)),
            ),
            larger(
                inverse_peak(c, inverse_after(c, b, f, 1)),
                inverse_peak(c, inverse_after(c, b, f, 2)),
            ),
        ),
        larger(
            2 * inverse_after(c, b, f, 3),
            larger(2 * inverse_after(c, b, f, 4), inverse_after(c, b, f, 5)),
        ),
    )
}

fn carry(c: &Cap, b: i32, on: bool) -> (r: i32)
    requires
        c.wf(),
        0 <= b,
    ensures
        r == carried(*c, b as int, on),
        0 <= r <= b,
{
    if on && c.lut < b {
        c.lut
    } else {
        b
    }
}

fn inverse_level(c: &Cap, y: i32, on: bool) -> (r: (i32, i32))
    requires
        c.wf(),
        0 <= y <= 0x40_0000,
    ensures
        r.0 == inverse_out(*c, y as int, on),
        r.1 == inverse_peak(*c, y as int),
        0 <= r.0 <= 3 * y + 32768,
{
    proof {
        reveal(inverse_out);
        reveal(inverse_peak);
    }
    let x: i32 = 2 * y + lane::mont_bound(2 * y, c.q);
    let out: i32 = most(carry(c, 3 * y, on), lane::mont_bound(x, c.q));
    (out, most(3 * y, x))
}

/// The inverse schedule replayed on bounds, on inputs of magnitude `b`: the lanes after levels 5, 4,
/// 3, 2, 1 and 0, and the largest intermediate. The sites are the inputs of level 5 and the sums of
/// levels 5, 4, 3, 2 and 1.
pub fn inv_model(c: &Cap, b: i32, f: [bool; 6]) -> (r: ([i32; 6], i32))
    requires
        c.wf(),
        0 <= b <= 32767,
    ensures
        forall|i: int| 0 <= i < 6 ==> (#[trigger] r.0@[i]) == inverse_after(*c, b as int, f@, i),
        r.1 == inverse_largest(*c, b as int, f@),
{
    let (b0, p0): (i32, i32) = inverse_level(c, carry(c, b, f[0]), f[1]);
    let (b1, p1): (i32, i32) = inverse_level(c, b0, f[2]);
    let (b2, p2): (i32, i32) = inverse_level(c, b1, f[3]);
    let (b3, p3): (i32, i32) = inverse_level(c, b2, f[4]);
    proof {
        reveal(inverse_pair);
    }
    let b4: i32 = most(carry(c, 2 * b3, f[5]), lane::mont_bound(2 * b3, c.q));
    let b5: i32 = 2 * lane::mont_bound(2 * b4, c.q);
    let lm: [i32; 6] = [b0, b1, b2, b3, b4, b5];
    proof {
        let (x, g) = (b as int, f@);
        assert(inverse_after(*c, x, g, 0) == b0);
        assert(inverse_after(*c, x, g, 1) == b1);
        assert(inverse_after(*c, x, g, 2) == b2);
        assert(inverse_after(*c, x, g, 3) == b3);
        assert(inverse_after(*c, x, g, 4) == b4);
        assert(inverse_after(*c, x, g, 5) == b5);
        assert(lm@[0] == b0 && lm@[1] == b1 && lm@[2] == b2 && lm@[3] == b3 && lm@[4] == b4
            && lm@[5] == b5);
    }
    (lm, most(most(most(p0, p1), most(p2, p3)), most(2 * b3, most(2 * b4, b5))))
}

/// The six sites of a placement.
pub open spec fn sites_of(mask: int) -> Seq<bool> {
    seq![
        site(mask, 0),
        site(mask, 1),
        site(mask, 2),
        site(mask, 3),
        site(mask, 4),
        site(mask, 5),
    ]
}

/// Every intermediate stays in a lane, and the lanes before they are centred stay in `3 q / 2`.
#[verifier::opaque]
pub open spec fn inverse_fits(c: Cap, b: int, mask: int) -> bool {
    &&& inverse_largest(c, b, sites_of(mask)) <= 32767
    &&& inverse_after(c, b, sites_of(mask), 5) <= c.q + (c.q - 1) / 2
}

/// The reductions of a placement of the inverse: 648 for the inputs of level 5, 216 for the sums of a
/// radix-3 level, 324 for those of level 1.
pub open spec fn inverse_cost(mask: int) -> int {
    cost_if(site(mask, 0), 648) + cost_if(site(mask, 1), 216) + cost_if(site(mask, 2), 216)
        + cost_if(site(mask, 3), 216) + cost_if(site(mask, 4), 216) + cost_if(site(mask, 5), 324)
}

/// `mask` is the first of the cheapest placements among the first `n`.
pub open spec fn is_cheapest(c: Cap, b: int, mask: int, n: int) -> bool {
    &&& 0 <= mask < n
    &&& inverse_fits(c, b, mask)
    &&& forall|j: int|
        0 <= j < n && #[trigger] inverse_fits(c, b, j) ==> inverse_cost(mask) <= inverse_cost(j)
    &&& forall|j: int|
        0 <= j < mask && #[trigger] inverse_fits(c, b, j) ==> inverse_cost(mask) < inverse_cost(j)
}

/// The lanes that a fully reduced level keeps to.
spec fn kept(c: Cap) -> int {
    if c.q == 2917 {
        2482
    } else if c.q == 4861 {
        3454
    } else {
        9000
    }
}

proof fn lemma_inverse_level(c: Cap, y: int)
    requires
        c.wf(),
        0 <= y <= kept(c),
    ensures
        0 <= inverse_out(c, y, true) <= kept(c),
        inverse_peak(c, y) <= 32767,
        0 <= inverse_pair(c, y, true) <= kept(c),
        2 * product_bound(2 * y, c.q as int) <= c.q + (c.q - 1) / 2,
{
    reveal(inverse_out);
    reveal(inverse_peak);
    reveal(inverse_pair);
    let q = c.q as int;
    let k = kept(c);
    lane::product_bound_monotone(2 * y, 2 * k, q);
    lane::product_bound_monotone(0, 2 * y, q);
    let x = 2 * y + product_bound(2 * y, q);
    let top = 2 * k + product_bound(2 * k, q);
    lane::product_bound_monotone(x, top, q);
    lane::product_bound_monotone(0, x, q);
    if q == 2917 {
        assert(product_bound(2 * k, q) == 4964 * 2917 / 131072 + 1459);
        assert(product_bound(top, q) == 6533 * 2917 / 131072 + 1459);
    } else if q == 4861 {
        assert(product_bound(2 * k, q) == 6908 * 4861 / 131072 + 2431);
        assert(product_bound(top, q) == 9595 * 4861 / 131072 + 2431);
    } else {
        assert(product_bound(2 * k, q) == 18000 * 12637 / 131072 + 6319);
        assert(product_bound(top, q) == 26054 * 12637 / 131072 + 6319);
    }
}

/// Everything reduced fits.
proof fn lemma_inverse_all_fit(c: Cap, b: int)
    requires
        c.wf(),
        0 <= b,
    ensures
        inverse_fits(c, b, 63),
{
    reveal(inverse_fits);
    let f = sites_of(63);
    assert(site(63, 0) && site(63, 1) && site(63, 2) && site(63, 3) && site(63, 4) && site(63, 5));
    assert(f[0] && f[1] && f[2] && f[3] && f[4] && f[5]);
    lemma_inverse_level(c, carried(c, b, true));
    assert(inverse_after(c, b, f, 0) == inverse_out(c, carried(c, b, true), true));
    lemma_inverse_level(c, inverse_after(c, b, f, 0));
    assert(inverse_after(c, b, f, 1) == inverse_out(c, inverse_after(c, b, f, 0), true));
    lemma_inverse_level(c, inverse_after(c, b, f, 1));
    assert(inverse_after(c, b, f, 2) == inverse_out(c, inverse_after(c, b, f, 1), true));
    lemma_inverse_level(c, inverse_after(c, b, f, 2));
    assert(inverse_after(c, b, f, 3) == inverse_out(c, inverse_after(c, b, f, 2), true));
    lemma_inverse_level(c, inverse_after(c, b, f, 3));
    assert(inverse_after(c, b, f, 4) == inverse_pair(c, inverse_after(c, b, f, 3), true));
    lemma_inverse_level(c, inverse_after(c, b, f, 4));
    assert(inverse_after(c, b, f, 5) == 2 * product_bound(
        2 * inverse_after(c, b, f, 4),
        c.q as int,
    ));
}

fn sites(mask: usize) -> (f: [bool; 6])
    ensures
        f@ == sites_of(mask as int),
{
    let f: [bool; 6] = [
        is_reduced(mask, 0),
        is_reduced(mask, 1),
        is_reduced(mask, 2),
        is_reduced(mask, 3),
        is_reduced(mask, 4),
        is_reduced(mask, 5),
    ];
    assert(f@ =~= sites_of(mask as int));
    f
}

/// The cheapest placement of reductions that keeps every intermediate of the inverse transform in a
/// lane and its lanes in the range that centring inverts, on inputs of magnitude `b`; the first tried
/// where several are as cheap.
pub fn inv_flags(c: &Cap, b: i32) -> (f: [bool; 6])
    requires
        c.wf(),
        0 <= b <= 32767,
    ensures
        exists|mask: int| #[trigger] is_cheapest(*c, b as int, mask, 64) && f@ == sites_of(mask),
{
    let mut best: usize = PLACEMENTS;
    let mut cheapest: u32 = 0;
    let mut mask: usize = 0;
    while mask < PLACEMENTS
        invariant
            mask <= PLACEMENTS,
            c.wf(),
            0 <= b <= 32767,
            best == PLACEMENTS ==> forall|j: int|
                0 <= j < mask ==> !#[trigger] inverse_fits(*c, b as int, j),
            best != PLACEMENTS ==> {
                &&& is_cheapest(*c, b as int, best as int, mask as int)
                &&& cheapest == inverse_cost(best as int)
            },
        decreases PLACEMENTS - mask,
    {
        let f = sites(mask);
        let k: u32 = count(f[0], 648) + count(f[1], 216) + count(f[2], 216) + count(f[3], 216)
            + count(f[4], 216) + count(f[5], 324);
        let (lm, peak): ([i32; 6], i32) = inv_model(c, b, f);
        let q: i32 = c.q as i32;
        let last: i32 = lm[5];
        assert(last == inverse_after(*c, b as int, f@, 5));
        assert(k == inverse_cost(mask as int));
        assert(inverse_fits(*c, b as int, mask as int) == (peak <= 32767 && last <= q + (q - 1)
            / 2)) by {
            reveal(inverse_fits);
        }
        if peak <= 32767 && last <= q + (q - 1) / 2 && (best == PLACEMENTS || k < cheapest) {
            best = mask;
            cheapest = k;
        }
        mask += 1;
    }
    proof {
        lemma_inverse_all_fit(*c, b as int);
        assert(inverse_fits(*c, b as int, 63));
    }
    sites(best)
}

/// The magnitude of the lanes the inverse transform takes: the output of the forward one, the wider
/// of the transforms on this tree.
pub fn in_bound(c: &Cap) -> (b: i32)
    requires
        c.wf(),
    ensures
        leaves(*c, b as int),
        0 <= b <= 32767,
{
    output_bound(c)
}

/// The bounds of the inverse transform on inputs of magnitude `b` under its placement: after levels
/// 5, 4, 3, 2, 1 and 0 before it is centred.
pub fn inv_bound(c: &Cap, b: i32) -> (lm: [i32; 6])
    requires
        c.wf(),
        0 <= b <= 32767,
    ensures
        exists|mask: int| #[trigger]
            is_cheapest(*c, b as int, mask, 64) && forall|i: int|
                0 <= i < 6 ==> (#[trigger] lm@[i]) == inverse_after(
                    *c,
                    b as int,
                    sites_of(mask),
                    i,
                ),
{
    let f = inv_flags(c, b);
    let (lm, _): ([i32; 6], i32) = inv_model(c, b, f);
    lm
}

} // verus!
