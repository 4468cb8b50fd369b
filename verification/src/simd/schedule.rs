//! Where the binary transform of a large prime reduces: the bound recursion over its four radix-3
//! levels, and the cheapest placement of reductions that keeps every intermediate in a lane.
//!
//! A level has three sites, the untwiddled input, the two twiddle products and the product by the
//! cube root of unity, and each takes one of two reductions or none.
use super::lane;
use super::lane::{abs, product_bound};
use vstd::prelude::*;

verus! {

/// The placements there are: a base-3 word of 12 digits, digit `3 l + i` the reduction of level
/// `3 + l` at site `i`.
pub const SCHEDULES: u32 = 531441;

/// No reduction.
pub const RED_NONE: u8 = 0;

/// The lookup reduction.
pub const RED_LUT: u8 = 1;

/// The multiplying reduction.
pub const RED_MUL: u8 = 2;

/// `3^n` for `n < 12`.
pub open spec fn pow3(n: int) -> int {
    if n == 0 {
        1
    } else if n == 1 {
        3
    } else if n == 2 {
        9
    } else if n == 3 {
        27
    } else if n == 4 {
        81
    } else if n == 5 {
        243
    } else if n == 6 {
        729
    } else if n == 7 {
        2187
    } else if n == 8 {
        6561
    } else if n == 9 {
        19683
    } else if n == 10 {
        59049
    } else {
        177147
    }
}

/// The reduction of level `3 + l` at site `i`.
pub open spec fn kind(code: int, l: int, i: int) -> int {
    code / pow3(3 * l + i) % 3
}

fn power3(n: usize) -> (p: u32)
    requires
        n < 12,
    ensures
        p == pow3(n as int),
{
    if n == 0 {
        1
    } else if n == 1 {
        3
    } else if n == 2 {
        9
    } else if n == 3 {
        27
    } else if n == 4 {
        81
    } else if n == 5 {
        243
    } else if n == 6 {
        729
    } else if n == 7 {
        2187
    } else if n == 8 {
        6561
    } else if n == 9 {
        19683
    } else if n == 10 {
        59049
    } else {
        177147
    }
}

/// Which reduction level `3 + l` applies at site `i`.
pub fn bar_kind(code: u32, l: usize, i: usize) -> (k: u8)
    requires
        l < 4,
        i < 3,
    ensures
        k == kind(code as int, l as int, i as int),
        k < 3,
{
    let p: u32 = power3(3 * l + i);
    (code / p % 3) as u8
}

/// The largest magnitudes the two reductions leave at a prime.
#[derive(Clone, Copy, Debug)]
pub struct Caps {
    pub q: u16,
    pub lut: i32,
    pub mul: i32,
}

impl Caps {
    /// The magnitudes are bounds that are reached.
    pub open spec fn wf(&self) -> bool {
        &&& self.q == 17497 || self.q == 19441
        &&& 0 <= self.lut <= 32767
        &&& 0 <= self.mul <= 32767
        &&& forall|a: int|
            -32768 <= a < 32768 ==> abs(#[trigger] lane::lookup_reduced(a, self.q as int))
                <= self.lut
        &&& exists|a: int|
            -32768 <= a < 32768 && abs(#[trigger] lane::lookup_reduced(a, self.q as int))
                == self.lut
        &&& forall|a: int|
            -32768 <= a < 32768 ==> abs(a - (#[trigger] lane::estimate(a)) * self.q) <= self.mul
        &&& exists|a: int|
            -32768 <= a < 32768 && abs(a - (#[trigger] lane::estimate(a)) * self.q) == self.mul
    }

    /// The magnitudes at `q`, by going through every lane.
    pub fn of(q: u16) -> (c: Caps)
        requires
            q == 17497 || q == 19441,
        ensures
            c.q == q,
            c.wf(),
    {
        let lut: i32 = lane::barrett_lut_max(q);
        let mul: i32 = lane::barrett_mul_max(q);
        let c = Caps { q, lut, mul };
        proof {
            let a = choose|a: int|
                -32768 <= a < 32768 && abs(#[trigger] lane::lookup_reduced(a, q as int)) == lut;
            assert(abs(lane::lookup_reduced(a, c.q as int)) == c.lut);
            let b = choose|b: int|
                -32768 <= b < 32768 && abs(b - (#[trigger] lane::estimate(b)) * q) == mul;
            assert(abs(b - lane::estimate(b) * c.q) == c.mul);
            assert forall|x: int| -32768 <= x < 32768 implies abs(
                x - (#[trigger] lane::estimate(x)) * c.q,
            ) <= c.mul by {}
            assert(lut <= 32767);
        }
        c
    }
}

/// The bound carried past a site of reduction `k` for a lane of magnitude `b`: the smaller of `b` and
/// the largest lane that reduction leaves.
pub open spec fn capped(c: Caps, b: int, k: int) -> int {
    if k == 1 && c.lut < b {
        c.lut as int
    } else if k == 2 && c.mul < b {
        c.mul as int
    } else {
        b
    }
}

fn cap(c: &Caps, b: i32, k: u8) -> (r: i32)
    requires
        c.wf(),
        b >= 0,
    ensures
        r == capped(*c, b as int, k as int),
        0 <= r <= b,
{
    if k == RED_LUT && c.lut < b {
        c.lut
    } else if k == RED_MUL && c.mul < b {
        c.mul
    } else {
        b
    }
}

/// The bound of a twiddle product at level `3 + l` on lanes of magnitude `v`; level 3 has its
/// twiddles folded into the tables.
pub open spec fn twiddled(c: Caps, code: int, l: int, v: int) -> int {
    capped(
        c,
        if l == 0 {
            v
        } else {
            product_bound(v, c.q as int)
        },
        kind(code, l, 1),
    )
}

/// The bound of the product by the cube root.
pub open spec fn rotated(c: Caps, code: int, l: int, v: int) -> int {
    capped(
        c,
        product_bound(2 * twiddled(c, code, l, v), c.q as int),
        kind(code, l, 2),
    )
}

/// The bound of the untwiddled input.
pub open spec fn straight(c: Caps, code: int, l: int, v: int) -> int {
    capped(c, v, kind(code, l, 0))
}

pub open spec fn larger(a: int, b: int) -> int {
    if a > b {
        a
    } else {
        b
    }
}

/// The bound of the outputs of level `3 + l` on lanes of magnitude `v`.
#[verifier::opaque]
pub open spec fn level_out(c: Caps, code: int, l: int, v: int) -> int {
    let (t, u, b) = (
        twiddled(c, code, l, v),
        rotated(c, code, l, v),
        straight(c, code, l, v),
    );
    larger(b + 2 * t, b + t + u)
}

/// The largest intermediate of level `3 + l`.
#[verifier::opaque]
pub open spec fn level_peak(c: Caps, code: int, l: int, v: int) -> int {
    larger(2 * twiddled(c, code, l, v), level_out(c, code, l, v))
}

/// The bound after the first `n` levels.
pub open spec fn bound_after(c: Caps, code: int, n: nat) -> int
    decreases n,
{
    if n == 0 {
        2 * ((c.q + 1) / 2)
    } else {
        level_out(c, code, n - 1, bound_after(c, code, (n - 1) as nat))
    }
}

/// The largest intermediate of the first `n` levels.
pub open spec fn peak_after(c: Caps, code: int, n: nat) -> int
    decreases n,
{
    if n == 0 {
        2 * ((c.q + 1) / 2)
    } else {
        larger(
            peak_after(c, code, (n - 1) as nat),
            level_peak(c, code, n - 1, bound_after(c, code, (n - 1) as nat)),
        )
    }
}

/// One level of the bound recursion.
fn bin_level(c: &Caps, code: u32, l: usize, v: i32, peak: i32) -> (r: (i32, i32))
    requires
        c.wf(),
        l < 4,
        0 <= v <= 1500000,
        0 <= peak <= 10000000,
    ensures
        r.0 == level_out(*c, code as int, l as int, v as int),
        r.1 == larger(peak as int, level_peak(*c, code as int, l as int, v as int)),
        0 <= r.0 <= 3 * v + 50000,
        0 <= r.1 <= 10000000,
{
    proof {
        reveal(level_out);
        reveal(level_peak);
    }
    let p: i32 = if l == 0 {
        v
    } else {
        lane::mont_bound(v, c.q)
    };
    let t: i32 = cap(c, p, bar_kind(code, l, 1));
    let w: i32 = lane::mont_bound(2 * t, c.q);
    let u: i32 = cap(c, w, bar_kind(code, l, 2));
    let b: i32 = cap(c, v, bar_kind(code, l, 0));
    let o0: i32 = b + 2 * t;
    let o1: i32 = b + t + u;
    let out: i32 = if o0 > o1 {
        o0
    } else {
        o1
    };
    let top: i32 = if 2 * t > out {
        2 * t
    } else {
        out
    };
    (
        out,
        if peak > top {
            peak
        } else {
            top
        },
    )
}

proof fn lemma_steps(c: Caps, code: int)
    ensures
        bound_after(c, code, 0) == 2 * ((c.q + 1) / 2),
        bound_after(c, code, 1) == level_out(c, code, 0, bound_after(c, code, 0)),
        bound_after(c, code, 2) == level_out(c, code, 1, bound_after(c, code, 1)),
        bound_after(c, code, 3) == level_out(c, code, 2, bound_after(c, code, 2)),
        bound_after(c, code, 4) == level_out(c, code, 3, bound_after(c, code, 3)),
        peak_after(c, code, 0) == 2 * ((c.q + 1) / 2),
        peak_after(c, code, 1) == larger(
            peak_after(c, code, 0),
            level_peak(c, code, 0, bound_after(c, code, 0)),
        ),
        peak_after(c, code, 2) == larger(
            peak_after(c, code, 1),
            level_peak(c, code, 1, bound_after(c, code, 1)),
        ),
        peak_after(c, code, 3) == larger(
            peak_after(c, code, 2),
            level_peak(c, code, 2, bound_after(c, code, 2)),
        ),
        peak_after(c, code, 4) == larger(
            peak_after(c, code, 3),
            level_peak(c, code, 3, bound_after(c, code, 3)),
        ),
{
}

/// The schedule replayed on bounds: the largest lane after the lookups and after each of the four
/// levels, and the largest intermediate, which is what has to stay in a lane.
pub fn bin_model(c: &Caps, code: u32) -> (r: ([i32; 5], i32))
    requires
        c.wf(),
    ensures
        forall|n: int|
            0 <= n < 5 ==> (#[trigger] r.0@[n]) == bound_after(*c, code as int, n as nat),
        r.1 == peak_after(*c, code as int, 4),
{
    let v0: i32 = 2 * ((c.q as i32 + 1) / 2);
    let (v1, p1): (i32, i32) = bin_level(c, code, 0, v0, v0);
    let (v2, p2): (i32, i32) = bin_level(c, code, 1, v1, p1);
    let (v3, p3): (i32, i32) = bin_level(c, code, 2, v2, p2);
    let (v4, p4): (i32, i32) = bin_level(c, code, 3, v3, p3);
    let lm: [i32; 5] = [v0, v1, v2, v3, v4];
    proof {
        lemma_steps(*c, code as int);
        assert(lm@[0] == v0 && lm@[1] == v1 && lm@[2] == v2 && lm@[3] == v3 && lm@[4] == v4);
    }
    (lm, p4)
}

// ---------------------------------------------------------------------------------------------
// the cheapest schedule
// ---------------------------------------------------------------------------------------------

/// Operations a site's reduction binds to the multiplying port, for one use.
pub open spec fn multiplies(k: int) -> int {
    if k == 2 {
        2
    } else {
        0
    }
}

/// Operations bound to the shuffling port.
pub open spec fn shuffles(k: int) -> int {
    if k == 1 {
        2
    } else {
        0
    }
}

/// Operations that go to either port.
pub open spec fn others(k: int) -> int {
    if k == 1 {
        2
    } else if k == 2 {
        1
    } else {
        0
    }
}

/// The reductions of one butterfly: the first and the last site once, the middle one twice.
pub open spec fn uops(code: int, l: int, f: spec_fn(int) -> int) -> int {
    f(kind(code, l, 0)) + 2 * f(kind(code, l, 1)) + f(kind(code, l, 2))
}

/// The cycles of a load on two ports: the larger of either port's own, a sixteenth more, and half
/// the total.
pub open spec fn cycles(p0: int, p5: int, fx: int) -> int {
    let half = (p0 + p5 + fx + 1) / 2;
    let m = larger(p0, p5);
    larger(m + m / 16, half)
}

/// The cycles of level `3 + l` of a group of 162 rows.
pub open spec fn level_cost(code: int, l: int) -> int {
    let (a, b, c) = (
        uops(code, l, |k: int| multiplies(k)),
        uops(code, l, |k: int| shuffles(k)),
        uops(code, l, |k: int| others(k)),
    );
    if l == 0 {
        cycles(54 * (3 + a), 324 + 54 * b, 162 + 54 * (8 + c))
    } else {
        cycles(54 * (9 + a), 54 * b, 54 * (10 + c))
    }
}

/// The cycles of a schedule.
#[verifier::opaque]
pub open spec fn cost(code: int) -> int {
    level_cost(code, 0) + level_cost(code, 1) + level_cost(code, 2) + level_cost(code, 3)
}

fn red_uops(code: u32, l: usize) -> (r: (u32, u32, u32))
    requires
        l < 4,
    ensures
        r.0 == uops(code as int, l as int, |k: int| multiplies(k)),
        r.1 == uops(code as int, l as int, |k: int| shuffles(k)),
        r.2 == uops(code as int, l as int, |k: int| others(k)),
        r.0 <= 8,
        r.1 <= 8,
        r.2 <= 8,
{
    let (mut p0, mut p5, mut fx): (u32, u32, u32) = (0, 0, 0);
    let (k0, k1, k2): (u8, u8, u8) = (bar_kind(code, l, 0), bar_kind(code, l, 1), bar_kind(code, l, 2));
    if k0 == RED_LUT {
        p5 = p5 + 2;
        fx = fx + 2;
    } else if k0 == RED_MUL {
        p0 = p0 + 2;
        fx = fx + 1;
    }
    if k1 == RED_LUT {
        p5 = p5 + 4;
        fx = fx + 4;
    } else if k1 == RED_MUL {
        p0 = p0 + 4;
        fx = fx + 2;
    }
    if k2 == RED_LUT {
        p5 = p5 + 2;
        fx = fx + 2;
    } else if k2 == RED_MUL {
        p0 = p0 + 2;
        fx = fx + 1;
    }
    (p0, p5, fx)
}

fn ports(p0: u32, p5: u32, fx: u32) -> (c: u32)
    requires
        p0 <= 0x1_0000,
        p5 <= 0x1_0000,
        fx <= 0x1_0000,
    ensures
        c == cycles(p0 as int, p5 as int, fx as int),
        c <= 0x4_0000,
{
    let half: u32 = (p0 + p5 + fx + 1) / 2;
    let m: u32 = if p0 > p5 {
        p0
    } else {
        p5
    };
    let n: u32 = m + m / 16;
    if n > half {
        n
    } else {
        half
    }
}

/// What one group of 162 rows costs under a schedule: 54 butterflies at each of the four levels,
/// balanced level by level.
pub fn bar_cost(code: u32) -> (c: u32)
    ensures
        c == cost(code as int),
{
    proof {
        reveal(cost);
    }
    let (a0, a5, af): (u32, u32, u32) = red_uops(code, 0);
    let c0: u32 = ports(54 * (3 + a0), 324 + 54 * a5, 162 + 54 * (8 + af));
    let (b0, b5, bf): (u32, u32, u32) = red_uops(code, 1);
    let c1: u32 = ports(54 * (9 + b0), 54 * b5, 54 * (10 + bf));
    let (d0, d5, df): (u32, u32, u32) = red_uops(code, 2);
    let c2: u32 = ports(54 * (9 + d0), 54 * d5, 54 * (10 + df));
    let (e0, e5, ef): (u32, u32, u32) = red_uops(code, 3);
    let c3: u32 = ports(54 * (9 + e0), 54 * e5, 54 * (10 + ef));
    c0 + c1 + c2 + c3
}

/// The schedule that is tried as number `i`: level 3 varies slowest.
#[verifier::opaque]
pub open spec fn tried(i: int) -> int {
    i / 19683 + 27 * (i / 729 % 27) + 729 * (i / 27 % 27) + 19683 * (i % 27)
}

fn tried_code(i: u32) -> (code: u32)
    requires
        i < SCHEDULES,
    ensures
        code == tried(i as int),
{
    proof {
        reveal(tried);
    }
    i / 19683 + 27 * (i / 729 % 27) + 729 * (i / 27 % 27) + 19683 * (i % 27)
}

/// Every intermediate stays in a lane.
#[verifier::opaque]
pub open spec fn fits(c: Caps, code: int) -> bool {
    peak_after(c, code, 4) <= 32767
}

/// The schedule `a` is cheaper than `b`, or as cheap with the tighter output.
pub open spec fn better(c: Caps, a: int, b: int) -> bool {
    cost(a) < cost(b) || (cost(a) == cost(b) && bound_after(c, a, 4) < bound_after(c, b, 4))
}

/// `code` is the first of the best schedules among the first `n` tried.
pub open spec fn is_best(c: Caps, code: int, n: int) -> bool {
    exists|i: int|
        {
            &&& 0 <= i < n
            &&& code == #[trigger] tried(i)
            &&& fits(c, code)
            &&& forall|j: int|
                0 <= j < n && fits(c, #[trigger] tried(j)) ==> !better(c, tried(j), code)
            &&& forall|j: int|
                0 <= j < i && fits(c, #[trigger] tried(j)) ==> better(c, code, tried(j))
        }
}

/// The cheapest schedule that keeps every intermediate in a lane, and the output bound it leaves;
/// ties on cost go to the tighter output, and then to the first tried.
pub fn bin_sched(c: &Caps) -> (r: (u32, i32))
    requires
        c.wf(),
    ensures
        is_best(*c, r.0 as int, 531441),
        r.1 == bound_after(*c, r.0 as int, 4),
{
    let mut best: Option<(u32, i32)> = None;
    let mut cheapest: u32 = 0;
    let ghost mut at: int = 0;
    let mut i: u32 = 0;
    while i < SCHEDULES
        invariant
            i <= SCHEDULES,
            c.wf(),
            best is None ==> forall|j: int| 0 <= j < i ==> !fits(*c, #[trigger] tried(j)),
            best matches Some((code, out)) ==> {
                &&& 0 <= at < i
                &&& code == tried(at)
                &&& fits(*c, code as int)
                &&& out == bound_after(*c, code as int, 4)
                &&& cheapest == cost(code as int)
                &&& forall|j: int|
                    0 <= j < i && fits(*c, #[trigger] tried(j)) ==> !better(
                        *c,
                        tried(j),
                        code as int,
                    )
                &&& forall|j: int|
                    0 <= j < at && fits(*c, #[trigger] tried(j)) ==> better(
                        *c,
                        code as int,
                        tried(j),
                    )
            },
        decreases SCHEDULES - i,
    {
        let code: u32 = tried_code(i);
        let (lm, peak): ([i32; 5], i32) = bin_model(c, code);
        proof {
            reveal(fits);
        }
        if peak <= 32767 {
            let out: i32 = lm[4];
            assert(out == bound_after(*c, code as int, 4));
            let k: u32 = bar_cost(code);
            match best {
                None => {
                    best = Some((code, out));
                    cheapest = k;
                    proof {
                        at = i as int;
                    }
                },
                Some((_, held)) => {
                    if k < cheapest || (k == cheapest && out < held) {
                        best = Some((code, out));
                        cheapest = k;
                        proof {
                            at = i as int;
                        }
                    }
                },
            }
        }
        i += 1;
    }
    proof {
        lemma_some_fits(*c);
        lemma_tried(265720);
        if let Some((code, out)) = best {
            assert(code as int == tried(at));
            assert(is_best(*c, code as int, 531441));
        }
    }
    match best {
        Some(r) => r,
        None => (0, 0),
    }
}

/// Which reduction each of levels 3, 4, 5, 6 applies at each of its sites.
pub fn bar_levels(q: u16) -> (code: u32)
    requires
        q == 17497 || q == 19441,
    ensures
        exists|c: Caps| c.q == q && #[trigger] c.wf() && is_best(c, code as int, 531441),
{
    let c = Caps::of(q);
    bin_sched(&c).0
}

/// The largest lane the binary transform of a large prime leaves under its schedule.
pub fn output_bound(q: u16) -> (out: i32)
    requires
        q == 17497 || q == 19441,
    ensures
        exists|c: Caps| c.q == q && #[trigger] c.wf() && leaves(c, out as int),
{
    let c = Caps::of(q);
    let (code, out): (u32, i32) = bin_sched(&c);
    assert(is_best(c, code as int, 531441));
    assert(leaves(c, out as int));
    out
}

/// `out` is the output bound of the best schedule.
pub open spec fn leaves(c: Caps, out: int) -> bool {
    exists|code: int| #[trigger] is_best(c, code, 531441) && out == bound_after(c, code, 4)
}

/// The magnitudes of a prime are determined by it.
pub proof fn caps_unique(a: Caps, b: Caps)
    requires
        a.wf(),
        b.wf(),
        a.q == b.q,
    ensures
        a == b,
{
    let x = choose|x: int|
        -32768 <= x < 32768 && abs(#[trigger] lane::lookup_reduced(x, a.q as int)) == a.lut;
    let y = choose|y: int|
        -32768 <= y < 32768 && abs(#[trigger] lane::lookup_reduced(y, b.q as int)) == b.lut;
    assert(abs(lane::lookup_reduced(x, b.q as int)) <= b.lut);
    assert(abs(lane::lookup_reduced(y, a.q as int)) <= a.lut);
    let u = choose|u: int|
        -32768 <= u < 32768 && abs(u - (#[trigger] lane::estimate(u)) * a.q) == a.mul;
    let v = choose|v: int|
        -32768 <= v < 32768 && abs(v - (#[trigger] lane::estimate(v)) * b.q) == b.mul;
    assert(abs(u - lane::estimate(u) * b.q) <= b.mul);
    assert(abs(v - lane::estimate(v) * a.q) <= a.mul);
}

/// Every schedule is tried.
proof fn lemma_tried(code: int) -> (i: int)
    requires
        0 <= code < 531441,
    ensures
        0 <= i < 531441,
        tried(i) == code,
{
    reveal(tried);
    let (d0, d1, d2, d3) = (code % 27, code / 27 % 27, code / 729 % 27, code / 19683);
    assert(code == d0 + 27 * d1 + 729 * d2 + 19683 * d3);
    let i = 19683 * d0 + 729 * d1 + 27 * d2 + d3;
    assert(i / 19683 == d0);
    assert(i / 729 == 27 * d0 + d1);
    assert(i / 729 % 27 == d1);
    assert(i / 27 == 729 * d0 + 27 * d1 + d2);
    assert(i / 27 % 27 == d2);
    assert(i % 27 == d3);
    i
}

/// A level at which every site takes the lookup reduction.
proof fn lemma_all_reduced(c: Caps, code: int, l: int, v: int)
    requires
        c.wf(),
        2 * c.lut <= c.q + 2047,
        kind(code, l, 0) == 1,
        kind(code, l, 1) == 1,
        kind(code, l, 2) == 1,
    ensures
        level_out(c, code, l, v) <= 3 * c.lut,
        level_peak(c, code, l, v) <= 3 * c.lut,
{
    reveal(level_out);
    reveal(level_peak);
}

/// With the lookup reduction at every site nothing leaves a lane.
proof fn lemma_some_fits(c: Caps)
    requires
        c.wf(),
    ensures
        fits(c, 265720),
{
    reveal(fits);
    let code = 265720int;
    let a = choose|a: int|
        -32768 <= a < 32768 && abs(#[trigger] lane::lookup_reduced(a, c.q as int)) == c.lut;
    lane::lookup_bound(a, c.q as int);
    assert forall|l: int, i: int| 0 <= l < 4 && 0 <= i < 3 implies #[trigger] kind(code, l, i)
        == 1 by {
        let n = 3 * l + i;
        assert(n == 0 || n == 1 || n == 2 || n == 3 || n == 4 || n == 5 || n == 6 || n == 7 || n
            == 8 || n == 9 || n == 10 || n == 11);
    }
    lemma_steps(c, code);
    lemma_all_reduced(c, code, 0, bound_after(c, code, 0));
    lemma_all_reduced(c, code, 1, bound_after(c, code, 1));
    lemma_all_reduced(c, code, 2, bound_after(c, code, 2));
    lemma_all_reduced(c, code, 3, bound_after(c, code, 3));
}

/// The schedule of [`bar_levels`] keeps every intermediate in a lane, leaves the bound of
/// [`output_bound`], and no schedule that keeps to a lane is cheaper, or as cheap with a tighter
/// output.
pub proof fn best_of_all(c: Caps, best: int, out: int, code: int)
    requires
        c.wf(),
        is_best(c, best, 531441),
        leaves(c, out),
        0 <= code < 531441,
        peak_after(c, code, 4) <= 32767,
    ensures
        peak_after(c, best, 4) <= 32767,
        bound_after(c, best, 4) == out,
        cost(best) <= cost(code),
        cost(best) == cost(code) ==> out <= bound_after(c, code, 4),
{
    reveal(fits);
    let i = lemma_tried(code);
    assert(fits(c, tried(i)));
    assert(!better(c, tried(i), best));
    let other = choose|other: int| #[trigger]
        is_best(c, other, 531441) && out == bound_after(c, other, 4);
    let j = choose|j: int| 0 <= j < 531441 && other == #[trigger] tried(j);
    let k = choose|k: int| 0 <= k < 531441 && best == #[trigger] tried(k);
    assert(!better(c, tried(j), best));
    assert(!better(c, tried(k), other));
}

} // verus!
