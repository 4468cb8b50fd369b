//! The carries of a chain and what its equations say.
use super::algebra;
use super::chain::{Chain, Sums, Vectors};
use super::chain;
use super::chunk;
use super::{Blocks, SElem};
use vstd::arithmetic::power::*;
use vstd::prelude::*;

verus! {

/// The sums as integers.
pub open spec fn diagonals(s: Sums) -> Seq<Seq<int>> {
    Seq::new(18, |a: int| Seq::new(64, |j: int| s@[a]@[j] as int))
}

/// Every diagonal keeps to positions `0 .. 62`.
pub open spec fn bounded(d: Seq<Seq<int>>) -> bool {
    forall|a: int, j: int| 0 <= a < 18 && 62 <= j < 64 ==> (#[trigger] d[a][j]) == 0
}

/// Place `t` of `sum over a < n of Z^(9 a) D_a`.
pub open spec fn stack(d: Seq<Seq<int>>, n: nat, t: int) -> int
    decreases n,
{
    if n == 0 {
        0
    } else {
        stack(d, (n - 1) as nat, t) + if 0 <= t - 9 * (n - 1) < 62 {
            d[n - 1][t - 9 * (n - 1)]
        } else {
            0
        }
    }
}

/// `sum_a Z^(9 a) D_a`, 215 places.
pub open spec fn stacked(d: Seq<Seq<int>>) -> Seq<int> {
    Seq::new(215, |t: int| stack(d, 18, t))
}

/// What the left side of the identity is worth in `S`.
pub open spec fn value_of(d: Seq<Seq<int>>) -> Seq<int> {
    chunk::reduced(stacked(d))
}

/// The part of the stack at and above `Z^162`.
pub open spec fn top(d: Seq<Seq<int>>, j: int) -> int {
    if 0 <= j < 53 {
        stack(d, 18, 162 + j)
    } else {
        0
    }
}

/// Place `j` of carry `a`: what the equation of diagonal `a` leaves above its window.
pub open spec fn carry(d: Seq<Seq<int>>, a: nat, j: int) -> int
    decreases a,
{
    if j < 0 || j >= 53 {
        0
    } else {
        d[a as int][j + 9] + (if j + 9 < 53 {
            (if a > 0 {
                carry(d, (a - 1) as nat, j + 9)
            } else {
                0
            }) - (if a == 0 || a == 9 {
                top(d, j + 9)
            } else {
                0
            })
        } else {
            0
        })
    }
}

/// What the wrap terms have taken from carry `a`.
spec fn wrapped(d: Seq<Seq<int>>, a: int, j: int) -> int {
    (if a >= 0 {
        top(d, j + 9 * (a + 1))
    } else {
        0
    }) + (if a >= 9 {
        top(d, j + 9 * (a - 8))
    } else {
        0
    })
}

/// A carry is what the diagonals up to it leave above them.
proof fn lemma_carry(d: Seq<Seq<int>>, a: nat, j: int)
    requires
        d.len() == 18,
        a < 18,
        j >= 0,
    ensures
        carry(d, a, j) == stack(d, a + 1, 9 * (a + 1) + j) - wrapped(d, a as int, j),
    decreases a,
{
    let t = 9 * (a + 1) + j;
    assert(stack(d, a + 1, t) == stack(d, a, t) + if 0 <= t - 9 * a < 62 {
        d[a as int][t - 9 * a]
    } else {
        0
    });
    assert(t - 9 * a == j + 9);
    if j + 9 >= 53 {
        lemma_high(d, a, t);
    } else if a > 0 {
        let b = (a - 1) as nat;
        lemma_carry(d, b, j + 9);
        assert(b + 1 == a && 9 * (b + 1) + (j + 9) == t);
        assert(j + 9 + 9 * (b as int + 1) == j + 9 * (a as int + 1));
        assert(j + 9 + 9 * (b as int - 8) == j + 9 * (a as int - 8));
    } else {
        assert(stack(d, 0, t) == 0);
    }
}

/// Nothing stands above the last place of the diagonals.
proof fn lemma_high(d: Seq<Seq<int>>, n: nat, t: int)
    requires
        t >= 9 * n + 53,
    ensures
        stack(d, n, t) == 0,
    decreases n,
{
    if n > 0 {
        lemma_high(d, (n - 1) as nat, t);
    }
}

/// Diagonals past a place add nothing to it.
proof fn lemma_low(d: Seq<Seq<int>>, m: nat, n: nat, t: int)
    requires
        m <= n,
        t < 9 * m,
    ensures
        stack(d, n, t) == stack(d, m, t),
    decreases n,
{
    if m < n {
        lemma_low(d, m, (n - 1) as nat, t);
    }
}

/// The last carry is the part at and above `Z^162` that the wrap terms use.
pub proof fn last_carry(d: Seq<Seq<int>>, j: int)
    requires
        d.len() == 18,
        0 <= j < 53,
    ensures
        carry(d, 17, j) == top(d, j),
{
    lemma_carry(d, 17, j);
}

/// Place `j` of the equation of diagonal `a` with carries `e`, before the output is taken off.
pub open spec fn equation(d: Seq<Seq<int>>, e: spec_fn(int, int) -> int, a: int, j: int) -> int {
    d[a][j] + (if a > 0 {
        e(a - 1, j)
    } else {
        0
    }) - (if j >= 9 {
        e(a, j - 9)
    } else {
        -e(a, j - 9 + 64)
    }) - (if a == 0 || a == 9 {
        e(17, j)
    } else {
        0
    })
}

/// The honest carries, 64 places each.
pub open spec fn honest(d: Seq<Seq<int>>) -> spec_fn(int, int) -> int {
    |a: int, j: int| carry(d, a as nat, j)
}

/// With the honest carries the equations say what the identity is worth: the window of diagonal `a`
/// is window `a` of the value, and every other place is zero.
#[verifier::rlimit(30)]
pub proof fn equations_hold(d: Seq<Seq<int>>, a: int, j: int)
    requires
        d.len() == 18,
        bounded(d),
        0 <= a < 18,
        0 <= j < 64,
    ensures
        equation(d, honest(d), a, j) == (if j < 9 {
            value_of(d)[9 * a + j]
        } else {
            0
        }),
{
    if j < 53 {
        last_carry(d, j);
    }
    if j < 9 {
        let i = 9 * a + j;
        let p = stacked(d);
        lemma_value(d, i);
        lemma_low(d, (a + 1) as nat, 18, i);
        assert(stack(d, (a + 1) as nat, i) == stack(d, a as nat, i) + d[a][j]);
        if a > 0 {
            lemma_carry(d, (a - 1) as nat, j);
            assert(9 * (a - 1 + 1) + j == i);
        }
        assert(i % 81 == 9 * (a % 9) + j);
        if a < 9 {
            assert(a % 9 == a);
        } else {
            assert(a % 9 == a - 9);
        }
    } else if j >= 62 {
        assert(d[a][j] == 0);
    }
}

/// A coefficient of the value.
proof fn lemma_value(d: Seq<Seq<int>>, i: int)
    requires
        0 <= i < 162,
    ensures
        value_of(d)[i] == stack(d, 18, i) - top(d, i % 81),
{
    let p = stacked(d);
    lemma_cyclic(p, i, 215);
    lemma_cyclic(p, 162 + i % 81, 215);
}

proof fn lemma_cyclic(p: Seq<int>, r: int, n: nat)
    requires
        0 <= r < 243,
        n <= 243,
    ensures
        chunk::cyclic(p, r, n) == (if r < n {
            p[r]
        } else {
            0
        }),
    decreases n,
{
    if n > 0 {
        lemma_cyclic(p, r, (n - 1) as nat);
    }
}

// ---------------------------------------------------------------------------------------------
// computing them
// ---------------------------------------------------------------------------------------------

/// The sums are small enough for what is computed from them.
pub open spec fn small(s: Sums) -> bool {
    forall|a: int, j: int|
        0 <= a < 18 && 0 <= j < 64 ==> -0x400_0000_0000_0000 <= (#[trigger] s@[a]@[j])
            <= 0x400_0000_0000_0000
}

proof fn lemma_stack_bound(d: Seq<Seq<int>>, n: nat, t: int)
    requires
        n <= 18,
        forall|a: int, j: int|
            0 <= a < 18 && 0 <= j < 64 ==> -0x400_0000_0000_0000 <= (#[trigger] d[a][j])
                <= 0x400_0000_0000_0000,
        t >= 0,
    ensures
        -0x400_0000_0000_0000 * terms(n as int, t) <= stack(d, n, t) <= 0x400_0000_0000_0000
            * terms(n as int, t),
        0 <= terms(n as int, t) <= 7,
    decreases n,
{
    if n > 0 {
        lemma_stack_bound(d, (n - 1) as nat, t);
    }
}

/// How many of the first `n` diagonals reach place `t`: at most seven do.
spec fn terms(n: int, t: int) -> int {
    let lo = if t < 62 {
        0
    } else {
        (t - 53) / 9
    };
    let hi = if n < t / 9 + 1 {
        n
    } else {
        t / 9 + 1
    };
    if hi > lo {
        hi - lo
    } else {
        0
    }
}

/// The stack of the diagonals.
fn stack_of(s: &Sums) -> (p: Vec<i64>)
    requires
        small(*s),
    ensures
        p@.len() == 215,
        chunk::ints(p@) == stacked(diagonals(*s)),
        forall|t: int|
            0 <= t < 215 ==> -0x1C00_0000_0000_0000 <= (#[trigger] p@[t]) <= 0x1C00_0000_0000_0000,
{
    let ghost d = diagonals(*s);
    let mut p: Vec<i64> = Vec::new();
    let mut t: usize = 0;
    while t < 215
        invariant
            t <= 215,
            small(*s),
            d == diagonals(*s),
            p@.len() == t,
            forall|i: int| 0 <= i < t ==> (#[trigger] p@[i]) == stack(d, 18, i),
            forall|i: int|
                0 <= i < t ==> -0x1C00_0000_0000_0000 <= (#[trigger] p@[i])
                    <= 0x1C00_0000_0000_0000,
        decreases 215 - t,
    {
        assert forall|a: int, j: int| 0 <= a < 18 && 0 <= j < 64 implies -0x400_0000_0000_0000 <= (
        #[trigger] d[a][j]) <= 0x400_0000_0000_0000 by {
            assert(d[a][j] == s@[a]@[j]);
        }
        let mut y: i64 = 0;
        let mut a: usize = 0;
        while a < 18
            invariant
                t < 215,
                a <= 18,
                small(*s),
                d == diagonals(*s),
                forall|a: int, j: int|
                    0 <= a < 18 && 0 <= j < 64 ==> -0x400_0000_0000_0000 <= (#[trigger] d[a][j])
                        <= 0x400_0000_0000_0000,
                y == stack(d, a as nat, t as int),
                -0x1C00_0000_0000_0000 <= y <= 0x1C00_0000_0000_0000,
            decreases 18 - a,
        {
            proof {
                lemma_stack_bound(d, (a + 1) as nat, t as int);
            }
            if 9 * a <= t && t - 9 * a < 62 {
                assert(d[a as int][t - 9 * a] == s@[a as int]@[t - 9 * a]);
                y = y + s[a][t - 9 * a];
            }
            a += 1;
        }
        p.push(y);
        t += 1;
    }
    assert(chunk::ints(p@) =~= stacked(d));
    p
}

/// What the constant multipliers add at place `j` of diagonal `a`.
pub open spec fn scaled_sum(
    scaled: Seq<chain::Scaled>,
    w: Seq<Vec<super::Poly>>,
    a: int,
    j: int,
    n: nat,
) -> int
    decreases n,
{
    if n == 0 {
        0
    } else {
        scaled_sum(scaled, w, a, j, (n - 1) as nat) + if a == 6 * scaled[n - 1].chunk {
            scaled[n - 1].factor * chain::poly_at(w, scaled[n - 1].at)[j]
        } else {
            0
        }
    }
}

/// The constant multipliers name entries and are small.
pub open spec fn scaled_placed(scaled: Seq<chain::Scaled>, w: Seq<Vec<super::Poly>>) -> bool {
    &&& scaled.len() <= 0x400
    &&& forall|i: int|
        0 <= i < scaled.len() ==> {
            &&& (#[trigger] scaled[i]).chunk < 3
            &&& -0x4000_0000 <= scaled[i].factor <= 0x4000_0000
            &&& chain::inside(w, scaled[i].at)
        }
}

/// The weight of digit `d`.
pub open spec fn weight(base: int, d: nat) -> int
    decreases d,
{
    if d == 0 {
        1
    } else {
        base * weight(base, (d - 1) as nat)
    }
}

/// The sum of the weights of the first `n` digits.
pub open spec fn reach(base: int, n: nat) -> int
    decreases n,
{
    if n == 0 {
        0
    } else {
        reach(base, (n - 1) as nat) + weight(base, (n - 1) as nat)
    }
}

/// The digits of the carries name entries and what they stand for is an `i64`.
pub open spec fn carries_placed(c: chain::Carries, w: Seq<Vec<super::Poly>>) -> bool {
    &&& c.gadget.base >= 1
    &&& reach(c.gadget.base as int, c.at@.len()) * 0x8000 <= i64::MAX
    &&& forall|d: int|
        0 <= d < c.at@.len() ==> {
            &&& (#[trigger] c.at@[d]).vector < w.len()
            &&& c.at@[d].off + 18 <= w[c.at@[d].vector as int]@.len()
        }
}

/// Place `j` of carry `a`, as the digits store it.
pub open spec fn stored(c: chain::Carries, w: Seq<Vec<super::Poly>>, a: int, j: int, n: nat) -> int
    decreases n,
{
    if n == 0 {
        0
    } else {
        stored(c, w, a, j, (n - 1) as nat) + weight(c.gadget.base as int, (n - 1) as nat)
            * w[c.at@[n - 1].vector as int]@[c.at@[n - 1].off + a]@[j]
    }
}

/// The carries, as the digits store them.
pub open spec fn stored_carries(c: chain::Carries, w: Seq<Vec<super::Poly>>) -> spec_fn(int, int) -> int {
    |a: int, j: int| stored(c, w, a, j, c.at@.len())
}

proof fn lemma_reach(base: int, d: nat, n: nat)
    requires
        base >= 1,
        d <= n,
    ensures
        1 <= weight(base, d),
        0 <= reach(base, d) <= reach(base, n),
    decreases n,
{
    lemma_weight(base, d);
    if d < n {
        lemma_reach(base, d, (n - 1) as nat);
        lemma_weight(base, (n - 1) as nat);
    } else if n > 0 {
        lemma_reach(base, (n - 1) as nat, (n - 1) as nat);
        lemma_weight(base, (n - 1) as nat);
    }
}

proof fn lemma_weight(base: int, d: nat)
    requires
        base >= 1,
    ensures
        1 <= weight(base, d),
    decreases d,
{
    if d > 0 {
        lemma_weight(base, (d - 1) as nat);
        let y = weight(base, (d - 1) as nat);
        assert(1 <= base * y) by (nonlinear_arith)
            requires
                base >= 1,
                y >= 1,
        ;
    }
}

/// The diagonals of a chain: its products and its constant multipliers.
pub open spec fn chain_diagonals(c: Chain, public: Seq<Blocks>, w: Seq<Vec<super::Poly>>) -> Seq<
    Seq<int>,
> {
    Seq::new(
        18,
        |a: int|
            Seq::new(
                64,
                |j: int|
                    chain::diagonal(c.products@, public, w, a, j, c.products@.len())
                        + scaled_sum(c.scaled@, w, a, j, c.scaled@.len()),
            ),
    )
}

/// The left-hand sides of the equations of a chain, with the carries as stored and the output taken
/// off.
pub open spec fn is_residuals(
    c: Chain,
    public: Seq<Blocks>,
    w: Seq<Vec<super::Poly>>,
    r: [[i128; 64]; 18],
) -> bool {
    forall|a: int, j: int|
        0 <= a < 18 && 0 <= j < 64 ==> (#[trigger] r@[a]@[j]) == equation(
            chain_diagonals(c, public, w),
            stored_carries(c.carries, w),
            a,
            j,
        ) - (if j < 9 {
            c.output@[9 * a + j] as int
        } else {
            0
        })
}

impl Chain {
    /// The constant multipliers, which enter whole at diagonal `6 chunk`.
    pub fn scaled_into(&self, sums: &mut Sums, w: &Vectors)
        requires
            scaled_placed(self.scaled@, w@),
            forall|a: int, j: int|
                0 <= a < 18 && 0 <= j < 64 ==> -0x240_0000_0000_0000 <= (
                #[trigger] old(sums)@[a]@[j]) <= 0x240_0000_0000_0000,
        ensures
            small(*final(sums)),
            forall|a: int, j: int|
                0 <= a < 18 && 0 <= j < 64 ==> (#[trigger] final(sums)@[a]@[j])
                    == old(sums)@[a]@[j] + scaled_sum(self.scaled@, w@, a, j, self.scaled@.len()),
    {
        let n: usize = self.scaled.len();
        let ghost before = sums@;
        let mut i: usize = 0;
        while i < n
            invariant
                i <= n == self.scaled@.len() <= 0x400,
                scaled_placed(self.scaled@, w@),
                forall|a: int, j: int|
                    0 <= a < 18 && 0 <= j < 64 ==> -0x240_0000_0000_0000 <= (
                    #[trigger] before[a]@[j]) <= 0x240_0000_0000_0000,
                forall|a: int, j: int|
                    0 <= a < 18 && 0 <= j < 64 ==> (#[trigger] sums@[a]@[j]) == before[a]@[j]
                        + scaled_sum(self.scaled@, w@, a, j, i as nat),
                forall|a: int, j: int|
                    0 <= a < 18 && 0 <= j < 64 ==> -0x2000_0000_0000 * i <= (
                    #[trigger] sums@[a]@[j]) - before[a]@[j] <= 0x2000_0000_0000 * i,
            decreases n - i,
        {
            let s = self.scaled[i];
            assert(self.scaled@[i as int].chunk < 3);
            let q = &w[s.at.vector][s.at.off];
            let b: usize = 6 * s.chunk;
            let ghost was = sums@;
            let mut row: [i64; 64] = sums[b];
            let mut j: usize = 0;
            while j < 64
                invariant
                    j <= 64,
                    b < 18,
                    i < 0x400,
                    -0x4000_0000 <= s.factor <= 0x4000_0000,
                    chunk::shorts(q@) == chain::poly_at(w@, s.at),
                    forall|t: int|
                        0 <= t < 64 ==> -0x300_0000_0000_0000 <= (#[trigger] was[b as int]@[t])
                            <= 0x300_0000_0000_0000,
                    forall|t: int|
                        0 <= t < j ==> (#[trigger] row@[t]) == was[b as int]@[t] + s.factor
                            * chain::poly_at(w@, s.at)[t],
                    forall|t: int|
                        0 <= t < j ==> -0x2000_0000_0000 <= (#[trigger] row@[t]) - was[b as int]@[t]
                            <= 0x2000_0000_0000,
                    forall|t: int| j <= t < 64 ==> (#[trigger] row@[t]) == was[b as int]@[t],
                decreases 64 - j,
            {
                proof {
                    let (x, y) = (s.factor as int, q@[j as int] as int);
                    assert(-0x2000_0000_0000 <= x * y <= 0x2000_0000_0000) by (nonlinear_arith)
                        requires
                            -0x4000_0000 <= x <= 0x4000_0000,
                            -0x8000 <= y <= 0x7FFF,
                    ;
                    assert(chunk::shorts(q@)[j as int] == y);
                    assert(row@[j as int] == was[b as int]@[j as int]);
                }
                row[j] = row[j] + s.factor * (q[j] as i64);
                j += 1;
            }
            sums[b] = row;
            proof {
                assert forall|a: int, j: int| 0 <= a < 18 && 0 <= j < 64 implies (
                #[trigger] sums@[a]@[j]) == before[a]@[j] + scaled_sum(
                    self.scaled@,
                    w@,
                    a,
                    j,
                    (i + 1) as nat,
                ) && -0x2000_0000_0000 * (i + 1) <= sums@[a]@[j] - before[a]@[j]
                    <= 0x2000_0000_0000 * (i + 1) by {
                    assert(was[a]@[j] == before[a]@[j] + scaled_sum(
                        self.scaled@,
                        w@,
                        a,
                        j,
                        i as nat,
                    ));
                    if a == b {
                        assert(sums@[a]@[j] == row@[j]);
                    } else {
                        assert(sums@[a] == was[a]);
                    }
                }
            }
            i += 1;
        }
    }

    /// `sum_a Z^(9 a) D_a mod Phi_243`: what the identity's left side is worth, before the output
    /// and the quotient are subtracted. Every diagonal must fit its degree bound.
    pub fn value(sums: &Sums) -> (x: SElem)
        requires
            bounded(diagonals(*sums)),
            small(*sums),
        ensures
            chunk::ints(x@) == value_of(diagonals(*sums)),
    {
        let p = stack_of(sums);
        let ghost d = diagonals(*sums);
        let mut x: SElem = [0;162];
        let mut i: usize = 0;
        while i < 162
            invariant
                i <= 162,
                d == diagonals(*sums),
                p@.len() == 215,
                chunk::ints(p@) == stacked(d),
                forall|t: int|
                    0 <= t < 215 ==> -0x1C00_0000_0000_0000 <= (#[trigger] p@[t])
                        <= 0x1C00_0000_0000_0000,
                forall|k: int| 0 <= k < i ==> (#[trigger] x@[k]) == value_of(d)[k],
            decreases 162 - i,
        {
            let r: usize = i % 81;
            proof {
                lemma_value(d, i as int);
                assert(chunk::ints(p@)[i as int] == p@[i as int]);
                if r < 53 {
                    assert(chunk::ints(p@)[162 + r] == p@[162 + r]);
                }
            }
            x[i] = if r < 53 {
                p[i] - p[162 + r]
            } else {
                p[i]
            };
            i += 1;
        }
        assert(chunk::ints(x@) =~= value_of(d));
        x
    }

    /// The honest carries: the last one is the part of `sum_a Z^(9 a) D_a` at and above `Z^162`, the
    /// rest follow the recurrence.
    pub fn honest_carries(sums: &Sums) -> (e: [[i64; 53]; 18])
        requires
            bounded(diagonals(*sums)),
            small(*sums),
        ensures
            forall|a: int, j: int|
                0 <= a < 18 && 0 <= j < 53 ==> (#[trigger] e@[a]@[j]) == carry(
                    diagonals(*sums),
                    a as nat,
                    j,
                ),
    {
        let p = stack_of(sums);
        let ghost d = diagonals(*sums);
        let mut e: [[i64; 53]; 18] = [[0;53];18];
        let mut a: usize = 0;
        while a < 18
            invariant
                a <= 18,
                d == diagonals(*sums),
                small(*sums),
                p@.len() == 215,
                chunk::ints(p@) == stacked(d),
                forall|t: int|
                    0 <= t < 215 ==> -0x1C00_0000_0000_0000 <= (#[trigger] p@[t])
                        <= 0x1C00_0000_0000_0000,
                forall|c: int, j: int|
                    0 <= c < a && 0 <= j < 53 ==> (#[trigger] e@[c]@[j]) == carry(d, c as nat, j),
            decreases 18 - a,
        {
            let mut row: [i64; 53] = [0;53];
            let mut j: usize = 0;
            while j < 53
                invariant
                    a < 18,
                    j <= 53,
                    d == diagonals(*sums),
                    small(*sums),
                    p@.len() == 215,
                    chunk::ints(p@) == stacked(d),
                    forall|t: int|
                        0 <= t < 215 ==> -0x1C00_0000_0000_0000 <= (#[trigger] p@[t])
                            <= 0x1C00_0000_0000_0000,
                    forall|c: int, j: int|
                        0 <= c < a && 0 <= j < 53 ==> (#[trigger] e@[c]@[j]) == carry(
                            d,
                            c as nat,
                            j,
                        ),
                    forall|t: int| 0 <= t < j ==> (#[trigger] row@[t]) == carry(d, a as nat, t),
                decreases 53 - j,
            {
                assert(d[a as int][j + 9] == sums@[a as int]@[j + 9]);
                let mut y: i64 = sums[a][j + 9];
                if j + 9 < 53 {
                    proof {
                        assert(chunk::ints(p@)[162 + j + 9] == p@[162 + j + 9]);
                        if a > 0 {
                            lemma_carry_bound(d, (a - 1) as nat, j + 9);
                        }
                    }
                    if a > 0 {
                        assert(e@[a - 1]@[j + 9] == carry(d, (a - 1) as nat, j + 9));
                        y = y + e[a - 1][j + 9];
                    }
                    if a == 0 || a == 9 {
                        y = y - p[162 + j + 9];
                    }
                }
                row[j] = y;
                j += 1;
            }
            e[a] = row;
            a += 1;
        }
        e
    }

    /// The carries as the digits store them: every coefficient of every digit polynomial, so that a
    /// digit outside the claimed support is seen where the backend would see it.
    pub fn carry_values(&self, w: &Vectors) -> (e: [[i64; 64]; 18])
        requires
            carries_placed(self.carries, w@),
        ensures
            forall|a: int, j: int|
                0 <= a < 18 && 0 <= j < 64 ==> (#[trigger] e@[a]@[j]) == stored(
                    self.carries,
                    w@,
                    a,
                    j,
                    self.carries.at@.len(),
                ),
    {
        let mut e: [[i64; 64]; 18] = [[0;64];18];
        let mut a: usize = 0;
        while a < 18
            invariant
                a <= 18,
                carries_placed(self.carries, w@),
                forall|c: int, j: int|
                    0 <= c < a && 0 <= j < 64 ==> (#[trigger] e@[c]@[j]) == stored(
                        self.carries,
                        w@,
                        c,
                        j,
                        self.carries.at@.len(),
                    ),
            decreases 18 - a,
        {
            let mut row: [i64; 64] = [0;64];
            let mut j: usize = 0;
            while j < 64
                invariant
                    a < 18,
                    j <= 64,
                    carries_placed(self.carries, w@),
                    forall|t: int|
                        0 <= t < j ==> (#[trigger] row@[t]) == stored(
                            self.carries,
                            w@,
                            a as int,
                            t,
                            self.carries.at@.len(),
                        ),
                decreases 64 - j,
            {
                row[j] = stored_at(&self.carries, w, a, j);
                j += 1;
            }
            e[a] = row;
            a += 1;
        }
        e
    }

    /// The exact left-hand side of every block equation.
    pub fn residuals(&self, public: &[Blocks], w: &Vectors) -> (r: [[i128; 64]; 18])
        requires
            chain::well_placed(self.products@, public@, w@),
            self.products@.len() <= 0x100_0000,
            scaled_placed(self.scaled@, w@),
            carries_placed(self.carries, w@),
        ensures
            is_residuals(*self, public@, w@, r),
    {
        let mut sums = self.reference_sums(public, w);
        self.scaled_into(&mut sums, w);
        let e = self.carry_values(w);
        let ghost d = chain_diagonals(*self, public@, w@);
        let ghost f = stored_carries(self.carries, w@);
        assert forall|a: int, j: int| 0 <= a < 18 && 0 <= j < 64 implies (#[trigger] sums@[a]@[j])
            == d[a][j] by {}
        let mut r: [[i128; 64]; 18] = [[0;64];18];
        let mut a: usize = 0;
        while a < 18
            invariant
                a <= 18,
                f == stored_carries(self.carries, w@),
                forall|a: int, j: int|
                    0 <= a < 18 && 0 <= j < 64 ==> (#[trigger] sums@[a]@[j]) == d[a][j],
                forall|a: int, j: int|
                    0 <= a < 18 && 0 <= j < 64 ==> (#[trigger] e@[a]@[j]) == f(a, j),
                forall|c: int, j: int|
                    0 <= c < a && 0 <= j < 64 ==> (#[trigger] r@[c]@[j]) == equation(d, f, c, j) - (
                    if j < 9 {
                        self.output@[9 * c + j] as int
                    } else {
                        0
                    }),
            decreases 18 - a,
        {
            let mut row: [i128; 64] = [0;64];
            let mut j: usize = 0;
            while j < 64
                invariant
                    a < 18,
                    j <= 64,
                    forall|a: int, j: int|
                        0 <= a < 18 && 0 <= j < 64 ==> (#[trigger] sums@[a]@[j]) == d[a][j],
                    forall|a: int, j: int|
                        0 <= a < 18 && 0 <= j < 64 ==> (#[trigger] e@[a]@[j]) == f(a, j),
                    forall|t: int|
                        0 <= t < j ==> (#[trigger] row@[t]) == equation(d, f, a as int, t) - (if t
                            < 9 {
                            self.output@[9 * a + t] as int
                        } else {
                            0
                        }),
                decreases 64 - j,
            {
                assert(sums@[a as int]@[j as int] == d[a as int][j as int]);
                let mut y: i128 = sums[a][j] as i128;
                if a > 0 {
                    assert(e@[a - 1]@[j as int] == f(a - 1, j as int));
                    y = y + e[a - 1][j] as i128;
                }
                if j >= 9 {
                    assert(e@[a as int]@[j - 9] == f(a as int, j - 9));
                    y = y - e[a][j - 9] as i128;
                } else {
                    assert(e@[a as int]@[j + 64 - 9] == f(a as int, j - 9 + 64));
                    y = y + e[a][j + 64 - 9] as i128;
                }
                if a == 0 || a == 9 {
                    assert(e@[17]@[j as int] == f(17, j as int));
                    y = y - e[17][j] as i128;
                }
                if j < 9 {
                    y = y - self.output[9 * a + j] as i128;
                }
                row[j] = y;
                j += 1;
            }
            r[a] = row;
            a += 1;
        }
        r
    }
}

/// Place `j` of carry `a`, as the digits store it.
fn stored_at(c: &chain::Carries, w: &Vectors, a: usize, j: usize) -> (y: i64)
    requires
        carries_placed(*c, w@),
        a < 18,
        j < 64,
    ensures
        y == stored(*c, w@, a as int, j as int, c.at@.len()),
{
    let n: usize = c.at.len();
    let ghost base = c.gadget.base as int;
    let mut y: i64 = 0;
    let mut s: i64 = 1;
    let mut d: usize = 0;
    proof {
        if n > 0 {
            lemma_reach(base, 1, n as nat);
            assert(weight(base, 0) == 1);
        }
    }
    while d < n
        invariant
            d <= n == c.at@.len(),
            base == c.gadget.base,
            carries_placed(*c, w@),
            a < 18,
            j < 64,
            d < n ==> s == weight(base, d as nat),
            y == stored(*c, w@, a as int, j as int, d as nat),
            -0x8000 * reach(base, d as nat) <= y <= 0x8000 * reach(base, d as nat),
        decreases n - d,
    {
        let at = c.at[d];
        assert(c.at@[d as int].vector < w@.len());
        let len: usize = w[at.vector].len();
        let q: i64 = w[at.vector][at.off + a][j] as i64;
        proof {
            lemma_reach(base, d as nat, n as nat);
            lemma_reach(base, (d + 1) as nat, n as nat);
            let (x, r) = (s as int, reach(base, (d + 1) as nat));
            assert(-0x8000 * x <= x * q <= 0x8000 * x) by (nonlinear_arith)
                requires
                    x >= 1,
                    -0x8000 <= q <= 0x7FFF,
            ;
        }
        y = y + s * q;
        d += 1;
        if d < n {
            proof {
                lemma_reach(base, (d + 1) as nat, n as nat);
                lemma_reach(base, d as nat, n as nat);
            }
            s = c.gadget.base * s;
        }
    }
    y
}

proof fn lemma_carry_bound(d: Seq<Seq<int>>, a: nat, j: int)
    requires
        d.len() == 18,
        a < 18,
        0 <= j,
        forall|a: int, j: int|
            0 <= a < 18 && 0 <= j < 64 ==> -0x400_0000_0000_0000 <= (#[trigger] d[a][j])
                <= 0x400_0000_0000_0000,
    ensures
        -0x5400_0000_0000_0000 <= carry(d, a, j) <= 0x5400_0000_0000_0000,
{
    lemma_carry(d, a, j);
    lemma_stack_bound(d, a + 1, 9 * (a + 1) + j);
    let (t0, t1) = (j + 9 * (a + 1), j + 9 * (a - 8));
    lemma_stack_bound(d, 18, 162 + t0);
    if t1 >= 0 {
        lemma_stack_bound(d, 18, 162 + t1);
    }
}

/// A chain whose digits store the honest carries: all its equations hold exactly when the identity
/// does, that is when its left side is worth its output.
pub proof fn chain_identity(c: Chain, public: Seq<Blocks>, w: Seq<Vec<super::Poly>>)
    requires
        bounded(chain_diagonals(c, public, w)),
        forall|a: int, j: int|
            0 <= a < 18 && 0 <= j < 64 ==> (#[trigger] stored(
                c.carries,
                w,
                a,
                j,
                c.carries.at@.len(),
            )) == carry(chain_diagonals(c, public, w), a as nat, j),
    ensures
        (forall|a: int, j: int|
            0 <= a < 18 && 0 <= j < 64 ==> #[trigger] equation(
                chain_diagonals(c, public, w),
                stored_carries(c.carries, w),
                a,
                j,
            ) == (if j < 9 {
                c.output@[9 * a + j] as int
            } else {
                0
            })) <==> value_of(chain_diagonals(c, public, w)) == chunk::ints(c.output@),
{
    let d = chain_diagonals(c, public, w);
    let e = stored_carries(c.carries, w);
    assert forall|a: int, j: int| 0 <= a < 18 && 0 <= j < 64 implies #[trigger] equation(d, e, a, j)
        == (if j < 9 {
        value_of(d)[9 * a + j]
    } else {
        0
    }) by {
        equations_hold(d, a, j);
        assert(e(a, j) == honest(d)(a, j));
        if a > 0 {
            assert(e(a - 1, j) == honest(d)(a - 1, j));
        }
        if j >= 9 {
            assert(e(a, j - 9) == honest(d)(a, j - 9));
        } else {
            assert(e(a, j - 9 + 64) == honest(d)(a, j - 9 + 64));
        }
        assert(e(17, j) == honest(d)(17, j));
    }
    let v = value_of(d);
    let o = chunk::ints(c.output@);
    if v == o {
        assert forall|a: int, j: int| 0 <= a < 18 && 0 <= j < 64 implies #[trigger] equation(
            d,
            e,
            a,
            j,
        ) == (if j < 9 {
            c.output@[9 * a + j] as int
        } else {
            0
        }) by {
            if j < 9 {
                assert(o[9 * a + j] == c.output@[9 * a + j]);
            }
        }
    }
    if forall|a: int, j: int|
        0 <= a < 18 && 0 <= j < 64 ==> #[trigger] equation(d, e, a, j) == (if j < 9 {
            c.output@[9 * a + j] as int
        } else {
            0
        }) {
        assert forall|i: int| 0 <= i < 162 implies v[i] == o[i] by {
            let (a, j) = (i / 9, i % 9);
            assert(9 * a + j == i);
            assert(equation(d, e, a, j) == c.output@[9 * a + j]);
        }
        assert(v =~= o);
    }
}

/// The levels of the carries are weighed by the powers of the base, so that a stored carry is the number
/// whose digits stand in its levels.
pub proof fn weights_are_powers(c: chain::Carries, w: Seq<Vec<super::Poly>>, a: int, j: int, n: nat)
    ensures
        forall|d: nat| #[trigger] weight(c.gadget.base as int, d) == pow(c.gadget.base as int, d),
        stored(c, w, a, j, n) == algebra::total(
            |d: int|
                pow(c.gadget.base as int, d as nat) * w[c.at@[d].vector as int]@[c.at@[d].off
                    + a]@[j] as int,
            n,
        ),
    decreases n,
{
    let b = c.gadget.base as int;
    assert forall|d: nat| #[trigger] weight(b, d) == pow(b, d) by {
        lemma_weight_power(b, d);
    }
    let f = |d: int| pow(b, d as nat) * w[c.at@[d].vector as int]@[c.at@[d].off + a]@[j] as int;
    if n > 0 {
        weights_are_powers(c, w, a, j, (n - 1) as nat);
        assert(algebra::total(f, n) == algebra::total(f, (n - 1) as nat) + f(n - 1));
        lemma_weight_power(b, (n - 1) as nat);
    }
}

proof fn lemma_weight_power(b: int, d: nat)
    ensures
        weight(b, d) == pow(b, d),
    decreases d,
{
    reveal(pow);
    if d > 0 {
        lemma_weight_power(b, (d - 1) as nat);
    }
}

} // verus!
