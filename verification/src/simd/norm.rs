//! Norms of ring elements.
use crate::bd::garner;
use vstd::prelude::*;

verus! {

/// Signed coefficients as integers.
pub open spec fn signed(a: Seq<i16>) -> Seq<int> {
    Seq::new(a.len(), |i: int| a[i] as int)
}

/// The squares of lane `l` among the first `n` entries. A lane holds a pair of every 32 entries.
pub open spec fn lane_sum(a: Seq<i16>, l: int, n: nat) -> int
    decreases n,
{
    if n == 0 {
        0
    } else {
        lane_sum(a, l, (n - 1) as nat) + if (n - 1) % 32 / 2 == l {
            a[n - 1] * a[n - 1]
        } else {
            0
        }
    }
}

/// The magnitude of an entry.
pub open spec fn magnitude(x: int) -> int {
    if x < 0 {
        -x
    } else {
        x
    }
}

/// The largest magnitude among the first `n` entries.
pub open spec fn peak(a: Seq<i16>, n: nat) -> int
    decreases n,
{
    if n == 0 {
        0
    } else {
        let m = peak(a, (n - 1) as nat);
        let x = magnitude(a[n - 1] as int);
        if x > m {
            x
        } else {
            m
        }
    }
}

/// No entry is larger than the peak.
pub proof fn lemma_peak(a: Seq<i16>, n: nat, i: int)
    requires
        0 <= i < n <= a.len(),
    ensures
        magnitude(a[i] as int) <= peak(a, n),
    decreases n,
{
    if i < n - 1 {
        lemma_peak(a, (n - 1) as nat, i);
    }
}

/// A lane leaves `i32`.
pub open spec fn overflows(a: Seq<i16>) -> bool {
    exists|l: int| 0 <= l < 16 && #[trigger] lane_sum(a, l, 648) > 0x7FFF_FFFF
}

proof fn lemma_square(x: i16)
    ensures
        0 <= x * x <= 0x4000_0000,
{
    assert(0 <= x * x <= 0x4000_0000) by (nonlinear_arith)
        requires
            -0x8000 <= x <= 0x7FFF,
    ;
}

proof fn lemma_lane(a: Seq<i16>, l: int, n: nat)
    requires
        n <= 648,
        n <= a.len(),
    ensures
        0 <= lane_sum(a, l, n) <= n * 0x4000_0000,
    decreases n,
{
    if n > 0 {
        lemma_lane(a, l, (n - 1) as nat);
        lemma_square(a[n - 1]);
    }
}

proof fn lemma_normsq(a: Seq<i16>, n: nat)
    requires
        n <= 648,
        n <= a.len(),
    ensures
        0 <= garner::normsq(signed(a), n) <= n * 0x4000_0000,
        0 <= peak(a, n) <= 0x8000,
    decreases n,
{
    if n > 0 {
        lemma_normsq(a, (n - 1) as nat);
        lemma_square(a[n - 1]);
    }
}

/// The sums of the 16 lanes.
fn lanes(a: &[i16; 648]) -> (s: [u64; 16])
    ensures
        forall|l: int| 0 <= l < 16 ==> (#[trigger] s@[l]) == lane_sum(a@, l, 648),
{
    let mut s: [u64; 16] = [0;16];
    let mut i: usize = 0;
    while i < 648
        invariant
            i <= 648,
            forall|l: int| 0 <= l < 16 ==> (#[trigger] s@[l]) == lane_sum(a@, l, i as nat),
        decreases 648 - i,
    {
        let x: i64 = a[i] as i64;
        let t: usize = i % 32 / 2;
        proof {
            lemma_square(a@[i as int]);
            lemma_lane(a@, t as int, i as nat);
            assert(s@[t as int] == lane_sum(a@, t as int, i as nat));
        }
        s[t] = s[t] + (x * x) as u64;
        i += 1;
    }
    s
}

/// `(|a|^2, max |a_i|)`, or `None` when a lane of the sum leaves `i32`.
pub fn normsq_and_max(a: &[i16; 648]) -> (r: Option<(u64, i32)>)
    ensures
        r is None <==> overflows(a@),
        r matches Some((n, m)) ==> n == garner::normsq(signed(a@), 648) && m == peak(a@, 648),
{
    let s = lanes(a);
    let mut l: usize = 0;
    while l < 16
        invariant
            l <= 16,
            forall|l: int| 0 <= l < 16 ==> (#[trigger] s@[l]) == lane_sum(a@, l, 648),
            forall|t: int| 0 <= t < l ==> (#[trigger] s@[t]) <= 0x7FFF_FFFF,
        decreases 16 - l,
    {
        if s[l] > 0x7FFF_FFFF {
            assert(lane_sum(a@, l as int, 648) > 0x7FFF_FFFF);
            return None;
        }
        l += 1;
    }
    assert(!overflows(a@)) by {
        assert forall|l: int| 0 <= l < 16 implies #[trigger] lane_sum(a@, l, 648) <= 0x7FFF_FFFF by {
            assert(s@[l] == lane_sum(a@, l, 648));
        }
    }
    let mut n: u64 = 0;
    let mut m: i32 = 0;
    let mut i: usize = 0;
    while i < 648
        invariant
            i <= 648,
            n == garner::normsq(signed(a@), i as nat),
            m == peak(a@, i as nat),
        decreases 648 - i,
    {
        let x: i32 = a[i] as i32;
        proof {
            lemma_square(a@[i as int]);
            lemma_normsq(a@, i as nat);
        }
        n = n + (x as i64 * x as i64) as u64;
        let y: i32 = if x < 0 {
            -x
        } else {
            x
        };
        if y > m {
            m = y;
        }
        i += 1;
    }
    Some((n, m))
}

} // verus!
