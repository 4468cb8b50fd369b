//! Histograms scaled to a total of exactly 4096.
//!
//! Every occupied symbol keeps at least one slot, the rest is shared out by largest remainder,
//! and, when the occupied range does not fit, the rarest symbols are folded into the escape
//! symbol at the end of the table.
use vstd::arithmetic::div_mod::*;
use vstd::arithmetic::mul::*;
use vstd::prelude::*;

verus! {

/// The frequency total.
pub const SCALE: u32 = 4096;

// ---------------------------------------------------------------------------------------------
// counting
// ---------------------------------------------------------------------------------------------

/// The number of entries among the first `n` that are at least `t`.
pub open spec fn at_least(v: Seq<u64>, t: int, n: nat) -> nat
    decreases n,
{
    if n == 0 {
        0
    } else {
        at_least(v, t, (n - 1) as nat) + (if v[n - 1] >= t {
            1nat
        } else {
            0nat
        })
    }
}

/// The number of entries among the first `n` that equal `t`.
pub open spec fn equal(v: Seq<u64>, t: int, n: nat) -> nat
    decreases n,
{
    if n == 0 {
        0
    } else {
        equal(v, t, (n - 1) as nat) + (if v[n - 1] == t {
            1nat
        } else {
            0nat
        })
    }
}

/// The place of entry `i` in descending order, equal entries in the order they stand in.
pub open spec fn rank(v: Seq<u64>, i: int) -> nat {
    at_least(v, v[i] + 1, v.len()) + equal(v, v[i] as int, i as nat)
}

/// The sum of the first `n` entries.
pub open spec fn sum(v: Seq<u64>, n: nat) -> nat
    decreases n,
{
    if n == 0 {
        0
    } else {
        sum(v, (n - 1) as nat) + v[n - 1] as nat
    }
}

/// The sum of the first `n` entries of a table of frequencies.
pub open spec fn prefix(f: Seq<u32>, n: nat) -> nat
    decreases n,
{
    if n == 0 {
        0
    } else {
        prefix(f, (n - 1) as nat) + f[n - 1] as nat
    }
}

proof fn lemma_at_least_mono(v: Seq<u64>, s: int, t: int, n: nat)
    requires
        s <= t,
    ensures
        at_least(v, t, n) <= at_least(v, s, n) <= n,
    decreases n,
{
    if n > 0 {
        lemma_at_least_mono(v, s, t, (n - 1) as nat);
    }
}

proof fn lemma_at_least_split(v: Seq<u64>, t: int, n: nat)
    ensures
        at_least(v, t, n) == at_least(v, t + 1, n) + equal(v, t, n),
    decreases n,
{
    if n > 0 {
        lemma_at_least_split(v, t, (n - 1) as nat);
    }
}

proof fn lemma_at_least_bounds(v: Seq<u64>, n: nat)
    requires
        n <= v.len(),
    ensures
        at_least(v, 0, n) == n,
        at_least(v, 0x1_0000_0000_0000_0000, n) == 0,
    decreases n,
{
    if n > 0 {
        lemma_at_least_bounds(v, (n - 1) as nat);
    }
}

proof fn lemma_equal_mono(v: Seq<u64>, t: int, m: nat, n: nat)
    requires
        m <= n,
    ensures
        equal(v, t, m) <= equal(v, t, n),
    decreases n,
{
    if m < n {
        lemma_equal_mono(v, t, m, (n - 1) as nat);
    }
}

/// What the threshold `t` of the `k` largest entries says of entry `i`.
proof fn lemma_rank(v: Seq<u64>, t: int, k: nat, i: int)
    requires
        0 <= i < v.len(),
        at_least(v, t, v.len()) >= k,
        at_least(v, t + 1, v.len()) < k,
    ensures
        rank(v, i) < k <==> (v[i] > t || v[i] == t && equal(v, t, i as nat) < k - at_least(
            v,
            t + 1,
            v.len(),
        )),
{
    let (x, n) = (v[i] as int, v.len());
    lemma_at_least_split(v, x, n);
    lemma_equal_mono(v, x, (i + 1) as nat, n);
    if x > t {
        lemma_at_least_mono(v, t + 1, x, n);
    } else if x < t {
        lemma_at_least_mono(v, x + 1, t, n);
    }
}

/// How many of the first `n` entries are marked.
pub open spec fn marked(r: Seq<bool>, n: nat) -> nat
    decreases n,
{
    if n == 0 {
        0
    } else {
        marked(r, (n - 1) as nat) + (if r[n - 1] {
            1nat
        } else {
            0nat
        })
    }
}

proof fn lemma_marked(v: Seq<u64>, r: Seq<bool>, t: int, quota: nat, n: nat)
    requires
        n <= v.len(),
        r.len() == v.len(),
        forall|i: int|
            0 <= i < v.len() ==> #[trigger] r[i] == (v[i] > t || v[i] == t && equal(
                v,
                t,
                i as nat,
            ) < quota),
    ensures
        marked(r, n) == at_least(v, t + 1, n) + (if equal(v, t, n) < quota {
            equal(v, t, n)
        } else {
            quota
        }),
    decreases n,
{
    if n > 0 {
        lemma_marked(v, r, t, quota, (n - 1) as nat);
        assert(r[n - 1] == (v[n - 1] > t || v[n - 1] == t && equal(v, t, (n - 1) as nat) < quota));
    }
}

fn count_at_least(v: &[u64], t: u64) -> (c: usize)
    ensures
        c == at_least(v@, t as int, v@.len()),
        c <= v@.len(),
{
    let mut c: usize = 0;
    let mut i: usize = 0;
    while i < v.len()
        invariant
            i <= v@.len(),
            c <= i,
            c == at_least(v@, t as int, i as nat),
        decreases v@.len() - i,
    {
        if v[i] >= t {
            c += 1;
        }
        i += 1;
    }
    c
}

/// Marks the `k` largest entries, the earlier of two equal ones first.
pub fn select(v: &[u64], k: usize) -> (r: Vec<bool>)
    requires
        k <= v@.len(),
    ensures
        r@.len() == v@.len(),
        forall|i: int| 0 <= i < v@.len() ==> #[trigger] r@[i] == (rank(v@, i) < k),
        marked(r@, v@.len()) == k,
{
    let n: usize = v.len();
    if k == 0 {
        let r: Vec<bool> = vec![false; n];
        proof {
            lemma_marked_none(r@, n as nat);
        }
        return r;
    }
    // at_least(lo) >= k, and at_least(hi + 1) < k
    let mut lo: u64 = 0;
    let mut hi: u64 = u64::MAX;
    proof {
        lemma_at_least_bounds(v@, n as nat);
    }
    while lo < hi
        invariant
            n == v@.len(),
            k >= 1,
            lo <= hi,
            at_least(v@, lo as int, n as nat) >= k,
            at_least(v@, hi + 1, n as nat) < k,
        decreases hi - lo,
    {
        let mid: u64 = lo + (hi - lo) / 2 + 1;
        if count_at_least(v, mid) >= k {
            lo = mid;
        } else {
            hi = mid - 1;
        }
    }
    let above: usize = if lo == u64::MAX {
        0
    } else {
        count_at_least(v, lo + 1)
    };
    let quota: usize = k - above;
    let mut r: Vec<bool> = Vec::with_capacity(n);
    let mut seen: usize = 0;
    let mut i: usize = 0;
    while i < n
        invariant
            i <= n == v@.len(),
            seen <= i,
            seen == equal(v@, lo as int, i as nat),
            r@.len() == i,
            quota == k - at_least(v@, lo + 1, n as nat),
            forall|j: int|
                0 <= j < i ==> #[trigger] r@[j] == (v@[j] > lo || v@[j] == lo && equal(
                    v@,
                    lo as int,
                    j as nat,
                ) < quota),
        decreases n - i,
    {
        let x: u64 = v[i];
        r.push(x > lo || (x == lo && seen < quota));
        if x == lo {
            seen += 1;
        }
        i += 1;
    }
    proof {
        let t = lo as int;
        assert forall|j: int| 0 <= j < n implies #[trigger] r@[j] == (rank(v@, j) < k) by {
            lemma_rank(v@, t, k as nat, j);
        }
        lemma_marked(v@, r@, t, quota as nat, n as nat);
        lemma_at_least_split(v@, t, n as nat);
    }
    r
}

proof fn lemma_marked_none(r: Seq<bool>, n: nat)
    requires
        n <= r.len(),
        forall|i: int| 0 <= i < r.len() ==> !(#[trigger] r[i]),
    ensures
        marked(r, n) == 0,
    decreases n,
{
    if n > 0 {
        lemma_marked_none(r, (n - 1) as nat);
    }
}

// ---------------------------------------------------------------------------------------------
// folding
// ---------------------------------------------------------------------------------------------

/// The counts of the symbols that are folded, among the first `n`.
pub open spec fn lost(body: Seq<u64>, n: nat) -> nat
    decreases n,
{
    if n == 0 {
        0
    } else {
        lost(body, (n - 1) as nat) + (if rank(body, n - 1) < 4095 {
            0nat
        } else {
            body[n - 1] as nat
        })
    }
}

/// The counts with the escape symbol, the last one, taking in every symbol beyond the 4095 most
/// frequent.
pub open spec fn folded_counts(w: Seq<u64>) -> Seq<u64> {
    let e = (w.len() - 1) as nat;
    let body = w.take(e as int);
    if at_least(w, 1, e) <= 4095 {
        w
    } else {
        Seq::new(
            w.len(),
            |i: int|
                if i == e {
                    (w[i] + lost(body, e)) as u64
                } else if rank(body, i) < 4095 {
                    w[i]
                } else {
                    0
                },
        )
    }
}

proof fn lemma_at_least_take(w: Seq<u64>, e: nat, n: nat)
    requires
        n <= e <= w.len(),
    ensures
        at_least(w.take(e as int), 1, n) == at_least(w, 1, n),
    decreases n,
{
    if n > 0 {
        lemma_at_least_take(w, e, (n - 1) as nat);
    }
}

/// Folding keeps the total, and leaves at most 4096 symbols occupied.
proof fn lemma_folded(w: Seq<u64>, r: Seq<bool>, n: nat)
    requires
        w.len() >= 1,
        r.len() == w.len() - 1,
        at_least(w, 1, (w.len() - 1) as nat) > 4095,
        forall|i: int| 0 <= i < r.len() ==> #[trigger] r[i] == (rank(w.take(w.len() - 1), i) < 4095),
        n <= w.len() - 1,
        sum(w, w.len()) <= u64::MAX,
    ensures
        sum(folded_counts(w), n) + lost(w.take(w.len() - 1), n) == sum(w, n),
        at_least(folded_counts(w), 1, n) <= marked(r, n),
        sum(w, n) <= sum(w, w.len()),
    decreases n,
{
    lemma_sum_mono(w, n, w.len());
    if n > 0 {
        let m = (n - 1) as nat;
        lemma_folded(w, r, m);
        let f = folded_counts(w);
        assert(r[n - 1] == (rank(w.take(w.len() - 1), n - 1) < 4095));
        assert(w.take(w.len() - 1)[n - 1] == w[n - 1]);
    }
}

proof fn lemma_sum_mono(w: Seq<u64>, m: nat, n: nat)
    requires
        m <= n,
    ensures
        sum(w, m) <= sum(w, n),
    decreases n,
{
    if m < n {
        lemma_sum_mono(w, m, (n - 1) as nat);
    }
}

fn fold(counts: &[u64]) -> (w: Vec<u64>)
    requires
        counts@.len() >= 1,
        sum(counts@, counts@.len()) <= u64::MAX,
    ensures
        w@ == folded_counts(counts@),
        sum(w@, w@.len()) == sum(counts@, counts@.len()),
        at_least(w@, 1, w@.len()) <= 4096,
{
    let n: usize = counts.len();
    let e: usize = n - 1;
    let body: &[u64] = vstd::slice::slice_subrange(counts, 0, e);
    proof {
        assert(body@ =~= counts@.take(e as int));
        lemma_at_least_take(counts@, e as nat, e as nat);
    }
    let occupied: usize = count_at_least(body, 1);
    let mut w: Vec<u64> = Vec::with_capacity(n);
    if occupied <= 4095 {
        let mut i: usize = 0;
        while i < n
            invariant
                i <= n == counts@.len(),
                w@ == counts@.take(i as int),
            decreases n - i,
        {
            w.push(counts[i]);
            i += 1;
            assert(w@ =~= counts@.take(i as int));
        }
        assert(w@ =~= counts@);
        return w;
    }
    proof {
        lemma_at_least_mono(body@, 0, 1, e as nat);
    }
    let keep = select(body, 4095);
    let ghost f = folded_counts(counts@);
    let mut escaped: u64 = counts[e];
    let mut i: usize = 0;
    while i < e
        invariant
            i <= e,
            e + 1 == n == counts@.len(),
            body@ == counts@.take(e as int),
            keep@.len() == e,
            forall|j: int| 0 <= j < e ==> #[trigger] keep@[j] == (rank(body@, j) < 4095),
            at_least(counts@, 1, e as nat) > 4095,
            sum(counts@, counts@.len()) <= u64::MAX,
            f == folded_counts(counts@),
            escaped == counts@[e as int] + lost(body@, i as nat),
            w@ == f.take(i as int),
        decreases e - i,
    {
        proof {
            lemma_folded(counts@, keep@, (i + 1) as nat);
            lemma_sum_mono(counts@, (i + 1) as nat, e as nat);
            lemma_lost_mono(body@, (i + 1) as nat);
            lemma_folded(counts@, keep@, e as nat);
            assert(sum(counts@, n as nat) == sum(counts@, e as nat) + counts@[e as int]);
        }
        if keep[i] {
            w.push(counts[i]);
        } else {
            escaped = escaped + counts[i];
            w.push(0);
        }
        i += 1;
        assert(w@ =~= f.take(i as int));
    }
    w.push(escaped);
    proof {
        lemma_folded(counts@, keep@, e as nat);
        assert(w@ =~= f);
    }
    w
}

proof fn lemma_lost_mono(body: Seq<u64>, n: nat)
    requires
        1 <= n,
    ensures
        lost(body, (n - 1) as nat) <= lost(body, n),
{
}

// ---------------------------------------------------------------------------------------------
// sharing out
// ---------------------------------------------------------------------------------------------

/// The whole slots that entry `i` gets of the `spare` ones.
pub open spec fn share(w: Seq<u64>, spare: nat, i: int) -> nat {
    (w[i] as nat * spare) / sum(w, w.len())
}

/// The slots that the first `n` entries get.
pub open spec fn shares(w: Seq<u64>, spare: nat, n: nat) -> nat
    decreases n,
{
    if n == 0 {
        0
    } else {
        shares(w, spare, (n - 1) as nat) + share(w, spare, n - 1)
    }
}

/// The remainders plus one, zero for an empty entry.
pub open spec fn remainders(w: Seq<u64>, spare: nat) -> Seq<u64> {
    Seq::new(
        w.len(),
        |i: int|
            if w[i] == 0 {
                0
            } else {
                ((w[i] as nat * spare) % sum(w, w.len()) + 1) as u64
            },
    )
}

/// The frequencies of the counts `w`: one slot for each occupied entry, the `spare` others in
/// proportion, those that the division leaves over to the largest remainders.
pub open spec fn shared(w: Seq<u64>) -> Seq<u32> {
    let n = w.len();
    let spare = (4096 - at_least(w, 1, n)) as nat;
    let extra = spare - shares(w, spare, n);
    Seq::new(
        n,
        |i: int|
            if w[i] == 0 {
                0
            } else {
                (1 + share(w, spare, i) + (if rank(remainders(w, spare), i) < extra {
                    1int
                } else {
                    0int
                })) as u32
            },
    )
}

/// The frequencies of a histogram whose last entry is the escape symbol.
pub open spec fn quantized(counts: Seq<u64>) -> Seq<u32> {
    shared(folded_counts(counts))
}

/// The sum of the remainders of the first `n` entries.
spec fn rests(w: Seq<u64>, spare: nat, n: nat) -> nat
    decreases n,
{
    if n == 0 {
        0
    } else {
        rests(w, spare, (n - 1) as nat) + (w[n - 1] as nat * spare) % sum(w, w.len())
    }
}

proof fn lemma_shares(w: Seq<u64>, spare: nat, n: nat)
    requires
        sum(w, w.len()) > 0,
        n <= w.len(),
    ensures
        spare * sum(w, n) == sum(w, w.len()) * shares(w, spare, n) + rests(w, spare, n),
        rests(w, spare, n) <= sum(w, w.len()) * at_least(w, 1, n),
    decreases n,
{
    let t = sum(w, w.len()) as int;
    if n > 0 {
        let m = (n - 1) as nat;
        lemma_shares(w, spare, m);
        let x = (w[n - 1] as nat * spare) as int;
        lemma_fundamental_div_mod(x, t);
        lemma_mod_bound(x, t);
        let (a, b, c) = (shares(w, spare, m) as int, x / t, at_least(w, 1, m) as int);
        assert(t * (a + b) == t * a + t * b) by (nonlinear_arith);
        assert(spare * (sum(w, m) + w[n - 1]) == spare * sum(w, m) + w[n - 1] * spare)
            by (nonlinear_arith);
        assert(t * (c + 1) == t * c + t) by (nonlinear_arith);
        if w[n - 1] == 0 {
            assert(x == 0) by (nonlinear_arith)
                requires
                    x == w[n - 1] as nat * spare,
                    w[n - 1] == 0,
            ;
            lemma_small_mod(0, t as nat);
        }
    } else {
        assert(spare * 0 == 0 && t * 0 == 0) by (nonlinear_arith);
    }
}

/// The slots left over are fewer than the occupied entries.
proof fn lemma_extra(w: Seq<u64>)
    requires
        sum(w, w.len()) > 0,
        at_least(w, 1, w.len()) <= 4096,
    ensures
        ({
            let n = w.len();
            let spare = (4096 - at_least(w, 1, n)) as nat;
            &&& shares(w, spare, n) <= spare
            &&& spare - shares(w, spare, n) <= at_least(w, 1, n)
        }),
{
    let n = w.len();
    let occ = at_least(w, 1, n);
    let spare = (4096 - occ) as nat;
    let t = sum(w, n) as int;
    lemma_shares(w, spare, n);
    let (a, r, c) = (shares(w, spare, n) as int, rests(w, spare, n) as int, occ as int);
    assert(a <= spare && spare - a <= c) by (nonlinear_arith)
        requires
            spare * t == t * a + r,
            0 <= r <= t * c,
            t > 0,
    ;
}

proof fn lemma_remainders(w: Seq<u64>, spare: nat, n: nat)
    requires
        n <= w.len(),
        sum(w, w.len()) > 0,
        sum(w, w.len()) < u64::MAX,
    ensures
        at_least(remainders(w, spare), 1, n) == at_least(w, 1, n),
    decreases n,
{
    if n > 0 {
        lemma_remainders(w, spare, (n - 1) as nat);
        lemma_mod_bound((w[n - 1] as nat * spare) as int, sum(w, w.len()) as int);
    }
}

proof fn lemma_total(w: Seq<u64>, r: Seq<bool>, n: nat)
    requires
        sum(w, w.len()) > 0,
        sum(w, w.len()) < u64::MAX,
        at_least(w, 1, w.len()) <= 4096,
        n <= w.len(),
        r.len() == w.len(),
        ({
            let spare = (4096 - at_least(w, 1, w.len())) as nat;
            let extra = spare - shares(w, spare, w.len());
            forall|i: int|
                0 <= i < w.len() ==> #[trigger] r[i] == (rank(remainders(w, spare), i) < extra)
        }),
    ensures
        ({
            let spare = (4096 - at_least(w, 1, w.len())) as nat;
            &&& prefix(shared(w), n) == at_least(w, 1, n) + shares(w, spare, n) + marked(r, n)
            &&& shares(w, spare, n) <= shares(w, spare, w.len())
        }),
    decreases n,
{
    let len = w.len();
    let spare = (4096 - at_least(w, 1, len)) as nat;
    lemma_shares_mono(w, spare, n, len);
    lemma_extra(w);
    if n > 0 {
        let m = (n - 1) as nat;
        lemma_total(w, r, m);
        lemma_shares_mono(w, spare, m, len);
        lemma_shares_mono(w, spare, n, len);
        let v = remainders(w, spare);
        let i = n - 1;
        assert(r[i] == (rank(v, i) < spare - shares(w, spare, len)));
        if w[i] == 0 {
            // an empty entry ranks behind every occupied one
            lemma_remainders(w, spare, len);
            assert(v[i] == 0);
            assert(rank(v, i) >= at_least(v, 1, len));
            lemma_zero_share(w, spare, i);
        }
        assert(shared(w)[i] as nat == (if w[i] == 0 {
            0nat
        } else {
            1nat + share(w, spare, i) + (if r[i] {
                1nat
            } else {
                0nat
            })
        }));
    }
}

proof fn lemma_zero_share(w: Seq<u64>, spare: nat, i: int)
    requires
        w[i] == 0,
        sum(w, w.len()) > 0,
    ensures
        share(w, spare, i) == 0,
{
    assert(w[i] as nat * spare == 0) by (nonlinear_arith)
        requires
            w[i] == 0,
    ;
    lemma_basic_div(0, sum(w, w.len()) as int);
}

proof fn lemma_shares_mono(w: Seq<u64>, spare: nat, m: nat, n: nat)
    requires
        m <= n <= w.len(),
        sum(w, w.len()) > 0,
    ensures
        shares(w, spare, m) <= shares(w, spare, n),
    decreases n,
{
    if m < n {
        lemma_shares_mono(w, spare, m, (n - 1) as nat);
        lemma_div_pos_is_pos(
            (w[n - 1] as nat * spare) as int,
            sum(w, w.len()) as int,
        );
    }
}

/// The counts scaled to a total of exactly 4096; all zero where every count is.
pub fn quantize(counts: &[u64]) -> (f: Vec<u32>)
    requires
        counts@.len() >= 1,
        sum(counts@, counts@.len()) <= 0x4_0000_0000_0000,
    ensures
        f@ == quantized(counts@),
        f@.len() == counts@.len(),
{
    let w = fold(counts);
    let n: usize = w.len();
    let mut total: u64 = 0;
    let mut i: usize = 0;
    while i < n
        invariant
            i <= n == w@.len(),
            sum(w@, n as nat) <= 0x4_0000_0000_0000,
            total == sum(w@, i as nat),
        decreases n - i,
    {
        proof {
            lemma_sum_mono(w@, (i + 1) as nat, n as nat);
        }
        total = total + w[i];
        i += 1;
    }
    let mut f: Vec<u32> = Vec::with_capacity(n);
    if total == 0 {
        let mut i: usize = 0;
        while i < n
            invariant
                i <= n == w@.len(),
                sum(w@, n as nat) == 0,
                f@.len() == i,
                forall|j: int| 0 <= j < i ==> #[trigger] f@[j] == 0 && w@[j] == 0,
            decreases n - i,
        {
            proof {
                lemma_sum_mono(w@, (i + 1) as nat, n as nat);
            }
            f.push(0);
            i += 1;
        }
        assert(f@ =~= shared(w@));
        return f;
    }
    let occupied: usize = count_at_least(w.as_slice(), 1);
    let spare: u64 = 4096 - occupied as u64;
    let mut rem: Vec<u64> = Vec::with_capacity(n);
    let mut used: u64 = 0;
    let mut i: usize = 0;
    proof {
        lemma_extra(w@);
    }
    while i < n
        invariant
            i <= n == w@.len(),
            total == sum(w@, n as nat),
            0 < total <= 0x4_0000_0000_0000,
            spare <= 4096,
            shares(w@, spare as nat, n as nat) <= spare,
            used == shares(w@, spare as nat, i as nat),
            rem@ == remainders(w@, spare as nat).take(i as int),
        decreases n - i,
    {
        proof {
            lemma_sum_mono(w@, (i + 1) as nat, n as nat);
            lemma_shares_mono(w@, spare as nat, (i + 1) as nat, n as nat);
            lemma_mul_upper_bound(w@[i as int] as int, 0x4_0000_0000_0000, spare as int, 4096);
            lemma_mod_bound((w@[i as int] as nat * spare as nat) as int, total as int);
        }
        let x: u64 = w[i] * spare;
        used = used + x / total;
        rem.push(
            if w[i] == 0 {
                0
            } else {
                x % total + 1
            },
        );
        i += 1;
        assert(rem@ =~= remainders(w@, spare as nat).take(i as int));
    }
    assert(rem@ =~= remainders(w@, spare as nat));
    proof {
        lemma_at_least_mono(w@, 0, 1, n as nat);
    }
    let bonus = select(rem.as_slice(), (spare - used) as usize);
    let mut i: usize = 0;
    while i < n
        invariant
            i <= n == w@.len(),
            total == sum(w@, n as nat),
            0 < total <= 0x4_0000_0000_0000,
            at_least(w@, 1, n as nat) <= 4096,
            spare == 4096 - at_least(w@, 1, n as nat),
            shares(w@, spare as nat, n as nat) <= spare,
            used == shares(w@, spare as nat, n as nat),
            bonus@.len() == n,
            forall|j: int|
                0 <= j < n ==> #[trigger] bonus@[j] == (rank(remainders(w@, spare as nat), j)
                    < spare - used),
            f@ == shared(w@).take(i as int),
        decreases n - i,
    {
        proof {
            lemma_sum_mono(w@, (i + 1) as nat, n as nat);
            lemma_shares_mono(w@, spare as nat, i as nat, n as nat);
            lemma_shares_mono(w@, spare as nat, (i + 1) as nat, n as nat);
            lemma_mul_upper_bound(w@[i as int] as int, 0x4_0000_0000_0000, spare as int, 4096);
            assert(share(w@, spare as nat, i as int) <= spare);
        }
        let x: u64 = w[i] * spare / total;
        f.push(
            if w[i] == 0 {
                0
            } else if bonus[i] {
                x as u32 + 2
            } else {
                x as u32 + 1
            },
        );
        i += 1;
        assert(f@ =~= shared(w@).take(i as int));
    }
    assert(f@ =~= shared(w@));
    f
}

// ---------------------------------------------------------------------------------------------
// the frequencies make up the table
// ---------------------------------------------------------------------------------------------

proof fn lemma_threshold(v: Seq<u64>, k: nat, t: int) -> (r: int)
    requires
        0 <= t <= 0x1_0000_0000_0000_0000,
        at_least(v, t, v.len()) >= k,
        k >= 1,
    ensures
        at_least(v, r, v.len()) >= k,
        at_least(v, r + 1, v.len()) < k,
    decreases 0x1_0000_0000_0000_0000 - t,
{
    lemma_at_least_bounds(v, v.len());
    if at_least(v, t + 1, v.len()) < k {
        t
    } else {
        lemma_threshold(v, k, t + 1)
    }
}

/// The entries of rank below `k`, marked.
pub open spec fn best(v: Seq<u64>, k: nat) -> Seq<bool> {
    Seq::new(v.len(), |i: int| rank(v, i) < k)
}

/// Exactly `k` entries have rank below `k`.
pub proof fn lemma_best(v: Seq<u64>, k: nat)
    requires
        k <= v.len(),
    ensures
        marked(best(v, k), v.len()) == k,
{
    let n = v.len();
    if k == 0 {
        lemma_marked_none(best(v, k), n);
    } else {
        lemma_at_least_bounds(v, n);
        let t = lemma_threshold(v, k, 0);
        let quota = (k - at_least(v, t + 1, n)) as nat;
        let r = best(v, k);
        assert forall|i: int| 0 <= i < n implies #[trigger] r[i] == (v[i] > t || v[i] == t && equal(
            v,
            t,
            i as nat,
        ) < quota) by {
            lemma_rank(v, t, k, i);
        }
        lemma_marked(v, r, t, quota, n);
        lemma_at_least_split(v, t, n);
    }
}

/// Folding keeps the total and leaves at most 4096 entries occupied.
pub proof fn lemma_folded_counts(w: Seq<u64>)
    requires
        w.len() >= 1,
        sum(w, w.len()) <= u64::MAX,
    ensures
        folded_counts(w).len() == w.len(),
        sum(folded_counts(w), w.len()) == sum(w, w.len()),
        at_least(folded_counts(w), 1, w.len()) <= 4096,
{
    let e = (w.len() - 1) as nat;
    let body = w.take(e as int);
    lemma_at_least_take(w, e, e);
    lemma_at_least_mono(body, 0, 1, e);
    if at_least(w, 1, e) > 4095 {
        lemma_best(body, 4095);
        lemma_folded(w, best(body, 4095), e);
        lemma_lost_bound(w, e);
    }
}

/// The frequencies of a histogram that is not empty add up to 4096, and an entry has slots
/// exactly where it keeps a count.
pub proof fn lemma_quantized(counts: Seq<u64>)
    requires
        counts.len() >= 1,
        0 < sum(counts, counts.len()) < u64::MAX,
    ensures
        quantized(counts).len() == counts.len(),
        prefix(quantized(counts), counts.len()) == 4096,
        forall|i: int|
            0 <= i < counts.len() ==> (#[trigger] quantized(counts)[i] == 0 <==> folded_counts(
                counts,
            )[i] == 0),
{
    let w = folded_counts(counts);
    let n = counts.len();
    lemma_folded_counts(counts);
    lemma_extra(w);
    let spare = (4096 - at_least(w, 1, n)) as nat;
    let extra = (spare - shares(w, spare, n)) as nat;
    let v = remainders(w, spare);
    lemma_at_least_mono(w, 0, 1, n);
    lemma_best(v, extra);
    lemma_total(w, best(v, extra), n);
    assert forall|i: int| 0 <= i < n implies (#[trigger] quantized(counts)[i] == 0 <==> w[i]
        == 0) by {
        lemma_shares_mono(w, spare, i as nat, n);
        lemma_shares_mono(w, spare, (i + 1) as nat, n);
        assert(share(w, spare, i) <= spare);
    }
}

proof fn lemma_lost_at_least(body: Seq<u64>, i: int, n: nat)
    requires
        0 <= i < n <= body.len(),
        rank(body, i) >= 4095,
    ensures
        lost(body, n) >= body[i],
    decreases n,
{
    if i < n - 1 {
        lemma_lost_at_least(body, i, (n - 1) as nat);
    }
}

/// A symbol that occurs keeps its count, or adds to that of the escape symbol.
pub proof fn lemma_folded_nonzero(w: Seq<u64>, i: int)
    requires
        0 <= i < w.len() - 1,
        w[i] > 0,
        sum(w, w.len()) <= u64::MAX,
    ensures
        folded_counts(w)[i] > 0 || folded_counts(w)[w.len() - 1] > 0,
{
    let e = (w.len() - 1) as nat;
    let body = w.take(e as int);
    if at_least(w, 1, e) > 4095 && rank(body, i) >= 4095 {
        lemma_lost_at_least(body, i, e);
        lemma_lost_bound(w, e);
    }
}

proof fn lemma_lost_bound(w: Seq<u64>, n: nat)
    requires
        n < w.len(),
    ensures
        lost(w.take(w.len() - 1), n) <= sum(w, n),
        sum(w, n) + w[w.len() - 1] <= sum(w, w.len()),
    decreases n,
{
    lemma_sum_mono(w, n, (w.len() - 1) as nat);
    if n > 0 {
        lemma_lost_bound(w, (n - 1) as nat);
        assert(w.take(w.len() - 1)[n - 1] == w[n - 1]);
    }
}

/// One more occurrence adds one to the sum.
pub proof fn lemma_sum_update(w: Seq<u64>, i: int, x: u64, n: nat)
    requires
        0 <= i < w.len(),
        n <= w.len(),
    ensures
        sum(w.update(i, x), n) == sum(w, n) + (if i < n {
            x - w[i]
        } else {
            0
        }),
    decreases n,
{
    if n > 0 {
        lemma_sum_update(w, i, x, (n - 1) as nat);
    }
}

pub proof fn lemma_sum_zero(w: Seq<u64>, n: nat)
    requires
        n <= w.len(),
        forall|i: int| 0 <= i < w.len() ==> #[trigger] w[i] == 0,
    ensures
        sum(w, n) == 0,
    decreases n,
{
    if n > 0 {
        lemma_sum_zero(w, (n - 1) as nat);
    }
}

pub proof fn lemma_entry_bound(w: Seq<u64>, i: int)
    requires
        0 <= i < w.len(),
    ensures
        w[i] <= sum(w, w.len()),
{
    lemma_sum_mono(w, (i + 1) as nat, w.len());
}

// ---------------------------------------------------------------------------------------------
// laws
// ---------------------------------------------------------------------------------------------

/// A larger entry, or an equal one that comes first, has the smaller rank.
pub proof fn larger_ranks_first(v: Seq<u64>, i: int, j: int)
    requires
        0 <= i < v.len(),
        0 <= j < v.len(),
        v[i] > v[j] || (v[i] == v[j] && i < j),
    ensures
        rank(v, i) < rank(v, j),
{
    let n = v.len();
    let (x, y) = (v[i] as int, v[j] as int);
    if x > y {
        lemma_at_least_mono(v, y + 1, x, n);
        lemma_at_least_split(v, x, n);
        lemma_equal_mono(v, x, (i + 1) as nat, n);
    } else {
        lemma_equal_mono(v, x, (i + 1) as nat, j as nat);
    }
}

/// What is folded into the escape symbol is the rare: a symbol that keeps its count occurs at least as
/// often as one that loses it.
pub proof fn rare_symbols_fold(w: Seq<u64>, i: int, j: int)
    requires
        0 <= i < w.len() - 1,
        0 <= j < w.len() - 1,
        w[i] > 0,
        folded_counts(w)[i] == 0,
        folded_counts(w)[j] > 0,
    ensures
        w[j] >= w[i],
        folded_counts(w)[j] == w[j],
{
    let body = w.take(w.len() - 1);
    assert(body[i] == w[i] && body[j] == w[j]);
    if w[j] < w[i] {
        larger_ranks_first(body, i, j);
    }
}

/// The slots are shared out in proportion: an entry with `w` of `total` counts gets less than two slots
/// more, and no slot less, than its part of what is left once every occupied entry has one, and an entry
/// that occurs more often never gets fewer.
pub proof fn slots_in_proportion(counts: Seq<u64>, i: int, j: int)
    requires
        counts.len() >= 1,
        0 < sum(counts, counts.len()) < u64::MAX,
        0 <= i < counts.len(),
        0 <= j < counts.len(),
        folded_counts(counts)[i] > 0,
    ensures
        ({
            let (w, f) = (folded_counts(counts), quantized(counts));
            let t = sum(counts, counts.len()) as int;
            let spare = 4096 - at_least(w, 1, counts.len());
            &&& f[i] >= 1
            &&& t * (f[i] - 2) <= w[i] * spare < t * f[i]
            &&& w[i] > w[j] || (w[i] == w[j] && i < j) ==> f[i] >= f[j]
        }),
{
    let w = folded_counts(counts);
    let n = counts.len();
    lemma_folded_counts(counts);
    lemma_extra(w);
    let t = sum(w, n) as int;
    let spare = (4096 - at_least(w, 1, n)) as nat;
    let extra = (spare - shares(w, spare, n)) as nat;
    let v = remainders(w, spare);
    lemma_shares_mono(w, spare, i as nat, n);
    lemma_shares_mono(w, spare, (i + 1) as nat, n);
    lemma_shares_mono(w, spare, j as nat, n);
    lemma_shares_mono(w, spare, (j + 1) as nat, n);
    let (x, y) = ((w[i] * spare) as int, (w[j] * spare) as int);
    assert(share(w, spare, i) <= spare && share(w, spare, j) <= spare);
    lemma_fundamental_div_mod(x, t);
    lemma_mod_bound(x, t);
    lemma_fundamental_div_mod(y, t);
    lemma_mod_bound(y, t);
    let (a, b) = (x / t, y / t);
    let f = quantized(counts);
    assert(f[i] == 1 + a + (if rank(v, i) < extra {
        1int
    } else {
        0int
    }));
    let g = f[i] as int;
    assert(t * (g - 2) <= x < t * g) by (nonlinear_arith)
        requires
            x == t * a + x % t,
            0 <= x % t < t,
            g == 1 + a || g == 2 + a,
            t > 0,
    ;
    if w[i] > w[j] || (w[i] == w[j] && i < j) {
        if w[j] > 0 {
            assert(y <= x) by (nonlinear_arith)
                requires
                    x == w[i] * spare,
                    y == w[j] * spare,
                    w[j] <= w[i],
                    0 <= spare,
            ;
            lemma_div_is_ordered(y, x, t);
            assert(f[j] == 1 + b + (if rank(v, j) < extra {
                1int
            } else {
                0int
            }));
            if a == b {
                assert(x % t >= y % t);
                lemma_entry_bound(w, i);
                assert(v[i] == x % t + 1 && v[j] == y % t + 1);
                if v[i] > v[j] || i < j {
                    larger_ranks_first(v, i, j);
                } else {
                    // equal remainders of different counts: there is nothing to share
                    assert(x == y);
                    assert(spare == 0) by (nonlinear_arith)
                        requires
                            x == w[i] * spare,
                            y == w[j] * spare,
                            x == y,
                            w[i] > w[j],
                            0 <= spare,
                    ;
                    assert(extra == 0);
                }
            }
        }
    }
}

} // verus!
