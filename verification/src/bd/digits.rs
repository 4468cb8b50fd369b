//! Dropping the low bits of a commitment, and reading what is left.
use super::garner;
use super::Dropped;
use crate::modular;
use crate::modular::same;
use crate::ntt::poly;
use crate::params;
use crate::ring::decompose;
use crate::scalar;
use crate::wire::bits;
use vstd::arithmetic::div_mod::*;
use vstd::arithmetic::power2::*;
use vstd::prelude::*;

verus! {

/// `c` are the coefficients of column `j`, limb by limb, whose transforms are `raw`.
pub open spec fn are_coefficients(
    p: Seq<u16>,
    raw: Seq<Vec<[u32; 648]>>,
    j: int,
    c: Seq<[u32; 648]>,
) -> bool {
    &&& c.len() == p.len()
    &&& forall|k: int|
        0 <= k < p.len() ==> scalar::in_range((#[trigger] c[k])@, p[k]) && decompose::is_transform(
            p[k],
            raw[k]@[j]@,
            poly::ints(c[k]@),
        )
}

/// Coefficient `x` of every limb.
pub open spec fn slice(c: Seq<[u32; 648]>, x: int) -> Seq<int> {
    Seq::new(c.len(), |k: int| c[k]@[x] as int)
}

/// The digits of a coefficient with its first one replaced; a digit that is not there is zero.
pub open spec fn with_first(d: Dropped, i: int, first: int) -> Seq<int> {
    Seq::new(
        d.primes@.len(),
        |k: int|
            if k == 0 {
                first
            } else if k <= d.digits@.len() {
                d.digits@[k - 1]@[i] as int
            } else {
                0
            },
    )
}

/// Column `j` is dropped from the coefficients `c`: the base residue is rounded to a multiple of
/// `2^d`, the other digits of the coefficient are kept.
pub open spec fn is_dropped(d: Dropped, c: Seq<[u32; 648]>, j: int) -> bool {
    forall|x: int|
        0 <= x < 648 ==> {
            &&& (#[trigger] d.top@[648 * j + x]) == (c[0]@[x] + pow2((d.dropped_bits - 1) as nat))
                / (pow2(d.dropped_bits as nat) as int)
            &&& garner::are_digits(
                d.primes@,
                slice(c, x),
                with_first(d, 648 * j + x, c[0]@[x] as int),
            )
        }
}

/// The coefficient that dropped digits stand for.
pub open spec fn value(d: Dropped, i: int) -> int {
    garner::mixed(
        d.primes@,
        with_first(d, i, d.top@[i] * pow2(d.dropped_bits as nat)),
    )
}

/// The columns that dropped digits stand for.
pub open spec fn columns(d: Dropped) -> Seq<Seq<int>> {
    Seq::new(d.columns as nat, |j: int| Seq::new(648, |x: int| value(d, 648 * j + x)))
}

/// The digits of the coefficients of column `j`.
fn column_digits(raw: &[Vec<[u32; 648]>], p: &[u16], j: usize, rows: &mut Vec<Vec<u64>>)
    requires
        garner::moduli(p@),
        raw@.len() == p@.len(),
        forall|k: int| 0 <= k < raw@.len() ==> j < (#[trigger] raw@[k])@.len(),
        forall|k: int|
            0 <= k < raw@.len() ==> scalar::in_range((#[trigger] raw@[k])@[j as int]@, p@[k]),
    ensures
        final(rows)@.len() == old(rows)@.len() + 648,
        forall|i: int|
            0 <= i < old(rows)@.len() ==> (#[trigger] final(rows)@[i]) == old(rows)@[i],
        forall|c: Seq<[u32; 648]>, x: int|
            #![trigger are_coefficients(p@, raw@, j as int, c), final(rows)@[old(rows)@.len() + x]]
            are_coefficients(p@, raw@, j as int, c) && 0 <= x < 648 ==> {
                let a = garner::digits(final(rows)@[old(rows)@.len() + x]@);
                garner::are_digits(p@, slice(c, x), a) && a[0] == c[0]@[x]
            },
        forall|x: int|
            0 <= x < 648 ==> {
                let a = (#[trigger] final(rows)@[old(rows)@.len() + x])@;
                a.len() == p@.len() && forall|k: int| 0 <= k < a.len() ==> (#[trigger] a[k]) < p@[k]
            },
{
    let n: usize = p.len();
    let ghost start = rows@;
    let mut c: Vec<[u32; 648]> = Vec::new();
    let mut k: usize = 0;
    while k < n
        invariant
            k <= n == p@.len() == raw@.len(),
            garner::moduli(p@),
            forall|k: int| 0 <= k < raw@.len() ==> j < (#[trigger] raw@[k])@.len(),
            forall|k: int|
                0 <= k < raw@.len() ==> scalar::in_range((#[trigger] raw@[k])@[j as int]@, p@[k]),
            c@.len() == k,
            forall|i: int|
                0 <= i < k ==> scalar::in_range((#[trigger] c@[i])@, p@[i])
                    && decompose::is_transform(p@[i], raw@[i]@[j as int]@, poly::ints(c@[i]@)),
        decreases n - k,
    {
        assert(params::limb_prime(p@[k as int]));
        assert(j < raw@[k as int]@.len());
        assert(scalar::in_range(raw@[k as int]@[j as int]@, p@[k as int]));
        c.push(scalar::inverse_transform(p[k], &raw[k][j]));
        k += 1;
    }
    let mut x: usize = 0;
    while x < 648
        invariant
            x <= 648,
            n == p@.len(),
            garner::moduli(p@),
            are_coefficients(p@, raw@, j as int, c@),
            rows@.len() == start.len() + x,
            forall|i: int| 0 <= i < start.len() ==> (#[trigger] rows@[i]) == start[i],
            forall|y: int|
                0 <= y < x ==> {
                    let a = garner::digits((#[trigger] rows@[start.len() + y])@);
                    garner::are_digits(p@, slice(c@, y), a) && a[0] == c@[0]@[y]
                },
        decreases 648 - x,
    {
        let r = garner::across(c.as_slice(), x);
        assert forall|k: int| 0 <= k < p@.len() implies (#[trigger] r@[k]) < p@[k] by {
            assert(scalar::in_range(c@[k]@, p@[k]));
        }
        let a = garner::digits_of(p, r.as_slice());
        assert(garner::residues(r@) =~= slice(c@, x as int));
        rows.push(a);
        x += 1;
    }
    proof {
        assert forall|b: Seq<[u32; 648]>, x: int|
            #![trigger are_coefficients(p@, raw@, j as int, b), rows@[start.len() + x]]
            are_coefficients(p@, raw@, j as int, b) && 0 <= x < 648 implies {
            let a = garner::digits(rows@[start.len() + x]@);
            garner::are_digits(p@, slice(b, x), a) && a[0] == b[0]@[x]
        } by {
            assert forall|k: int| 0 <= k < p@.len() implies b[k]@ == c@[k]@ by {
                assert(params::limb_prime(p@[k]));
                assert(scalar::in_range(b[k]@, p@[k]) && scalar::in_range(c@[k]@, p@[k]));
                scalar::transform_determines(p@[k], raw@[k]@[j as int]@, b[k]@, c@[k]@);
            }
            assert(slice(b, x) =~= slice(c@, x));
        }
        assert forall|x: int| 0 <= x < 648 implies {
            let a = (#[trigger] rows@[start.len() + x])@;
            a.len() == p@.len() && forall|k: int| 0 <= k < a.len() ==> (#[trigger] a[k]) < p@[k]
        } by {
            let a = rows@[start.len() + x]@;
            let d = garner::digits(a);
            assert(garner::are_digits(p@, slice(c@, x), d));
            assert forall|k: int| 0 <= k < a.len() implies (#[trigger] a[k]) < p@[k] by {
                assert(d[k] < p@[k]);
            }
        }
    }
}

/// The digits of all coefficients, column by column.
fn all_digits(raw: &[Vec<[u32; 648]>], p: &[u16], columns: usize) -> (rows: Vec<Vec<u64>>)
    requires
        garner::moduli(p@),
        648 * columns <= usize::MAX,
        raw@.len() == p@.len(),
        forall|k: int| 0 <= k < raw@.len() ==> (#[trigger] raw@[k])@.len() == columns,
        forall|k: int, j: int|
            0 <= k < raw@.len() && 0 <= j < columns ==> scalar::in_range(
                (#[trigger] raw@[k]@[j])@,
                p@[k],
            ),
    ensures
        rows@.len() == 648 * columns,
        forall|j: int, c: Seq<[u32; 648]>, x: int|
            #![trigger are_coefficients(p@, raw@, j, c), rows@[648 * j + x]]
            0 <= j < columns && are_coefficients(p@, raw@, j, c) && 0 <= x < 648 ==> {
                let a = garner::digits(rows@[648 * j + x]@);
                garner::are_digits(p@, slice(c, x), a) && a[0] == c[0]@[x]
            },
        forall|i: int| 0 <= i < rows@.len() ==> small(p@, (#[trigger] rows@[i])@),
{
    let mut rows: Vec<Vec<u64>> = Vec::new();
    let mut j: usize = 0;
    while j < columns
        invariant
            j <= columns,
            garner::moduli(p@),
            raw@.len() == p@.len(),
            forall|k: int| 0 <= k < raw@.len() ==> (#[trigger] raw@[k])@.len() == columns,
            forall|k: int, j: int|
                0 <= k < raw@.len() && 0 <= j < columns ==> scalar::in_range(
                    (#[trigger] raw@[k]@[j])@,
                    p@[k],
                ),
            rows@.len() == 648 * j,
            forall|t: int, c: Seq<[u32; 648]>, x: int|
                #![trigger are_coefficients(p@, raw@, t, c), rows@[648 * t + x]]
                0 <= t < j && are_coefficients(p@, raw@, t, c) && 0 <= x < 648 ==> {
                    let a = garner::digits(rows@[648 * t + x]@);
                    garner::are_digits(p@, slice(c, x), a) && a[0] == c[0]@[x]
                },
            forall|i: int| 0 <= i < rows@.len() ==> small(p@, (#[trigger] rows@[i])@),
        decreases columns - j,
    {
        let ghost before = rows@;
        assert forall|k: int| 0 <= k < raw@.len() implies scalar::in_range(
            (#[trigger] raw@[k])@[j as int]@,
            p@[k],
        ) by {
            assert(scalar::in_range(raw@[k]@[j as int]@, p@[k]));
        }
        column_digits(raw, p, j, &mut rows);
        proof {
            assert forall|t: int, c: Seq<[u32; 648]>, x: int|
                #![trigger are_coefficients(p@, raw@, t, c), rows@[648 * t + x]]
                0 <= t <= j && are_coefficients(p@, raw@, t, c) && 0 <= x < 648 implies {
                let a = garner::digits(rows@[648 * t + x]@);
                garner::are_digits(p@, slice(c, x), a) && a[0] == c[0]@[x]
            } by {
                if t < j {
                    assert(rows@[648 * t + x] == before[648 * t + x]);
                } else {
                    assert(rows@[before.len() + x] == rows@[648 * t + x]);
                }
            }
            assert forall|i: int| 0 <= i < rows@.len() implies small(p@, (#[trigger] rows@[i])@) by {
                if i >= before.len() {
                    let x = i - before.len();
                    assert(rows@[before.len() + x] == rows@[i]);
                }
            }
        }
        j += 1;
    }
    rows
}

/// One digit per prime, each below it.
spec fn small(p: Seq<u16>, a: Seq<u64>) -> bool {
    a.len() == p.len() && forall|k: int| 0 <= k < a.len() ==> (#[trigger] a[k]) < p[k]
}

/// Digit `k` of every coefficient.
fn digit_column(rows: &Vec<Vec<u64>>, p: &[u16], k: usize) -> (d: Vec<u16>)
    requires
        k < p@.len(),
        forall|i: int| 0 <= i < rows@.len() ==> small(p@, (#[trigger] rows@[i])@),
    ensures
        d@.len() == rows@.len(),
        forall|i: int| 0 <= i < d@.len() ==> (#[trigger] d@[i]) == rows@[i]@[k as int],
        forall|i: int| 0 <= i < d@.len() ==> (#[trigger] d@[i]) < p@[k as int],
{
    let n: usize = rows.len();
    let mut d: Vec<u16> = Vec::new();
    let mut i: usize = 0;
    while i < n
        invariant
            i <= n == rows@.len(),
            k < p@.len(),
            forall|i: int| 0 <= i < rows@.len() ==> small(p@, (#[trigger] rows@[i])@),
            d@.len() == i,
            forall|t: int| 0 <= t < i ==> (#[trigger] d@[t]) == rows@[t]@[k as int],
            forall|t: int| 0 <= t < i ==> (#[trigger] d@[t]) < p@[k as int],
        decreases n - i,
    {
        assert(small(p@, rows@[i as int]@));
        assert(rows@[i as int]@[k as int] < p@[k as int]);
        d.push(rows[i][k] as u16);
        i += 1;
    }
    d
}

/// The base digits, rounded.
fn top_column(rows: &Vec<Vec<u64>>, p: &[u16], bits: u32) -> (d: Vec<u16>)
    requires
        garner::moduli(p@),
        1 <= bits <= 31,
        forall|i: int| 0 <= i < rows@.len() ==> small(p@, (#[trigger] rows@[i])@),
    ensures
        d@.len() == rows@.len(),
        forall|i: int|
            0 <= i < d@.len() ==> (#[trigger] d@[i]) == (rows@[i]@[0] + pow2((bits - 1) as nat)) / (
            pow2(bits as nat) as int),
        forall|i: int| 0 <= i < d@.len() ==> (#[trigger] d@[i]) <= super::bound_of(
            p@[0] as nat,
            bits as nat,
        ),
{
    let n: usize = rows.len();
    let half: u64 = bits::two_to(bits - 1);
    let unit: u64 = bits::two_to(bits);
    let mut d: Vec<u16> = Vec::new();
    let mut i: usize = 0;
    proof {
        lemma_pow2_unfold(bits as nat);
        lemma_pow2_pos((bits - 1) as nat);
        lemma2_to64();
        if bits - 1 < 30 {
            lemma_pow2_strictly_increases((bits - 1) as nat, 30);
        }
    }
    while i < n
        invariant
            i <= n == rows@.len(),
            garner::moduli(p@),
            1 <= bits <= 31,
            half == pow2((bits - 1) as nat),
            unit == pow2(bits as nat),
            unit == 2 * half,
            1 <= half <= 0x4000_0000,
            forall|i: int| 0 <= i < rows@.len() ==> small(p@, (#[trigger] rows@[i])@),
            d@.len() == i,
            forall|t: int|
                0 <= t < i ==> (#[trigger] d@[t]) == (rows@[t]@[0] + pow2((bits - 1) as nat)) / (
                pow2(bits as nat) as int),
            forall|t: int| 0 <= t < i ==> (#[trigger] d@[t]) <= super::bound_of(
                p@[0] as nat,
                bits as nat,
            ),
        decreases n - i,
    {
        assert(small(p@, rows@[i as int]@));
        assert(params::limb_prime(p@[0]));
        let a: u64 = rows[i][0];
        assert(a < p@[0]);
        proof {
            lemma_div_is_ordered(a + half, p@[0] - 1 + half, unit as int);
            super::lemma_width(p@[0], bits as nat);
        }
        d.push(((a + half) / unit) as u16);
        i += 1;
    }
    d
}

/// The commitment with the low `dropped_bits` bits of every coefficient's base residue rounded
/// away. Column `j` of limb `k` is given by its transform `raw[k][j]`.
pub fn drop_bits(raw: &[Vec<[u32; 648]>], primes: &[u16], columns: usize, dropped_bits: u32) -> (d:
    Dropped)
    requires
        garner::moduli(primes@),
        1 <= dropped_bits <= 31,
        648 * columns <= usize::MAX,
        raw@.len() == primes@.len(),
        forall|k: int| 0 <= k < raw@.len() ==> (#[trigger] raw@[k])@.len() == columns,
        forall|k: int, j: int|
            0 <= k < raw@.len() && 0 <= j < columns ==> scalar::in_range(
                (#[trigger] raw@[k]@[j])@,
                primes@[k],
            ),
    ensures
        d.wf(),
        d.in_range(),
        d.primes@ == primes@,
        d.columns == columns,
        d.dropped_bits == dropped_bits,
        forall|j: int, c: Seq<[u32; 648]>|
            0 <= j < columns && #[trigger] are_coefficients(primes@, raw@, j, c) ==> is_dropped(
                d,
                c,
                j,
            ),
{
    let n: usize = primes.len();
    let rows = all_digits(raw, primes, columns);
    let top = top_column(&rows, primes, dropped_bits);
    let mut digits: Vec<Vec<u16>> = Vec::new();
    let mut list: Vec<u16> = vec![primes[0]];
    let mut k: usize = 1;
    while k < n
        invariant
            1 <= k <= n == primes@.len(),
            rows@.len() == 648 * columns,
            forall|i: int| 0 <= i < rows@.len() ==> small(primes@, (#[trigger] rows@[i])@),
            list@ == primes@.take(k as int),
            digits@.len() == k - 1,
            forall|t: int| 0 <= t < k - 1 ==> (#[trigger] digits@[t])@.len() == 648 * columns,
            forall|t: int, i: int|
                0 <= t < k - 1 && 0 <= i < 648 * columns ==> (#[trigger] digits@[t]@[i])
                    == rows@[i]@[t + 1] && digits@[t]@[i] < primes@[t + 1],
        decreases n - k,
    {
        let col = digit_column(&rows, primes, k);
        digits.push(col);
        list.push(primes[k]);
        assert(list@ =~= primes@.take(k + 1));
        k += 1;
    }
    assert(list@ =~= primes@);
    let d = Dropped { primes: list, columns, dropped_bits, top, digits };
    proof {
        assert forall|k: int| 0 <= k < primes@.len() implies 2 <= (#[trigger] primes@[k]) by {
            assert(params::limb_prime(primes@[k]));
        }
        assert forall|j: int, c: Seq<[u32; 648]>|
            0 <= j < columns && #[trigger] are_coefficients(primes@, raw@, j, c) implies is_dropped(
            d,
            c,
            j,
        ) by {
            assert forall|x: int| 0 <= x < 648 implies {
                &&& (#[trigger] d.top@[648 * j + x]) == (c[0]@[x] + pow2(
                    (d.dropped_bits - 1) as nat,
                )) / (pow2(d.dropped_bits as nat) as int)
                &&& garner::are_digits(
                    d.primes@,
                    slice(c, x),
                    with_first(d, 648 * j + x, c[0]@[x] as int),
                )
            } by {
                let i = 648 * j + x;
                let a = garner::digits(rows@[648 * j + x]@);
                assert(garner::are_digits(primes@, slice(c, x), a) && a[0] == c[0]@[x]);
                assert(with_first(d, i, c[0]@[x] as int) =~= a);
            }
        }
    }
    d
}

/// Numbers that differ in the first digit alone differ by it.
proof fn lemma_first(p: Seq<u16>, a: Seq<int>, b: Seq<int>, t: int, i: nat)
    requires
        1 <= i,
        forall|k: int| 1 <= k < i ==> (#[trigger] a[k]) == b[k],
    ensures
        garner::head(p, a, t, i) - a[0] == garner::head(p, b, t, i) - b[0],
    decreases i,
{
    if i == 1 {
        assert(garner::head(p, a, t, 1) == garner::head(p, a, a[0] + p[0] * t, 0));
        assert(garner::head(p, b, t, 1) == garner::head(p, b, b[0] + p[0] * t, 0));
    } else {
        assert(a[i - 1] == b[i - 1]);
        lemma_first(p, a, b, a[i - 1] + p[i - 1] * t, (i - 1) as nat);
    }
}

/// Dropping bits moves a coefficient by at most half a unit: what the digits stand for is the
/// coefficient, lifted over all primes, plus an integer of size at most `2^(d - 1)`.
pub proof fn drop_error(d: Dropped, c: Seq<[u32; 648]>, j: int, x: int) -> (w: int)
    requires
        d.wf(),
        c.len() == d.primes@.len(),
        is_dropped(d, c, j),
        0 <= j < d.columns,
        0 <= x < 648,
    ensures
        -pow2((d.dropped_bits - 1) as nat) <= w <= pow2((d.dropped_bits - 1) as nat),
        forall|k: int|
            0 <= k < d.primes@.len() ==> same(
                value(d, 648 * j + x),
                (#[trigger] c[k]@[x]) + w,
                d.primes@[k] as int,
            ),
{
    let i = 648 * j + x;
    let p = d.primes@;
    let (h, u) = (
        pow2((d.dropped_bits - 1) as nat) as int,
        pow2(d.dropped_bits as nat) as int,
    );
    lemma_pow2_unfold(d.dropped_bits as nat);
    lemma_pow2_pos((d.dropped_bits - 1) as nat);
    let (c0, t) = (c[0]@[x] as int, d.top@[i] as int);
    assert(t == (c0 + h) / u);
    lemma_fundamental_div_mod(c0 + h, u);
    lemma_mod_bound(c0 + h, u);
    assert(t * u == u * t) by (nonlinear_arith);
    let w = t * u - c0;
    let (a, b) = (with_first(d, i, c0), with_first(d, i, t * u));
    lemma_first(p, a, b, 0, p.len());
    assert(garner::are_digits(p, slice(c, x), a));
    assert forall|k: int| 0 <= k < p.len() implies same(
        value(d, i),
        (#[trigger] c[k]@[x]) + w,
        p[k] as int,
    ) by {
        assert(p[k] >= 2);
        assert(same(garner::mixed(p, a), slice(c, x)[k], p[k] as int));
        modular::lemma_add(garner::mixed(p, a), w, c[k]@[x] as int, w, p[k] as int);
    }
    w
}

} // verus!
