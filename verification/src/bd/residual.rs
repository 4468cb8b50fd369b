//! The error of a bit-dropped fold: `A v - sum_j c_j C_j` over all limbs.
use super::digits;
use super::garner;
use super::Dropped;
use crate::ajtai;
use crate::challenge::short::ShortChallenge;
use crate::fold;
use crate::key;
use crate::key::CommitmentKey;
use crate::modular;
use crate::modular::same;
use crate::ntt::poly;
use crate::params;
use crate::ring::decompose;
use crate::ring::{Batch32, RingElement};
use crate::scalar;
use crate::wire::bits;
use vstd::arithmetic::div_mod::*;
use vstd::arithmetic::power2::*;
use vstd::prelude::*;

verus! {

/// Row `r` of the transform of `A v - sum_j c_j z_j` modulo `q`.
pub open spec fn error_row(
    q: u16,
    a: Seq<Batch32>,
    v: Seq<Seq<int>>,
    c: Seq<Seq<int>>,
    z: Seq<Seq<int>>,
    r: int,
) -> int {
    ajtai::dot(q, ajtai::lanes(a), ajtai::all_hats(q, v), r, v.len()) - ajtai::dot(
        q,
        ajtai::all_hats(q, c),
        ajtai::all_hats(q, z),
        r,
        c.len(),
    )
}

/// `e` is `A v - sum_j c_j z_j` modulo every prime of the key.
pub open spec fn is_error(
    key: CommitmentKey,
    v: Seq<Seq<int>>,
    c: Seq<Seq<int>>,
    z: Seq<Seq<int>>,
    e: Seq<int>,
) -> bool {
    &&& e.len() == 648
    &&& forall|k: int, r: int|
        0 <= k < key.a@.len() && 0 <= r < 648 ==> same(
            #[trigger] ajtai::hat(key.prime_at(k), e, r),
            error_row(key.prime_at(k), key.a@[k]@, v, c, z, r),
            key.prime_at(k) as int,
        )
}

/// The digits fill the columns.
pub open spec fn filled(d: Dropped) -> bool {
    &&& d.top@.len() == d.columns * 648
    &&& forall|k: int|
        0 <= k < d.digits@.len() ==> (#[trigger] d.digits@[k])@.len() == d.columns * 648
}

/// Coefficient `i` of a dropped commitment modulo `q`.
fn residue_of(d: &Dropped, i: usize, q: u16) -> (r: u32)
    requires
        d.primes@.len() >= 1,
        d.dropped_bits <= 31,
        filled(*d),
        i < d.top@.len(),
        2 <= q < 0x8000,
    ensures
        r == digits::value(*d, i as int) % (q as int),
        r < q,
{
    let n: usize = d.primes.len();
    let h: usize = d.digits.len();
    let m: u64 = q as u64;
    let unit: u64 = bits::two_to(d.dropped_bits);
    let ghost a = digits::with_first(
        *d,
        i as int,
        d.top@[i as int] * pow2(d.dropped_bits as nat),
    );
    let ghost p = d.primes@;
    proof {
        lemma2_to64();
        if d.dropped_bits < 31 {
            lemma_pow2_strictly_increases(d.dropped_bits as nat, 31);
        }
        lemma_small_mod(0, q as nat);
    }
    let mut t: u64 = 0;
    let mut k: usize = n;
    while k > 1
        invariant
            1 <= k <= n == d.primes@.len(),
            h == d.digits@.len(),
            filled(*d),
            i < d.top@.len(),
            m == q,
            2 <= q < 0x8000,
            p == d.primes@,
            a == digits::with_first(
                *d,
                i as int,
                d.top@[i as int] * pow2(d.dropped_bits as nat),
            ),
            t < m,
            same(garner::head(p, a, t as int, k as nat), garner::mixed(p, a), q as int),
        decreases k,
    {
        k -= 1;
        let x: u64 = if k <= h {
            assert(d.digits@[k - 1]@.len() == d.columns * 648);
            d.digits[k - 1][i] as u64
        } else {
            0
        };
        let w: u64 = d.primes[k] as u64;
        proof {
            assert(w * t <= 0xFFFF * 0x8000) by (nonlinear_arith)
                requires
                    0 <= w <= 0xFFFF,
                    0 <= t < 0x8000,
            ;
            modular::lemma_reduced(x + w * t, m as int);
            garner::lemma_head_same(p, a, (x + w * t) % (m as int), x + w * t, k as nat, q as int);
        }
        t = (x + w * t) % m;
    }
    let top: u64 = d.top[i] as u64;
    let w: u64 = d.primes[0] as u64;
    proof {
        assert(top * unit <= 0xFFFF * 0x8000_0000) by (nonlinear_arith)
            requires
                0 <= top <= 0xFFFF,
                0 <= unit <= 0x8000_0000,
        ;
        assert(w * t <= 0xFFFF * 0x8000) by (nonlinear_arith)
            requires
                0 <= w <= 0xFFFF,
                0 <= t < 0x8000,
        ;
        assert(garner::head(p, a, t as int, 1) == garner::head(p, a, a[0] + p[0] * t, 0));
    }
    ((top * unit + w * t) % m) as u32
}

/// Column `j` of a dropped commitment modulo `q`.
fn column_residues(d: &Dropped, j: usize, q: u16) -> (a: [u32; 648])
    requires
        d.primes@.len() >= 1,
        d.dropped_bits <= 31,
        filled(*d),
        j < d.columns,
        2 <= q < 0x8000,
    ensures
        forall|x: int|
            0 <= x < 648 ==> same(
                #[trigger] poly::ints(a@)[x],
                digits::columns(*d)[j as int][x],
                q as int,
            ),
{
    let total: usize = d.top.len();
    let mut a: [u32; 648] = [0;648];
    let mut x: usize = 0;
    while x < 648
        invariant
            x <= 648,
            d.primes@.len() >= 1,
            d.dropped_bits <= 31,
            filled(*d),
            total == d.top@.len(),
            j < d.columns,
            2 <= q < 0x8000,
            forall|i: int|
                0 <= i < x ==> (#[trigger] a@[i]) == digits::value(*d, 648 * j + i) % (q as int),
        decreases 648 - x,
    {
        a[x] = residue_of(d, 648 * j + x, q);
        x += 1;
    }
    proof {
        assert forall|x: int| 0 <= x < 648 implies same(
            #[trigger] poly::ints(a@)[x],
            digits::columns(*d)[j as int][x],
            q as int,
        ) by {
            assert(a@[x] == digits::value(*d, 648 * j + x) % (q as int));
            modular::lemma_reduced(digits::value(*d, 648 * j + x), q as int);
        }
    }
    a
}

/// `sum_j c_j C_j` modulo `q`, in the transform domain.
fn fold_columns(q: u16, d: &Dropped, c: &[ShortChallenge]) -> (s: [u32; 648])
    requires
        params::limb_prime(q),
        fold::sound(c@),
        d.primes@.len() >= 1,
        d.dropped_bits <= 31,
        filled(*d),
        d.columns == c@.len(),
    ensures
        scalar::in_range(s@, q),
        forall|r: int|
            0 <= r < 648 ==> (#[trigger] s@[r]) == ajtai::dot(
                q,
                ajtai::all_hats(q, fold::challenge_list(c@)),
                ajtai::all_hats(q, digits::columns(*d)),
                r,
                c@.len(),
            ) % (q as int),
{
    let n: usize = c.len();
    let chats = fold::challenge_transforms(q, c);
    let points = ajtai::leaf_points(q);
    let ghost (aa, yy) = (
        ajtai::all_hats(q, fold::challenge_list(c@)),
        ajtai::all_hats(q, digits::columns(*d)),
    );
    let mut s: [u32; 648] = [0;648];
    let mut j: usize = 0;
    proof {
        lemma_small_mod(0, q as nat);
    }
    while j < n
        invariant
            j <= n == c@.len(),
            params::limb_prime(q),
            2 <= q < 0x8000,
            d.primes@.len() >= 1,
            d.dropped_bits <= 31,
            filled(*d),
            d.columns == c@.len(),
            fold::are_transforms(q, chats@, c@),
            ajtai::are_points(q, points@),
            aa == ajtai::all_hats(q, fold::challenge_list(c@)),
            yy == ajtai::all_hats(q, digits::columns(*d)),
            scalar::in_range(s@, q),
            forall|r: int|
                0 <= r < 648 ==> (#[trigger] s@[r]) == ajtai::dot(q, aa, yy, r, j as nat) % (
                q as int),
        decreases n - j,
    {
        let a = column_residues(d, j, q);
        let y = scalar::transform(q, &a);
        let ghost before = s@;
        assert(scalar::in_range(chats@[j as int]@, q));
        ajtai::accumulate(q, points.as_slice(), &mut s, &chats[j], &y);
        proof {
            let m = q as int;
            let col = digits::columns(*d)[j as int];
            fold::lemma_same_transform(q, y@, poly::ints(a@), col);
            let (x, z) = (poly::ints(chats@[j as int]@), poly::ints(y@));
            assert forall|t: int| 0 <= t < 648 implies same(#[trigger] x[t], aa[j as int][t], m) by {
                ajtai::lemma_rows(q, chats@[j as int]@, fold::challenge(c@[j as int]), t);
            }
            assert forall|t: int| 0 <= t < 648 implies same(#[trigger] z[t], yy[j as int][t], m) by {
                ajtai::lemma_rows(q, y@, col, t);
            }
            assert forall|r: int| 0 <= r < 648 implies (#[trigger] s@[r]) == ajtai::dot(
                q,
                aa,
                yy,
                r,
                (j + 1) as nat,
            ) % m by {
                let e = ajtai::dot(q, aa, yy, r, j as nat);
                ajtai::lemma_times_same(q, x, z, aa[j as int], yy[j as int], r);
                assert(before[r] == e % m);
                modular::lemma_reduced(e, m);
                modular::lemma_add(
                    before[r] as int,
                    ajtai::times(q, x, z, r),
                    e,
                    ajtai::times(q, aa[j as int], yy[j as int], r),
                    m,
                );
            }
        }
        j += 1;
    }
    s
}

/// The difference of two transforms.
fn difference(q: u16, y: &[u32; 648], s: &[u32; 648]) -> (z: [u32; 648])
    requires
        2 <= q < 0x8000,
        scalar::in_range(y@, q),
        scalar::in_range(s@, q),
    ensures
        scalar::in_range(z@, q),
        forall|r: int| 0 <= r < 648 ==> (#[trigger] z@[r]) == (y@[r] - s@[r]) % (q as int),
{
    let mut z: [u32; 648] = [0;648];
    let mut r: usize = 0;
    while r < 648
        invariant
            r <= 648,
            2 <= q < 0x8000,
            scalar::in_range(y@, q),
            scalar::in_range(s@, q),
            forall|i: int|
                0 <= i < r ==> (#[trigger] z@[i]) == (y@[i] - s@[i]) % (q as int) && z@[i] < q,
        decreases 648 - r,
    {
        assert(y@[r as int] < q && s@[r as int] < q);
        proof {
            modular::lemma_multiple(y@[r as int] - s@[r as int], 1, q as int);
        }
        z[r] = (y[r] + q as u32 - s[r]) % (q as u32);
        r += 1;
    }
    z
}

/// The error modulo one prime of the key, coefficient by coefficient.
fn limb_error(key: &CommitmentKey, k: usize, d: &Dropped, c: &[ShortChallenge], v: &[RingElement]) -> (e: [u32; 648])
    requires
        key.wf(),
        k < key.a@.len(),
        fold::sound(c@),
        d.primes@.len() >= 1,
        d.dropped_bits <= 31,
        filled(*d),
        d.columns == c@.len(),
        v@.len() <= key.len_f162 / 4,
    ensures
        scalar::in_range(e@, key.prime_at(k as int)),
        forall|r: int|
            0 <= r < 648 ==> same(
                #[trigger] ajtai::hat(key.prime_at(k as int), poly::ints(e@), r),
                error_row(
                    key.prime_at(k as int),
                    key.a@[k as int]@,
                    fold::integers(v@),
                    fold::challenge_list(c@),
                    digits::columns(*d),
                    r,
                ),
                key.prime_at(k as int) as int,
            ),
{
    let q: u16 = key.prime(k);
    assert(key.a@[k as int]@.len() == key.len_f162 / 128);
    let s = fold_columns(q, d, c);
    let y = fold::a_times_v(q, key.row(k), v);
    let z = difference(q, &y, &s);
    let e = scalar::inverse_transform(q, &z);
    proof {
        let m = q as int;
        let (vi, cl, col) = (fold::integers(v@), fold::challenge_list(c@), digits::columns(*d));
        assert forall|r: int| 0 <= r < 648 implies same(
            #[trigger] ajtai::hat(q, poly::ints(e@), r),
            error_row(q, key.a@[k as int]@, vi, cl, col, r),
            m,
        ) by {
            ajtai::lemma_rows(q, z@, poly::ints(e@), r);
            let (f, g) = (
                ajtai::dot(
                    q,
                    ajtai::lanes(key.a@[k as int]@),
                    ajtai::all_hats(q, vi),
                    r,
                    vi.len(),
                ),
                ajtai::dot(q, ajtai::all_hats(q, cl), ajtai::all_hats(q, col), r, cl.len()),
            );
            assert(y@[r] == f % m && s@[r] == g % m);
            assert(z@[r] == (y@[r] - s@[r]) % m);
            modular::lemma_reduced(f, m);
            modular::lemma_reduced(g, m);
            modular::lemma_sub(y@[r] as int, s@[r] as int, f, g, m);
            modular::lemma_reduced(y@[r] - s@[r], m);
        }
    }
    e
}

/// The commitment is made over the key's moduli and its digits fill its columns.
pub open spec fn matched(key: CommitmentKey, d: Dropped) -> bool {
    d.primes@ == key.prime_list() && filled(d)
}

/// The commitment matches the key and the number of challenges, and the fold is whole batches.
pub open spec fn fitting(key: CommitmentKey, d: Dropped, challenges: nat, folded: nat) -> bool {
    matched(key, d) && d.columns == challenges && folded % 32 == 0
}

/// What the error of a fold measures: the squared norm of `A v - sum_j c_j C_j`, its coefficients
/// centred modulo the product of the primes, cut off at the largest `u128`.
pub open spec fn is_residual(
    key: CommitmentKey,
    d: Dropped,
    c: Seq<ShortChallenge>,
    v: Seq<RingElement>,
    e: Seq<int>,
    n: u128,
) -> bool {
    &&& is_error(key, fold::integers(v), fold::challenge_list(c), digits::columns(d), e)
    &&& garner::centred(key.prime_list(), e)
    &&& n == garner::capped(garner::normsq(e, 648))
}

/// `n` is what the error of the fold measures.
pub open spec fn measures(
    key: CommitmentKey,
    d: Dropped,
    c: Seq<ShortChallenge>,
    v: Seq<RingElement>,
    n: u128,
) -> bool {
    exists|e: Seq<int>| #[trigger] is_residual(key, d, c, v, e, n)
}

/// The primes of a commitment are those of the key, and the digits fill the columns.
fn is_matched(key: &CommitmentKey, d: &Dropped) -> (r: bool)
    requires
        key.wf(),
    ensures
        r == matched(*key, *d),
{
    let limbs: usize = key.limbs();
    if d.primes.len() != limbs {
        assert(d.primes@.len() != key.prime_list().len());
        return false;
    }
    let mut k: usize = 0;
    while k < limbs
        invariant
            k <= limbs == key.a@.len() == d.primes@.len(),
            key.wf(),
            forall|i: int| 0 <= i < k ==> (#[trigger] d.primes@[i]) == key.prime_at(i),
        decreases limbs - k,
    {
        if d.primes[k] != key.prime(k) {
            assert(d.primes@[k as int] != key.prime_list()[k as int]);
            return false;
        }
        k += 1;
    }
    assert(d.primes@ =~= key.prime_list());
    let want: u128 = d.columns as u128 * 648;
    if d.top.len() as u128 != want {
        return false;
    }
    let n: usize = d.digits.len();
    let mut i: usize = 0;
    while i < n
        invariant
            i <= n == d.digits@.len(),
            want == d.columns * 648,
            forall|t: int| 0 <= t < i ==> (#[trigger] d.digits@[t])@.len() == want,
        decreases n - i,
    {
        if d.digits[i].len() as u128 != want {
            return false;
        }
        i += 1;
    }
    true
}

/// The error of a bit-dropped fold, or `None` where the commitment is made over other moduli, its
/// digits do not fill its columns, it has another number of columns than there are challenges, or the
/// fold is not whole batches.
pub fn residual(
    key: &CommitmentKey,
    dropped: &Dropped,
    challenges: &[ShortChallenge],
    folded: &[RingElement],
) -> (r: Option<u128>)
    requires
        key.wf(),
        fold::sound(challenges@),
        fitting(*key, *dropped, challenges@.len(), folded@.len()) ==> dropped.dropped_bits <= 31
            && folded@.len() <= key.len_f162 / 4,
    ensures
        r is None <==> !fitting(*key, *dropped, challenges@.len(), folded@.len()),
        r matches Some(n) ==> measures(*key, *dropped, challenges@, folded@, n),
{
    if !is_matched(key, dropped) || dropped.columns != challenges.len() || folded.len() % 32 != 0 {
        return None;
    }
    let limbs: usize = key.limbs();
    let mut errors: Vec<[u32; 648]> = Vec::new();
    let mut k: usize = 0;
    let ghost (vi, cl, col) = (
        fold::integers(folded@),
        fold::challenge_list(challenges@),
        digits::columns(*dropped),
    );
    while k < limbs
        invariant
            k <= limbs == key.a@.len(),
            key.wf(),
            fold::sound(challenges@),
            dropped.primes@.len() >= 1,
            dropped.dropped_bits <= 31,
            folded@.len() <= key.len_f162 / 4,
            filled(*dropped),
            dropped.columns == challenges@.len(),
            vi == fold::integers(folded@),
            cl == fold::challenge_list(challenges@),
            col == digits::columns(*dropped),
            errors@.len() == k,
            forall|i: int|
                0 <= i < k ==> scalar::in_range((#[trigger] errors@[i])@, key.prime_at(i)),
            forall|i: int, r: int|
                0 <= i < k && 0 <= r < 648 ==> same(
                    #[trigger] ajtai::hat(key.prime_at(i), poly::ints(errors@[i]@), r),
                    error_row(key.prime_at(i), key.a@[i]@, vi, cl, col, r),
                    key.prime_at(i) as int,
                ),
        decreases limbs - k,
    {
        let e = limb_error(key, k, dropped, challenges, folded);
        let ghost before = errors@;
        errors.push(e);
        assert forall|i: int, r: int| 0 <= i <= k && 0 <= r < 648 implies same(
            #[trigger] ajtai::hat(key.prime_at(i), poly::ints(errors@[i]@), r),
            error_row(key.prime_at(i), key.a@[i]@, vi, cl, col, r),
            key.prime_at(i) as int,
        ) by {
            if i < k {
                assert(errors@[i] == before[i]);
                assert(same(
                    ajtai::hat(key.prime_at(i), poly::ints(before[i]@), r),
                    error_row(key.prime_at(i), key.a@[i]@, vi, cl, col, r),
                    key.prime_at(i) as int,
                ));
            }
        }
        k += 1;
    }
    assert forall|k: int, x: int| 0 <= k < dropped.primes@.len() && 0 <= x < 648 implies (
    #[trigger] errors@[k]@[x]) < dropped.primes@[k] by {
        assert(scalar::in_range(errors@[k]@, key.prime_at(k)));
        assert(dropped.primes@[k] == key.prime_list()[k]);
    }
    let n: u128 = garner::lifted_normsq(dropped.primes.as_slice(), errors.as_slice());
    proof {
        let p = key.prime_list();
        let e = choose|e: Seq<int>| #[trigger]
            garner::is_lift(p, errors@, e) && n == garner::capped(garner::normsq(e, 648));
        assert forall|k: int, r: int| 0 <= k < key.a@.len() && 0 <= r < 648 implies same(
            #[trigger] ajtai::hat(key.prime_at(k), e, r),
            error_row(key.prime_at(k), key.a@[k]@, vi, cl, col, r),
            key.prime_at(k) as int,
        ) by {
            let q = key.prime_at(k);
            assert(p[k] == q);
            let a = poly::ints(errors@[k]@);
            assert forall|x: int| 0 <= x < 648 implies same(#[trigger] e[x], a[x], q as int) by {
                assert(same(errors@[k]@[x] as int, e[x], p[k] as int));
            }
            poly::lemma_coefficients(e, a, 0, 1, scalar::point(q, r), q as int);
            poly::lemma_coefficients(e, a, r % 2, 2, scalar::point(q, r / 2), q as int);
            assert(same(
                ajtai::hat(q, a, r),
                error_row(q, key.a@[k]@, vi, cl, col, r),
                q as int,
            ));
        }
        assert(is_residual(*key, *dropped, challenges@, folded@, e, n));
    }
    Some(n)
}

/// The error is determined, and with it what it measures.
pub proof fn residual_unique(
    key: CommitmentKey,
    d: Dropped,
    c: Seq<ShortChallenge>,
    v: Seq<RingElement>,
    e: Seq<int>,
    m: u128,
    f: Seq<int>,
    n: u128,
)
    requires
        key.wf(),
        is_residual(key, d, c, v, e, m),
        is_residual(key, d, c, v, f, n),
    ensures
        e == f,
        m == n,
{
    let p = key.prime_list();
    assert forall|k: int, x: int|
        #![trigger p[k], e[x]]
        0 <= k < p.len() && 0 <= x < 648 implies same(e[x], f[x], p[k] as int) by {
        let q = key.prime_at(k);
        assert(params::limb_prime(p[k]));
        let y = Seq::new(648, |r: int| (ajtai::hat(q, e, r) % (q as int)) as u32);
        assert forall|r: int| 0 <= r < 648 implies (#[trigger] y[r]) == ajtai::hat(q, e, r) % (
        q as int) && y[r] == ajtai::hat(q, f, r) % (q as int) by {
            lemma_mod_bound(ajtai::hat(q, e, r), q as int);
            let w = error_row(
                q,
                key.a@[k]@,
                fold::integers(v),
                fold::challenge_list(c),
                digits::columns(d),
                r,
            );
            assert(same(ajtai::hat(q, e, r), w, q as int));
            assert(same(ajtai::hat(q, f, r), w, q as int));
        }
        assert(decompose::is_transform(q, y, e));
        assert(decompose::is_transform(q, y, f));
        scalar::transform_determines_residues(q, y, e, f);
    }
    garner::lift_unique(p, e, f);
}

} // verus!
