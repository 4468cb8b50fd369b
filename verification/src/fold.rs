//! The amortised witness `v = sum_j c_j W_j`, the folded commitment `sum_j c_j C_j`, and `A v`.
use crate::ajtai;
use crate::challenge::short::ShortChallenge;
use crate::key;
use crate::modular;
use crate::modular::same;
use crate::ntt::laws;
use crate::ntt::poly;
use crate::params;
use crate::ring;
use crate::ring::decompose;
use crate::ring::{
    Batch32, PowerOfThreeRingElementWithLimbs, Representation, RingElement,
    VerticallyAlignedMatrix,
};
use crate::scalar;
use crate::wire::uniform;
use vstd::arithmetic::div_mod::*;
use vstd::prelude::*;

verus! {

/// A challenge as an element of `R_648`.
pub open spec fn challenge(c: ShortChallenge) -> Seq<int> {
    ajtai::challenge_poly(c.coefficients())
}

/// The challenges as elements of `R_648`.
pub open spec fn challenge_list(c: Seq<ShortChallenge>) -> Seq<Seq<int>> {
    Seq::new(c.len(), |j: int| challenge(c[j]))
}

/// Every challenge is well formed.
pub open spec fn sound(c: Seq<ShortChallenge>) -> bool {
    forall|j: int| 0 <= j < c.len() ==> (#[trigger] c[j]).wf()
}

/// The coefficients of a challenge modulo `q`.
fn challenge_residues(c: &ShortChallenge, q: u16) -> (a: [u32; 648])
    requires
        c.wf(),
        2 <= q < 0x8000,
    ensures
        scalar::in_range(a@, q),
        forall|x: int| 0 <= x < 648 ==> same(#[trigger] poly::ints(a@)[x], challenge(*c)[x], q as int),
{
    let v = c.coeffs();
    proof {
        c.lemma_coefficients(v@);
    }
    let mut a: [u32; 648] = [0;648];
    let mut x: usize = 0;
    while x < 648
        invariant
            x <= 648,
            2 <= q < 0x8000,
            v@ == c.coefficients(),
            forall|i: int| 0 <= i < 648 ==> (#[trigger] a@[i]) < q,
            forall|i: int| 0 <= i < x ==> same(#[trigger] a@[i] as int, challenge(*c)[i], q as int),
        decreases 648 - x,
    {
        if x % 4 == 0 {
            let t: i16 = if x / 4 % 2 == 0 {
                v[x / 4] as i16
            } else {
                -(v[x / 4] as i16)
            };
            a[x] = ring::element::residue(t, q);
            proof {
                modular::lemma_reduced(t as int, q as int);
            }
        } else {
            a[x] = 0;
        }
        x += 1;
    }
    assert forall|i: int| 0 <= i < 648 implies same(
        #[trigger] poly::ints(a@)[i],
        challenge(*c)[i],
        q as int,
    ) by {
        assert(same(a@[i] as int, challenge(*c)[i], q as int));
    }
    a
}

/// Congruent elements have the same transform.
pub proof fn lemma_same_transform(q: u16, y: Seq<u32>, a: Seq<int>, b: Seq<int>)
    requires
        params::limb_prime(q),
        a.len() == 648,
        b.len() == 648,
        decompose::is_transform(q, y, a),
        forall|x: int| 0 <= x < 648 ==> same(#[trigger] a[x], b[x], q as int),
    ensures
        decompose::is_transform(q, y, b),
{
    if params::splitting(q) {
        assert forall|j: int| 0 <= j < 648 implies (#[trigger] y[j]) == poly::eval(
            b,
            scalar::point(q, j),
        ) % (q as int) by {
            poly::lemma_coefficients(a, b, 0, 1, scalar::point(q, j), q as int);
        }
    } else {
        assert forall|s: int| 0 <= s < 648 implies (#[trigger] y[s]) == poly::strided(
            b,
            s % 2,
            2,
            scalar::point(q, s / 2),
        ) % (q as int) by {
            poly::lemma_coefficients(a, b, s % 2, 2, scalar::point(q, s / 2), q as int);
        }
    }
}

/// `y` are the transforms of the challenges.
pub open spec fn are_transforms(q: u16, y: Seq<[u32; 648]>, c: Seq<ShortChallenge>) -> bool {
    &&& y.len() == c.len()
    &&& forall|j: int|
        0 <= j < y.len() ==> scalar::in_range((#[trigger] y[j])@, q) && decompose::is_transform(
            q,
            y[j]@,
            challenge(c[j]),
        )
}

/// The transforms of the challenges.
pub fn challenge_transforms(q: u16, c: &[ShortChallenge]) -> (y: Vec<[u32; 648]>)
    requires
        params::limb_prime(q),
        sound(c@),
    ensures
        are_transforms(q, y@, c@),
{
    let n: usize = c.len();
    let mut y: Vec<[u32; 648]> = Vec::new();
    let mut j: usize = 0;
    while j < n
        invariant
            j <= n == c@.len(),
            params::limb_prime(q),
            sound(c@),
            y@.len() == j,
            forall|j: int|
                0 <= j < y@.len() ==> scalar::in_range((#[trigger] y@[j])@, q)
                    && decompose::is_transform(q, y@[j]@, challenge(c@[j])),
        decreases n - j,
    {
        assert(c@[j as int].wf());
        let a = challenge_residues(&c[j], q);
        let t = scalar::transform(q, &a);
        proof {
            lemma_same_transform(q, t@, poly::ints(a@), challenge(c@[j as int]));
        }
        y.push(t);
        j += 1;
    }
    y
}

// ---------------------------------------------------------------------------------------------
// folding the witness
// ---------------------------------------------------------------------------------------------

/// Lane `i` of every chunk.
pub open spec fn across(b: Seq<Batch32>, per: int, m: nat, i: int) -> Seq<Seq<int>> {
    Seq::new(m, |j: int| ajtai::lane(b[j * per + i / 32], i % 32))
}

/// `sum_j c_j w_{j, i}` in the transform domain.
fn fold_lane(q: u16, points: &[u64], chats: &[[u32; 648]], c: Ghost<Seq<ShortChallenge>>, batches: &[Batch32], per: usize, i: usize) -> (s: [u32; 648])
    requires
        params::limb_prime(q),
        ajtai::are_points(q, points@),
        are_transforms(q, chats@, c@),
        batches@.len() == chats@.len() * per,
        i < 32 * per,
    ensures
        scalar::in_range(s@, q),
        forall|r: int|
            0 <= r < 648 ==> (#[trigger] s@[r]) == ajtai::dot(
                q,
                ajtai::all_hats(q, challenge_list(c@)),
                across(batches@, per as int, chats@.len(), i as int),
                r,
                chats@.len(),
            ) % (q as int),
{
    let n: usize = chats.len();
    let total: usize = batches.len();
    let ghost (aa, yy) = (
        ajtai::all_hats(q, challenge_list(c@)),
        across(batches@, per as int, chats@.len(), i as int),
    );
    let mut s: [u32; 648] = [0;648];
    let mut j: usize = 0;
    proof {
        lemma_small_mod(0, q as nat);
    }
    while j < n
        invariant
            j <= n == chats@.len(),
            params::limb_prime(q),
            ajtai::are_points(q, points@),
            are_transforms(q, chats@, c@),
            batches@.len() == n * per == total,
            i < 32 * per,
            aa == ajtai::all_hats(q, challenge_list(c@)),
            yy == across(batches@, per as int, chats@.len(), i as int),
            scalar::in_range(s@, q),
            forall|r: int|
                0 <= r < 648 ==> (#[trigger] s@[r]) == ajtai::dot(q, aa, yy, r, j as nat) % (
                q as int),
        decreases n - j,
    {
        proof {
            assert(0 <= j * per && (j + 1) * per <= n * per && (j + 1) * per == j * per + per)
                by (nonlinear_arith)
                requires
                    0 <= j,
                    j + 1 <= n,
                    0 <= per,
            ;
        }
        let y = ajtai::batch_lane(&batches[j * per + i / 32], i % 32, q);
        let ghost before = s@;
        assert(scalar::in_range(chats@[j as int]@, q));
        ajtai::accumulate(q, points, &mut s, &chats[j], &y);
        proof {
            let m = q as int;
            let (x, z) = (poly::ints(chats@[j as int]@), poly::ints(y@));
            assert forall|t: int| 0 <= t < 648 implies same(#[trigger] x[t], aa[j as int][t], m) by {
                ajtai::lemma_rows(q, chats@[j as int]@, challenge(c@[j as int]), t);
            }
            assert forall|t: int| 0 <= t < 648 implies same(#[trigger] z[t], yy[j as int][t], m) by {
                assert(y@[t] == yy[j as int][t] % m);
                modular::lemma_reduced(yy[j as int][t], m);
            }
            assert forall|r: int| 0 <= r < 648 implies (#[trigger] s@[r]) == ajtai::dot(
                q,
                aa,
                yy,
                r,
                (j + 1) as nat,
            ) % m by {
                let d = ajtai::dot(q, aa, yy, r, j as nat);
                ajtai::lemma_times_same(q, x, z, aa[j as int], yy[j as int], r);
                assert(before[r] == d % m);
                modular::lemma_reduced(d, m);
                modular::lemma_add(
                    before[r] as int,
                    ajtai::times(q, x, z, r),
                    d,
                    ajtai::times(q, aa[j as int], yy[j as int], r),
                    m,
                );
            }
        }
        j += 1;
    }
    s
}

/// Columns of `n` ring elements each.
pub open spec fn shaped(w: Seq<Seq<Seq<int>>>, m: nat, n: nat) -> bool {
    &&& w.len() == m
    &&& forall|j: int| 0 <= j < m ==> (#[trigger] w[j]).len() == n
    &&& forall|j: int, i: int| 0 <= j < m && 0 <= i < n ==> (#[trigger] w[j][i]).len() == 648
}

/// The batches hold the transforms of the columns `w` modulo `q`.
pub open spec fn kept(b: Seq<Batch32>, per: nat, q: u16, w: Seq<Seq<Seq<int>>>) -> bool {
    forall|j: int| 0 <= j < w.len() ==> key::held(b, j * per, q, #[trigger] w[j])
}

/// Ring elements as integer coefficients.
pub open spec fn integers(v: Seq<RingElement>) -> Seq<Seq<int>> {
    Seq::new(v.len(), |i: int| Seq::new(648, |x: int| v[i].v@[x] as int))
}

/// `v` is the fold of the columns modulo `q`, centred.
pub open spec fn is_folded(q: u16, c: Seq<ShortChallenge>, w: Seq<Seq<Seq<int>>>, v: Seq<RingElement>) -> bool {
    forall|i: int, x: int|
        0 <= i < v.len() && 0 <= x < 648 ==> (#[trigger] v[i].v@[x]) == uniform::centre(
            ajtai::fold_poly(challenge_list(c), w, i, c.len())[x] % (q as int),
            q as int,
        )
}

/// The transform of a fold, as a product of transforms.
pub proof fn lemma_fold_transform(
    q: u16,
    c: Seq<Seq<int>>,
    w: Seq<Seq<Seq<int>>>,
    y: Seq<Seq<int>>,
    i: int,
    m: nat,
    r: int,
)
    requires
        params::limb_prime(q),
        m <= c.len(),
        m <= w.len(),
        m <= y.len(),
        forall|j: int| 0 <= j < m ==> (#[trigger] c[j]).len() == 648,
        forall|j: int| 0 <= j < m ==> (#[trigger] w[j])[i].len() == 648,
        forall|j: int, t: int|
            0 <= j < m && 0 <= t < 648 ==> same(
                #[trigger] y[j][t],
                ajtai::hat(q, w[j][i], t),
                q as int,
            ),
        0 <= r < 648,
    ensures
        same(
            ajtai::dot(q, ajtai::all_hats(q, c), y, r, m),
            ajtai::hat(q, ajtai::fold_poly(c, w, i, m), r),
            q as int,
        ),
    decreases m,
{
    if m == 0 {
        let z = Seq::new(648, |x: int| 0int);
        poly::lemma_absent(z, 0, 1, scalar::point(q, r));
        poly::lemma_absent(z, r % 2, 2, scalar::point(q, r / 2));
    } else {
        let k = (m - 1) as nat;
        let n = q as int;
        lemma_fold_transform(q, c, w, y, i, k, r);
        ajtai::lemma_fold_len(c, w, i, k);
        assert(c[m - 1].len() == 648 && w[m - 1][i].len() == 648);
        let (a, b) = (
            ajtai::fold_poly(c, w, i, k),
            laws::reduce_phi(poly::product(c[m - 1], w[m - 1][i])),
        );
        ajtai::lemma_product_hat(q, c[m - 1], w[m - 1][i], r);
        let h = ajtai::hats(q, c[m - 1]);
        let g = ajtai::hats(q, w[m - 1][i]);
        assert forall|t: int| 0 <= t < 648 implies same(#[trigger] y[m - 1][t], g[t], n) by {}
        ajtai::lemma_times_same(q, h, y[m - 1], h, g, r);
        poly::lemma_plus(a, b, 0, 1, scalar::point(q, r));
        poly::lemma_plus(a, b, r % 2, 2, scalar::point(q, r / 2));
        modular::lemma_add(
            ajtai::dot(q, ajtai::all_hats(q, c), y, r, k),
            ajtai::times(q, h, y[m - 1], r),
            ajtai::hat(q, a, r),
            ajtai::hat(q, b, r),
            n,
        );
    }
}

/// Reduced coefficients, centred.
pub fn centred_element(a: &[u32; 648], q: u16) -> (e: RingElement)
    requires
        2 <= q < 0x8000,
        scalar::in_range(a@, q),
    ensures
        e.representation == Representation::Coefficients,
        forall|x: int|
            0 <= x < 648 ==> (#[trigger] e.v@[x]) == uniform::centre(a@[x] as int, q as int),
{
    let mut e = RingElement::zero(Representation::Coefficients);
    let mut x: usize = 0;
    while x < 648
        invariant
            x <= 648,
            2 <= q < 0x8000,
            scalar::in_range(a@, q),
            e.representation == Representation::Coefficients,
            forall|i: int|
                0 <= i < x ==> (#[trigger] e.v@[i]) == uniform::centre(a@[i] as int, q as int),
        decreases 648 - x,
    {
        assert(a@[x as int] < q);
        e.v[x] = decompose::centred(a[x], q);
        x += 1;
    }
    e
}

/// What the inverse transform of a folded lane holds.
proof fn lemma_folded_lane(
    q: u16,
    c: Seq<ShortChallenge>,
    w: Seq<Seq<Seq<int>>>,
    b: Seq<Batch32>,
    per: nat,
    i: int,
    s: Seq<u32>,
    a: Seq<u32>,
)
    requires
        params::limb_prime(q),
        shaped(w, c.len(), 32 * per),
        kept(b, per, q, w),
        0 <= i < 32 * per,
        a.len() == 648,
        scalar::in_range(a, q),
        decompose::is_transform(q, s, poly::ints(a)),
        forall|r: int|
            0 <= r < 648 ==> (#[trigger] s[r]) == ajtai::dot(
                q,
                ajtai::all_hats(q, challenge_list(c)),
                across(b, per as int, c.len(), i),
                r,
                c.len(),
            ) % (q as int),
    ensures
        forall|x: int|
            0 <= x < 648 ==> (#[trigger] a[x]) == ajtai::fold_poly(
                challenge_list(c),
                w,
                i,
                c.len(),
            )[x] % (q as int),
{
    let (n, m, cl) = (q as int, c.len(), challenge_list(c));
    let y = across(b, per as int, m, i);
    let f = ajtai::fold_poly(cl, w, i, m);
    ajtai::lemma_fold_len(cl, w, i, m);
    assert forall|j: int, t: int| 0 <= j < m && 0 <= t < 648 implies same(
        #[trigger] y[j][t],
        ajtai::hat(q, w[j][i], t),
        n,
    ) by {
        let h = ajtai::hat(q, w[j][i], t);
        assert(key::held(b, j * per, q, w[j]));
        assert(b[j * per + i / 32].v@[t]@[i % 32] == uniform::centre(h % n, n));
        assert(y[j][t] == uniform::centre(h % n, n));
        lemma_centre(h, n);
    }
    assert forall|j: int| 0 <= j < m implies (#[trigger] w[j])[i].len() == 648 by {
        assert(w[j][i].len() == 648);
    }
    assert forall|r: int| 0 <= r < 648 implies (#[trigger] s[r]) == ajtai::hat(q, f, r) % n by {
        lemma_fold_transform(q, cl, w, y, i, m, r);
    }
    assert(decompose::is_transform(q, s, f));
    scalar::transform_determines_residues(q, s, poly::ints(a), f);
    assert forall|x: int| 0 <= x < 648 implies (#[trigger] a[x]) == f[x] % n by {
        assert(same(poly::ints(a)[x], f[x], n));
        lemma_small_mod(a[x] as nat, n as nat);
    }
}

/// A centred residue is in the same class.
pub proof fn lemma_centre(x: int, q: int)
    requires
        q >= 2,
    ensures
        same(uniform::centre(x % q, q), x, q),
        -(q / 2) <= uniform::centre(x % q, q) <= q / 2,
{
    modular::lemma_reduced(x, q);
    modular::lemma_multiple(x % q, -1, q);
}

/// The fold of the kept transforms, centred modulo the base prime.
pub fn fold_witness(batches: &[Batch32], challenges: &[ShortChallenge], per: usize, q: u16) -> (v: Vec<
    RingElement,
>)
    requires
        params::limb_prime(q),
        sound(challenges@),
        batches@.len() == challenges@.len() * per,
        32 * per <= usize::MAX,
    ensures
        v@.len() == 32 * per,
        forall|i: int|
            0 <= i < v@.len() ==> (#[trigger] v@[i]).representation == Representation::Coefficients,
        forall|w: Seq<Seq<Seq<int>>>|
            shaped(w, challenges@.len(), 32 * per as nat) && #[trigger] kept(
                batches@,
                per as nat,
                q,
                w,
            ) ==> is_folded(q, challenges@, w, v@),
{
    let n: usize = 32 * per;
    let chats = challenge_transforms(q, challenges);
    let points = ajtai::leaf_points(q);
    let mut v: Vec<RingElement> = Vec::new();
    let mut i: usize = 0;
    while i < n
        invariant
            i <= n == 32 * per,
            params::limb_prime(q),
            2 <= q < 0x8000,
            are_transforms(q, chats@, challenges@),
            ajtai::are_points(q, points@),
            batches@.len() == challenges@.len() * per,
            v@.len() == i,
            forall|t: int|
                0 <= t < i ==> (#[trigger] v@[t]).representation == Representation::Coefficients,
            forall|w: Seq<Seq<Seq<int>>>|
                shaped(w, challenges@.len(), 32 * per as nat) && #[trigger] kept(
                    batches@,
                    per as nat,
                    q,
                    w,
                ) ==> is_folded(q, challenges@, w, v@),
        decreases n - i,
    {
        let s = fold_lane(
            q,
            points.as_slice(),
            chats.as_slice(),
            Ghost(challenges@),
            batches,
            per,
            i,
        );
        let a = scalar::inverse_transform(q, &s);
        let ghost before = v@;
        v.push(centred_element(&a, q));
        proof {
            assert forall|w: Seq<Seq<Seq<int>>>|
                shaped(w, challenges@.len(), 32 * per as nat) && #[trigger] kept(
                    batches@,
                    per as nat,
                    q,
                    w,
                ) implies is_folded(q, challenges@, w, v@) by {
                assert(is_folded(q, challenges@, w, before));
                lemma_folded_lane(q, challenges@, w, batches@, per as nat, i as int, s@, a@);
                assert forall|t: int, x: int| 0 <= t < v@.len() && 0 <= x < 648 implies (
                #[trigger] v@[t].v@[x]) == uniform::centre(
                    ajtai::fold_poly(challenge_list(challenges@), w, t, challenges@.len())[x] % (
                    q as int),
                    q as int,
                ) by {
                    if t < i {
                        assert(v@[t] == before[t]);
                        assert(before[t].v@[x] == uniform::centre(
                            ajtai::fold_poly(
                                challenge_list(challenges@),
                                w,
                                t,
                                challenges@.len(),
                            )[x] % (q as int),
                            q as int,
                        ));
                    } else {
                        assert(a@[x] == ajtai::fold_poly(
                            challenge_list(challenges@),
                            w,
                            t,
                            challenges@.len(),
                        )[x] % (q as int));
                    }
                }
            }
        }
        i += 1;
    }
    v
}

// ---------------------------------------------------------------------------------------------
// the image of a fold
// ---------------------------------------------------------------------------------------------

/// Signed ring elements reduced modulo `q`.
fn reduced_elements(v: &[RingElement], q: u16) -> (w: Vec<[u32; 648]>)
    requires
        2 <= q,
    ensures
        w@.len() == v@.len(),
        forall|i: int, x: int|
            0 <= i < v@.len() && 0 <= x < 648 ==> (#[trigger] w@[i]@[x]) == v@[i].v@[x] as int % (
            q as int),
{
    let n: usize = v.len();
    let mut w: Vec<[u32; 648]> = Vec::new();
    let mut i: usize = 0;
    while i < n
        invariant
            i <= n == v@.len(),
            2 <= q,
            w@.len() == i,
            forall|t: int, x: int|
                0 <= t < i && 0 <= x < 648 ==> (#[trigger] w@[t]@[x]) == v@[t].v@[x] as int % (
                q as int),
        decreases n - i,
    {
        w.push(scalar::normalize_i16(&v[i].v, q));
        i += 1;
    }
    w
}

/// Congruent elements have the same image.
proof fn lemma_same_image(
    q: u16,
    a: Seq<Batch32>,
    v: Seq<Seq<int>>,
    w: Seq<Seq<int>>,
    y: Seq<u32>,
)
    requires
        params::limb_prime(q),
        v.len() == w.len(),
        forall|i: int| 0 <= i < v.len() ==> (#[trigger] v[i]).len() == 648,
        forall|i: int| 0 <= i < w.len() ==> (#[trigger] w[i]).len() == 648,
        forall|i: int, x: int|
            0 <= i < v.len() && 0 <= x < 648 ==> same(#[trigger] v[i][x], w[i][x], q as int),
        key::is_commitment(q, a, v, y),
    ensures
        key::is_commitment(q, a, w, y),
{
    let (n, l) = (q as int, ajtai::lanes(a));
    let (g, h) = (ajtai::all_hats(q, v), ajtai::all_hats(q, w));
    assert forall|i: int, r: int| 0 <= i < v.len() && 0 <= r < 648 implies same(
        #[trigger] g[i][r],
        h[i][r],
        n,
    ) by {
        assert(v[i].len() == 648 && w[i].len() == 648);
        assert forall|x: int| 0 <= x < 648 implies same(#[trigger] v[i][x], w[i][x], n) by {}
        poly::lemma_coefficients(v[i], w[i], 0, 1, scalar::point(q, r), n);
        poly::lemma_coefficients(v[i], w[i], r % 2, 2, scalar::point(q, r / 2), n);
    }
    assert forall|r: int| 0 <= r < 648 implies (#[trigger] y[r]) == ajtai::dot(
        q,
        l,
        h,
        r,
        w.len(),
    ) % n by {
        ajtai::lemma_dot_same(q, l, g, h, r, v.len());
    }
}

/// `A v` modulo `q`: 648 rows in `[0, q)`.
pub fn a_times_v(q: u16, a: &[Batch32], v: &[RingElement]) -> (y: [u32; 648])
    requires
        params::limb_prime(q),
        v@.len() <= 32 * a@.len(),
    ensures
        scalar::in_range(y@, q),
        key::is_commitment(q, a@, integers(v@), y@),
{
    let w = reduced_elements(v, q);
    let y = ajtai::image(q, a, w.as_slice());
    proof {
        let (s, t) = (ajtai::elements(w@), integers(v@));
        assert forall|i: int, x: int| 0 <= i < s.len() && 0 <= x < 648 implies same(
            #[trigger] s[i][x],
            t[i][x],
            q as int,
        ) by {
            assert(w@[i]@[x] == v@[i].v@[x] as int % (q as int));
            modular::lemma_reduced(v@[i].v@[x] as int, q as int);
        }
        lemma_same_image(q, a@, s, t, y@);
    }
    y
}

// ---------------------------------------------------------------------------------------------
// folding the commitment
// ---------------------------------------------------------------------------------------------

/// The values of the challenges at the 162 classes.
pub fn class_values(q: u16, c: &[ShortChallenge]) -> (x: Vec<[u32; 162]>)
    requires
        params::limb_prime(q),
        sound(c@),
    ensures
        x@.len() == c@.len(),
        forall|j: int, s: int|
            0 <= j < c@.len() && 0 <= s < 162 ==> (#[trigger] x@[j]@[s]) == ajtai::chi(
                q,
                challenge(c@[j]),
                s,
            ) % (q as int),
{
    let n: usize = c.len();
    let y = challenge_transforms(q, c);
    let mut x: Vec<[u32; 162]> = Vec::new();
    let mut j: usize = 0;
    while j < n
        invariant
            j <= n == c@.len(),
            params::limb_prime(q),
            are_transforms(q, y@, c@),
            x@.len() == j,
            forall|i: int, s: int|
                0 <= i < j && 0 <= s < 162 ==> (#[trigger] x@[i]@[s]) == ajtai::chi(
                    q,
                    challenge(c@[i]),
                    s,
                ) % (q as int),
        decreases n - j,
    {
        assert(scalar::in_range(y@[j as int]@, q));
        let d = decompose::components(q, &y[j]);
        proof {
            assert forall|s: int| 0 <= s < 162 implies (#[trigger] d@[0]@[s]) == ajtai::chi(
                q,
                challenge(c@[j as int]),
                s,
            ) % (q as int) by {
                decompose::transform_decomposes(q, y@[j as int]@, challenge(c@[j as int]), 0, s);
            }
        }
        x.push(d[0]);
        j += 1;
    }
    x
}

/// Slot `s` of row `t` of `sum_j c_j C_j` modulo the prime `q` of limb `k`.
pub open spec fn folded_slot(
    q: u16,
    c: Seq<ShortChallenge>,
    m: VerticallyAlignedMatrix<PowerOfThreeRingElementWithLimbs>,
    k: int,
    t: int,
    s: int,
) -> int {
    ajtai::weighted(
        ajtai::chis(q, challenge_list(c), s),
        |j: int| m.at(t, j).limbs@[k].v@[s] as int,
        c.len(),
    ) % (q as int)
}

/// One slot of the folded commitment.
fn fold_slot(
    q: u16,
    c: Ghost<Seq<ShortChallenge>>,
    x: &Vec<[u32; 162]>,
    m: &VerticallyAlignedMatrix<PowerOfThreeRingElementWithLimbs>,
    k: usize,
    t: usize,
    s: usize,
) -> (r: u32)
    requires
        params::limb_prime(q),
        m.wf(),
        t < m.rows,
        m.cols == c@.len() == x@.len(),
        s < 162,
        forall|j: int| 0 <= j < m.data@.len() ==> k < (#[trigger] m.data@[j]).limbs@.len(),
        forall|j: int, s: int|
            0 <= j < c@.len() && 0 <= s < 162 ==> (#[trigger] x@[j]@[s]) == ajtai::chi(
                q,
                challenge(c@[j]),
                s,
            ) % (q as int),
    ensures
        r == folded_slot(q, c@, *m, k as int, t as int, s as int),
        r < q,
{
    let n: usize = x.len();
    let ghost f = |j: int| m.at(t as int, j).limbs@[k as int].v@[s as int] as int;
    let ghost h = ajtai::chis(q, challenge_list(c@), s as int);
    let mut r: u32 = 0;
    let mut j: usize = 0;
    proof {
        lemma_small_mod(0, q as nat);
    }
    while j < n
        invariant
            j <= n == x@.len(),
            params::limb_prime(q),
            2 <= q < 0x8000,
            m.wf(),
            t < m.rows,
            m.cols == c@.len() == x@.len(),
            s < 162,
            forall|j: int| 0 <= j < m.data@.len() ==> k < (#[trigger] m.data@[j]).limbs@.len(),
            forall|j: int, s: int|
                0 <= j < c@.len() && 0 <= s < 162 ==> (#[trigger] x@[j]@[s]) == ajtai::chi(
                    q,
                    challenge(c@[j]),
                    s,
                ) % (q as int),
            f == (|j: int| m.at(t as int, j).limbs@[k as int].v@[s as int] as int),
            h == ajtai::chis(q, challenge_list(c@), s as int),
            r < q,
            r == ajtai::weighted(h, f, j as nat) % (q as int),
        decreases n - j,
    {
        let e = m.get(t, j);
        proof {
            m.lemma_index(t as int, j as int);
        }
        let y: u32 = ring::element::residue(e.limbs[k].v[s], q);
        let z: u32 = x[j][s];
        proof {
            let n = q as int;
            let (g, v) = (ajtai::chi(q, challenge(c@[j as int]), s as int), f(j as int));
            assert(z == g % n);
            modular::lemma_reduced(g, n);
            modular::lemma_reduced(v, n);
            modular::lemma_mul(z as int, y as int, g, v, n);
            let w = ajtai::weighted(h, f, j as nat);
            modular::lemma_reduced(w, n);
            modular::lemma_add(r as int, z * y, w, g * v, n);
        }
        r = ajtai::add_product(q as u64, r, z, y);
        j += 1;
    }
    r
}

/// The four rows of `sum_j c_j C_j` modulo the prime of limb `k`, centred.
pub fn fold_columns_slots(
    q: u16,
    challenges: &[ShortChallenge],
    m: &VerticallyAlignedMatrix<PowerOfThreeRingElementWithLimbs>,
    k: usize,
) -> (out: [[i16; 162]; 4])
    requires
        params::limb_prime(q),
        sound(challenges@),
        m.wf(),
        m.rows == 4,
        m.cols == challenges@.len(),
        forall|j: int| 0 <= j < m.data@.len() ==> k < (#[trigger] m.data@[j]).limbs@.len(),
    ensures
        forall|t: int, s: int|
            0 <= t < 4 && 0 <= s < 162 ==> (#[trigger] out@[t]@[s]) == uniform::centre(
                folded_slot(q, challenges@, *m, k as int, t, s),
                q as int,
            ),
{
    let x = class_values(q, challenges);
    let mut out: [[i16; 162]; 4] = [[0;162];4];
    let mut t: usize = 0;
    while t < 4
        invariant
            t <= 4,
            params::limb_prime(q),
            2 <= q < 0x8000,
            m.wf(),
            m.rows == 4,
            m.cols == challenges@.len() == x@.len(),
            forall|j: int| 0 <= j < m.data@.len() ==> k < (#[trigger] m.data@[j]).limbs@.len(),
            forall|j: int, s: int|
                0 <= j < challenges@.len() && 0 <= s < 162 ==> (#[trigger] x@[j]@[s])
                    == ajtai::chi(q, challenge(challenges@[j]), s) % (q as int),
            forall|i: int, s: int|
                0 <= i < t && 0 <= s < 162 ==> (#[trigger] out@[i]@[s]) == uniform::centre(
                    folded_slot(q, challenges@, *m, k as int, i, s),
                    q as int,
                ),
        decreases 4 - t,
    {
        let mut row: [i16; 162] = [0;162];
        let mut s: usize = 0;
        while s < 162
            invariant
                t < 4,
                s <= 162,
                params::limb_prime(q),
                2 <= q < 0x8000,
                m.wf(),
                m.rows == 4,
                m.cols == challenges@.len() == x@.len(),
                forall|j: int|
                    0 <= j < m.data@.len() ==> k < (#[trigger] m.data@[j]).limbs@.len(),
                forall|j: int, s: int|
                    0 <= j < challenges@.len() && 0 <= s < 162 ==> (#[trigger] x@[j]@[s])
                        == ajtai::chi(q, challenge(challenges@[j]), s) % (q as int),
                forall|i: int|
                    0 <= i < s ==> (#[trigger] row@[i]) == uniform::centre(
                        folded_slot(q, challenges@, *m, k as int, t as int, i),
                        q as int,
                    ),
            decreases 162 - s,
        {
            let r: u32 = fold_slot(q, Ghost(challenges@), &x, m, k, t, s);
            row[s] = decompose::centred(r, q);
            s += 1;
        }
        out[t] = row;
        t += 1;
    }
    out
}

} // verus!
