//! The per-limb identity `sum_i F_i v_i - sum_j c_j C_j - q k = 0` in `S`-component form.
//!
//! The key rows and the residues of a commitment come in the transform domain and are inverted into
//! the `Z`-basis of `S`. For output component `m` the multiplier of `v_{i,l}` is
//! `F_{i,(m-l) mod 4}`, twisted by `-Z` when `l > m`.
use super::chain::Gadget;
use super::chunk;
use super::{Poly, SElem};
use crate::ajtai;
use crate::fold;
use crate::key::CommitmentKey;
use crate::modular;
use crate::modular::same;
use crate::ntt::poly;
use crate::params;
use crate::ring;
use crate::ring::decompose;
use crate::ring::recombine;
use crate::ring::{
    PowerOfThreeRingElementWithLimbs, RingElement, VerticallyAlignedMatrix,
};
use crate::scalar;
use crate::scheme::public::PublicParameters;
use crate::wire::uniform;
use vstd::arithmetic::div_mod::*;
use vstd::prelude::*;

verus! {

/// What one limb costs beyond its prime: the carry gadget and the base-512 digits of the wraparound
/// quotient.
#[derive(Clone, Copy, Debug)]
pub struct Shape {
    pub q: u16,
    pub quad: bool,
    pub carry: Gadget,
    pub quotient: Gadget,
}

/// Whether `q` splits `X^648 + 1` into quadratic slots rather than linear ones.
pub fn quad(q: u16) -> (r: bool)
    requires
        params::limb_prime(q),
    ensures
        r == ring::quadratic(q),
{
    params::quadratic_slots(q)
}

/// The carry base: 1024 below `2^12`, 256 above it, so that a carry level stays a per-coefficient
/// cap of the size the keys are chosen for.
pub fn carry_base(q: u16) -> (b: i64)
    ensures
        q < 0x1000 ==> b == 1024,
        q >= 0x1000 ==> b == 256,
{
    if q < 0x1000 {
        1024
    } else {
        256
    }
}

impl Shape {
    /// The shape of limb `q` whose carries take `carry_levels` digits and whose quotients take
    /// `quotient_levels`.
    pub fn of(q: u16, carry_levels: usize, quotient_levels: usize) -> (s: Shape)
        requires
            params::limb_prime(q),
        ensures
            s.q == q,
            s.quad == ring::quadratic(q),
            s.carry.base == (if q < 0x1000 {
                1024i64
            } else {
                256
            }),
            s.carry.levels == carry_levels,
            s.quotient.base == 512,
            s.quotient.levels == quotient_levels,
    {
        Shape {
            q,
            quad: quad(q),
            carry: Gadget { base: carry_base(q), levels: carry_levels },
            quotient: Gadget { base: 512, levels: quotient_levels },
        }
    }
}

// ---------------------------------------------------------------------------------------------
// the transforms
// ---------------------------------------------------------------------------------------------

/// The coefficients are centred representatives modulo `q`.
pub open spec fn centred(a: Seq<i64>, q: u16) -> bool {
    forall|i: int| 0 <= i < a.len() ==> -((q - 1) / 2) <= (#[trigger] a[i]) <= (q - 1) / 2
}

/// The coefficients of the `R_648` element a limb's transform holds, centred.
pub fn coefficients(q: u16, slots: &[u32; 648]) -> (a: [i64; 648])
    requires
        params::limb_prime(q),
        scalar::in_range(slots@, q),
    ensures
        decompose::is_transform(q, slots@, chunk::ints(a@)),
        centred(a@, q),
{
    let c = scalar::inverse_transform(q, slots);
    let mut a: [i64; 648] = [0;648];
    let mut i: usize = 0;
    while i < 648
        invariant
            i <= 648,
            params::limb_prime(q),
            scalar::in_range(c@, q),
            forall|k: int| 0 <= k < i ==> same((#[trigger] a@[k]) as int, c@[k] as int, q as int),
            forall|k: int| 0 <= k < i ==> -((q - 1) / 2) <= (#[trigger] a@[k]) <= (q - 1) / 2,
        decreases 648 - i,
    {
        assert(c@[i as int] < q);
        proof {
            modular::lemma_multiple(c@[i as int] as int, -1, q as int);
        }
        a[i] = decompose::centred(c[i], q) as i64;
        i += 1;
    }
    proof {
        let (x, y) = (poly::ints(c@), chunk::ints(a@));
        assert forall|k: int| 0 <= k < 648 implies same(#[trigger] x[k], y[k], q as int) by {
            assert(same(a@[k] as int, c@[k] as int, q as int));
        }
        fold::lemma_same_transform(q, slots@, x, y);
    }
    a
}

/// The forward transform of the same limb.
pub fn transform(q: u16, coefficients: &[i64; 648]) -> (v: [u32; 648])
    requires
        params::limb_prime(q),
    ensures
        decompose::is_transform(q, v@, chunk::ints(coefficients@)),
        scalar::in_range(v@, q),
{
    let mut a: [u32; 648] = [0;648];
    let mut i: usize = 0;
    while i < 648
        invariant
            i <= 648,
            params::limb_prime(q),
            forall|k: int| 0 <= k < i ==> (#[trigger] a@[k]) == coefficients@[k] as int % q as int,
        decreases 648 - i,
    {
        a[i] = remainder(coefficients[i], q);
        i += 1;
    }
    let v = scalar::transform(q, &a);
    proof {
        let (x, y) = (poly::ints(a@), chunk::ints(coefficients@));
        assert forall|k: int| 0 <= k < 648 implies same(#[trigger] x[k], y[k], q as int) by {
            assert(a@[k] == coefficients@[k] as int % q as int);
            modular::lemma_reduced(y[k], q as int);
        }
        fold::lemma_same_transform(q, v@, x, y);
    }
    v
}

/// The representative of `x` in `[0, q)`.
fn remainder(x: i64, q: u16) -> (r: u32)
    requires
        q > 0,
    ensures
        r == x as int % q as int,
{
    let y: i128 = x as i128;
    let m: i128 = q as i128;
    let k: i128 = 0x8000_0000_0000_0000;
    proof {
        assert(k * m >= k) by (nonlinear_arith)
            requires
                m >= 1,
                k >= 0,
        ;
        assert(k * m <= k * 0x1_0000) by (nonlinear_arith)
            requires
                m <= 0x1_0000,
                k >= 0,
        ;
        lemma_mod_multiples_vanish(k as int, y as int, m as int);
        assert(m * k == k * m) by (nonlinear_arith);
    }
    ((y + k * m) % m) as u32
}

/// The centred coefficients of a transform are determined by it.
pub proof fn coefficients_unique(q: u16, slots: Seq<u32>, a: Seq<i64>, b: Seq<i64>)
    requires
        params::limb_prime(q),
        a.len() == 648,
        b.len() == 648,
        centred(a, q),
        centred(b, q),
        decompose::is_transform(q, slots, chunk::ints(a)),
        decompose::is_transform(q, slots, chunk::ints(b)),
    ensures
        a == b,
{
    scalar::transform_determines_residues(q, slots, chunk::ints(a), chunk::ints(b));
    lemma_centred_same(q, a, b);
}

/// Centred residues that are the same modulo `q` are equal.
proof fn lemma_centred_same(q: u16, a: Seq<i64>, b: Seq<i64>)
    requires
        params::limb_prime(q),
        a.len() == 648,
        b.len() == 648,
        centred(a, q),
        centred(b, q),
        forall|i: int|
            0 <= i < 648 ==> same(#[trigger] chunk::ints(a)[i], chunk::ints(b)[i], q as int),
    ensures
        a == b,
{
    params::lemma_limb(q);
    let (x, y) = (chunk::ints(a), chunk::ints(b));
    assert forall|i: int| 0 <= i < 648 implies (#[trigger] a[i]) == b[i] by {
        assert(same(x[i], y[i], q as int));
        let d = a[i] - b[i];
        modular::lemma_sub(x[i], y[i], y[i], y[i], q as int);
        assert(d % (q as int) == 0int % (q as int));
        lemma_fundamental_div_mod(d, q as int);
        let k = d / (q as int);
        assert(k == 0) by (nonlinear_arith)
            requires
                d == q * k,
                -(q as int) < d < q as int,
                q > 0,
        ;
    }
    assert(a =~= b);
}

// ---------------------------------------------------------------------------------------------
// the components
// ---------------------------------------------------------------------------------------------

/// Coefficient `m` of the `S`-component `l` of an `R_648` element, in the `Z`-basis.
pub open spec fn part(a: Seq<int>, l: int, m: int) -> int {
    if m % 2 == 0 {
        a[4 * m + l]
    } else {
        -a[4 * m + l]
    }
}

/// The `S`-component `l` of an `R_648` element.
pub open spec fn component(a: Seq<int>, l: int) -> Seq<int> {
    Seq::new(162, |m: int| part(a, l, m))
}

/// `e` are the four `S`-components of `a`.
pub open spec fn is_split(e: Seq<SElem>, a: Seq<int>) -> bool {
    forall|l: int| 0 <= l < 4 ==> chunk::ints((#[trigger] e[l])@) == component(a, l)
}

/// One component.
fn pick(a: &[i64; 648], l: usize) -> (x: SElem)
    requires
        l < 4,
        forall|i: int| 0 <= i < 648 ==> (#[trigger] a@[i]) > i64::MIN,
    ensures
        chunk::ints(x@) == component(chunk::ints(a@), l as int),
{
    let mut x: SElem = [0;162];
    let mut m: usize = 0;
    while m < 162
        invariant
            l < 4,
            m <= 162,
            forall|i: int| 0 <= i < 648 ==> (#[trigger] a@[i]) > i64::MIN,
            forall|i: int| 0 <= i < m ==> (#[trigger] x@[i]) == part(chunk::ints(a@), l as int, i),
        decreases 162 - m,
    {
        assert(a@[4 * m + l] > i64::MIN);
        if m % 2 == 0 {
            x[m] = a[4 * m + l];
        } else {
            x[m] = -a[4 * m + l];
        }
        m += 1;
    }
    assert(chunk::ints(x@) =~= component(chunk::ints(a@), l as int));
    x
}

/// The four `S`-components of an `R_648` element in the `Z`-basis: `a_l = sum_m (-1)^m a_{4m+l}`.
pub fn split(a: &[i64; 648]) -> (e: [SElem; 4])
    requires
        forall|i: int| 0 <= i < 648 ==> (#[trigger] a@[i]) > i64::MIN,
    ensures
        is_split(e@, chunk::ints(a@)),
{
    [pick(a, 0), pick(a, 1), pick(a, 2), pick(a, 3)]
}

/// The four `S`-components of a folded-witness element.
pub fn components(e: &RingElement) -> (s: [SElem; 4])
    ensures
        is_split(s@, chunk::shorts(e.v@)),
{
    let mut a: [i64; 648] = [0;648];
    let mut i: usize = 0;
    while i < 648
        invariant
            i <= 648,
            forall|k: int| 0 <= k < i ==> (#[trigger] a@[k]) == e.v@[k],
            forall|k: int| i <= k < 648 ==> (#[trigger] a@[k]) == 0,
        decreases 648 - i,
    {
        a[i] = e.v[i] as i64;
        i += 1;
    }
    assert(chunk::ints(a@) =~= chunk::shorts(e.v@));
    split(&a)
}

/// The element with the components `e`.
pub open spec fn joined(e: Seq<Seq<int>>) -> Seq<int> {
    Seq::new(
        648,
        |i: int|
            if i / 4 % 2 == 0 {
                e[i % 4][i / 4]
            } else {
                -e[i % 4][i / 4]
            },
    )
}

/// The components of an element determine it.
pub proof fn joined_components(a: Seq<int>)
    requires
        a.len() == 648,
    ensures
        joined(Seq::new(4, |l: int| component(a, l))) == a,
{
    let e = Seq::new(4, |l: int| component(a, l));
    assert forall|i: int| 0 <= i < 648 implies #[trigger] joined(e)[i] == a[i] by {
        assert(4 * (i / 4) + i % 4 == i);
    }
    assert(joined(e) =~= a);
}

// ---------------------------------------------------------------------------------------------
// the key rows
// ---------------------------------------------------------------------------------------------

/// The key rows in coefficient form: `rows[i]` are the four `S`-components of `A_i` modulo the
/// limb's prime, centred.
pub struct KeyRows {
    pub q: u16,
    pub quad: bool,
    pub rows: Vec<[SElem; 4]>,
}

impl KeyRows {
    /// The components of row `i` as integers.
    pub open spec fn parts(&self, i: int) -> Seq<Seq<int>> {
        Seq::new(4, |l: int| chunk::ints(self.rows@[i]@[l]@))
    }

    /// The `R_648` element of row `i` in coefficient form, centred.
    pub fn coefficients(&self, i: usize) -> (a: [i64; 648])
        requires
            i < self.rows@.len(),
            forall|l: int, m: int|
                0 <= l < 4 && 0 <= m < 162 ==> (#[trigger] self.rows@[i as int]@[l]@[m]) > i64::MIN,
        ensures
            chunk::ints(a@) == joined(self.parts(i as int)),
    {
        let row = &self.rows[i];
        let mut a: [i64; 648] = [0;648];
        let mut x: usize = 0;
        while x < 648
            invariant
                x <= 648,
                *row == self.rows@[i as int],
                forall|l: int, m: int|
                    0 <= l < 4 && 0 <= m < 162 ==> (#[trigger] row@[l]@[m]) > i64::MIN,
                forall|k: int|
                    0 <= k < x ==> (#[trigger] a@[k]) == joined(self.parts(i as int))[k],
            decreases 648 - x,
        {
            assert(row@[x as int % 4]@[x as int / 4] > i64::MIN);
            if x / 4 % 2 == 0 {
                a[x] = row[x % 4][x / 4];
            } else {
                a[x] = -row[x % 4][x / 4];
            }
            x += 1;
        }
        assert(chunk::ints(a@) =~= joined(self.parts(i as int)));
        a
    }
}

/// A row made of the components of an element gives the element back.
pub proof fn row_of_components(k: KeyRows, i: int, a: Seq<int>)
    requires
        a.len() == 648,
        0 <= i < k.rows@.len(),
        is_split(k.rows@[i]@, a),
    ensures
        joined(k.parts(i)) == a,
{
    joined_components(a);
    assert(k.parts(i) =~= Seq::new(4, |l: int| component(a, l)));
}

/// Slot `j` of `A_i` in `[0, q)`.
pub open spec fn key_slot(key: CommitmentKey, limb: int, i: int, j: int) -> int {
    key.a@[limb]@[i / 32].v@[j]@[i % 32] as int % key.prime_at(limb) as int
}

/// The 648 slots of `A_i` as the key holds them.
pub fn key_slots(pp: &PublicParameters, limb: usize, i: usize) -> (v: [u32; 648])
    requires
        pp.wf(),
        limb < pp.key.a@.len(),
        i < pp.key.len_f162 / 4,
    ensures
        forall|j: int|
            0 <= j < 648 ==> (#[trigger] v@[j]) == key_slot(*pp.key, limb as int, i as int, j),
        scalar::in_range(v@, pp.key.prime_at(limb as int)),
{
    let key = &*pp.key;
    let q: u16 = key.prime(limb);
    let row = key.row(limb);
    assert(key.a@[limb as int]@.len() == key.len_f162 / 128);
    let batch = &row[i / 32];
    let mut v: [u32; 648] = [0;648];
    let mut j: usize = 0;
    while j < 648
        invariant
            j <= 648,
            q > 0,
            q == key.prime_at(limb as int),
            *batch == key.a@[limb as int]@[i as int / 32],
            forall|k: int|
                0 <= k < j ==> (#[trigger] v@[k]) == key_slot(*key, limb as int, i as int, k),
            forall|k: int| 0 <= k < j ==> (#[trigger] v@[k]) < q,
        decreases 648 - j,
    {
        v[j] = ring::element::residue(batch.v[j][i % 32], q);
        j += 1;
    }
    v
}

/// The slots of `A_i`.
pub open spec fn key_row(key: CommitmentKey, limb: int, i: int) -> Seq<u32> {
    Seq::new(648, |j: int| key_slot(key, limb, i, j) as u32)
}

/// `e` are the components of a centred element whose transform is row `i` of the key.
pub open spec fn is_key_row(key: CommitmentKey, limb: int, i: int, e: Seq<SElem>) -> bool {
    exists|a: Seq<i64>|
        {
            &&& a.len() == 648
            &&& centred(a, key.prime_at(limb))
            &&& #[trigger] decompose::is_transform(
                key.prime_at(limb),
                key_row(key, limb, i),
                chunk::ints(a),
            )
            &&& is_split(e, chunk::ints(a))
        }
}

/// The key rows of one limb, inverted once.
pub fn key_rows(pp: &PublicParameters, limb: usize) -> (k: KeyRows)
    requires
        pp.wf(),
        limb < pp.key.a@.len(),
    ensures
        k.q == pp.key.prime_at(limb as int),
        k.quad == ring::quadratic(k.q),
        k.rows@.len() == pp.key.len_f162 / 4,
        forall|i: int|
            0 <= i < k.rows@.len() ==> is_key_row(
                *pp.key,
                limb as int,
                i,
                (#[trigger] k.rows@[i])@,
            ),
{
    let key = &*pp.key;
    let q: u16 = key.prime(limb);
    let quad = key.is_quadratic(limb);
    let n: usize = key.len_ring();
    let mut rows: Vec<[SElem; 4]> = Vec::new();
    let mut i: usize = 0;
    while i < n
        invariant
            i <= n,
            n == key.len_f162 / 4,
            *key == *pp.key,
            pp.wf(),
            limb < key.a@.len(),
            q == key.prime_at(limb as int),
            params::limb_prime(q),
            rows@.len() == i,
            forall|t: int|
                0 <= t < i ==> is_key_row(*key, limb as int, t, (#[trigger] rows@[t])@),
        decreases n - i,
    {
        let v = key_slots(pp, limb, i);
        let a = coefficients(q, &v);
        assert forall|k: int| 0 <= k < 648 implies (#[trigger] a@[k]) > i64::MIN by {}
        let e = split(&a);
        proof {
            let y = key_row(*key, limb as int, i as int);
            assert(v@ =~= y);
            assert(decompose::is_transform(q, y, chunk::ints(a@)));
            assert(is_key_row(*key, limb as int, i as int, e@));
        }
        rows.push(e);
        i += 1;
    }
    KeyRows { q, quad, rows }
}

// ---------------------------------------------------------------------------------------------
// the residues of a commitment
// ---------------------------------------------------------------------------------------------

/// The residues a commitment stands for, chunked in the order the encoding stores them:
/// `vectors[limb * 4 + m][b * columns + j]` is chunk `b` of component `m` of column `j`.
#[derive(Clone)]
pub struct Residues {
    pub vectors: Vec<Vec<Poly>>,
}

impl Residues {
    /// The coefficients of one vector, end to end.
    pub fn flat(&self, vector: usize) -> (c: Vec<i16>)
        requires
            vector < self.vectors@.len(),
        ensures
            c@.len() == 64 * self.vectors@[vector as int]@.len(),
            forall|i: int|
                0 <= i < c@.len() ==> (#[trigger] c@[i]) == self.vectors@[vector as int]@[i
                    / 64]@[i % 64],
    {
        let v = &self.vectors[vector];
        let n: usize = v.len();
        let mut c: Vec<i16> = Vec::new();
        let mut t: usize = 0;
        while t < n
            invariant
                t <= n == v@.len(),
                c@.len() == 64 * t,
                forall|i: int| 0 <= i < c@.len() ==> (#[trigger] c@[i]) == v@[i / 64]@[i % 64],
            decreases n - t,
        {
            let mut u: usize = 0;
            while u < 64
                invariant
                    u <= 64,
                    t < n == v@.len(),
                    c@.len() == 64 * t + u,
                    forall|i: int| 0 <= i < c@.len() ==> (#[trigger] c@[i]) == v@[i / 64]@[i % 64],
                decreases 64 - u,
            {
                proof {
                    let i = 64 * t + u;
                    assert(i / 64 == t && i % 64 == u);
                }
                c.push(v[t][u]);
                u += 1;
            }
            t += 1;
        }
        c
    }
}

type Matrix = VerticallyAlignedMatrix<PowerOfThreeRingElementWithLimbs>;

/// A matrix of four rows over the primes.
pub open spec fn shaped(
    matrix: VerticallyAlignedMatrix<PowerOfThreeRingElementWithLimbs>,
    primes: Seq<u16>,
) -> bool {
    &&& matrix.wf()
    &&& matrix.rows == 4
    &&& forall|k: int| 0 <= k < primes.len() ==> params::limb_prime(#[trigger] primes[k])
    &&& forall|k: int, j: int|
        0 <= k < 4 && 0 <= j < matrix.cols ==> (#[trigger] matrix.at(k, j)).limbs@.len()
            == primes.len()
}

/// `a` is the centred element whose four components are column `j` of a limb.
pub open spec fn is_residue(
    matrix: VerticallyAlignedMatrix<PowerOfThreeRingElementWithLimbs>,
    q: u16,
    limb: int,
    j: int,
    a: Seq<i64>,
) -> bool {
    &&& a.len() == 648
    &&& centred(a, q)
    &&& forall|k: int, s: int|
        0 <= k < 4 && 0 <= s < 162 ==> #[trigger] decompose::component(q, chunk::ints(a), k, s) % (
        q as int) == matrix.at(k, j).limbs@[limb].v@[s] as int % (q as int)
}

/// The chunks of `a` stand in the vectors of a limb at column `j`.
pub open spec fn stored(
    vectors: Seq<Vec<Poly>>,
    limb: int,
    r: int,
    j: int,
    a: Seq<i64>,
) -> bool {
    forall|m: int, b: int|
        0 <= m < 4 && 0 <= b < 3 ==> chunk::shorts(
            (#[trigger] vectors[4 * limb + m]@[b * r + j])@,
        ) == chunk::chunk(component(chunk::ints(a), m), b)
}

/// Column `j` of a limb is inverted and chunked.
pub open spec fn column_stored(
    vectors: Seq<Vec<Poly>>,
    matrix: VerticallyAlignedMatrix<PowerOfThreeRingElementWithLimbs>,
    q: u16,
    limb: int,
    j: int,
) -> bool {
    exists|a: Seq<i64>| #[trigger]
        is_residue(matrix, q, limb, j, a) && stored(vectors, limb, matrix.cols as int, j, a)
}

/// The element whose components are column `j` of a limb.
fn residue_of(matrix: &Matrix, primes: &[u16], limb: usize, j: usize) -> (a: [i64; 648])
    requires
        shaped(*matrix, primes@),
        limb < primes@.len(),
        j < matrix.cols,
    ensures
        is_residue(*matrix, primes@[limb as int], limb as int, j as int, a@),
{
    let q: u16 = primes[limb];
    let mut c: [[u32; 162]; 4] = [[0;162];4];
    let mut k: usize = 0;
    while k < 4
        invariant
            k <= 4,
            shaped(*matrix, primes@),
            limb < primes@.len(),
            j < matrix.cols,
            params::limb_prime(q),
            forall|i: int, s: int|
                0 <= i < k && 0 <= s < 162 ==> (#[trigger] c@[i]@[s]) == matrix.at(
                    i,
                    j as int,
                ).limbs@[limb as int].v@[s] as int % (q as int),
        decreases 4 - k,
    {
        let e = matrix.get(k, j);
        assert(matrix.at(k as int, j as int).limbs@.len() == primes@.len());
        c[k] = e.limbs[limb].normalized(q);
        k += 1;
    }
    assert forall|i: int| 0 <= i < 4 implies scalar::in_range((#[trigger] c@[i])@, q) by {
        assert forall|s: int| 0 <= s < 162 implies (#[trigger] c@[i]@[s]) < q by {
            lemma_mod_bound(
                matrix.at(i, j as int).limbs@[limb as int].v@[s] as int,
                q as int,
            );
        }
    }
    let y = recombine::recombine(q, &c);
    let a = coefficients(q, &y);
    assert forall|k: int, s: int| 0 <= k < 4 && 0 <= s < 162 implies #[trigger] decompose::component(
        q,
        chunk::ints(a@),
        k,
        s,
    ) % (q as int) == matrix.at(k, j as int).limbs@[limb as int].v@[s] as int % (q as int) by {
        decompose::transform_decomposes(q, y@, chunk::ints(a@), k, s);
        assert(c@[k]@[s] == decompose::decomposed(q, poly::ints(y@), k, s));
    }
    a
}

/// One vector: chunk `b` of component `m` of column `j` at `b * columns + j`, then zeros up to a
/// multiple of `pad`.
fn component_vector(parts: &Vec<[SElem; 4]>, m: usize, pad: usize) -> (v: Vec<Poly>)
    requires
        m < 4,
        pad > 0,
        3 * parts@.len() + pad <= usize::MAX,
        forall|j: int, l: int, i: int|
            0 <= j < parts@.len() && 0 <= l < 4 && 0 <= i < 162 ==> -0x8000 <= (
            #[trigger] parts@[j]@[l]@[i]) <= 0x7FFF,
    ensures
        3 * parts@.len() <= v@.len() < 3 * parts@.len() + pad,
        v@.len() % pad as nat == 0,
        forall|b: int, j: int|
            0 <= b < 3 && 0 <= j < parts@.len() ==> chunk::shorts(
                (#[trigger] v@[b * parts@.len() + j])@,
            ) == chunk::chunk(chunk::ints(parts@[j]@[m as int]@), b),
        forall|i: int, u: int|
            3 * parts@.len() <= i < v@.len() && 0 <= u < 64 ==> (#[trigger] v@[i]@[u]) == 0,
{
    let r: usize = parts.len();
    let mut v: Vec<Poly> = Vec::new();
    let mut b: usize = 0;
    while b < 3
        invariant
            b <= 3,
            m < 4,
            r == parts@.len(),
            v@.len() == b * r,
            forall|j: int, l: int, i: int|
                0 <= j < parts@.len() && 0 <= l < 4 && 0 <= i < 162 ==> -0x8000 <= (
                #[trigger] parts@[j]@[l]@[i]) <= 0x7FFF,
            forall|c: int, j: int|
                0 <= c < b && 0 <= j < r ==> chunk::shorts((#[trigger] v@[c * r + j])@)
                    == chunk::chunk(chunk::ints(parts@[j]@[m as int]@), c),
        decreases 3 - b,
    {
        let ghost before = v@;
        let mut j: usize = 0;
        while j < r
            invariant
                b < 3,
                m < 4,
                j <= r == parts@.len(),
                before.len() == b * r,
                v@.len() == b * r + j,
                forall|j: int, l: int, i: int|
                    0 <= j < parts@.len() && 0 <= l < 4 && 0 <= i < 162 ==> -0x8000 <= (
                    #[trigger] parts@[j]@[l]@[i]) <= 0x7FFF,
                forall|i: int| 0 <= i < before.len() ==> (#[trigger] v@[i]) == before[i],
                forall|i: int|
                    0 <= i < j ==> chunk::shorts((#[trigger] v@[b * r + i])@) == chunk::chunk(
                        chunk::ints(parts@[i]@[m as int]@),
                        b as int,
                    ),
            decreases r - j,
        {
            let x = &parts[j][m];
            assert forall|i: int| 0 <= i < 162 implies -0x8000 <= (#[trigger] x@[i]) <= 0x7FFF by {
                assert(parts@[j as int]@[m as int]@[i] == x@[i]);
            }
            let c = chunk::chunks(x);
            v.push(c[b]);
            j += 1;
        }
        assert forall|c: int, j: int| 0 <= c <= b && 0 <= j < r implies chunk::shorts(
            (#[trigger] v@[c * r + j])@,
        ) == chunk::chunk(chunk::ints(parts@[j]@[m as int]@), c) by {
            if c < b {
                assert(c * r + j < b * r && 0 <= c * r + j) by (nonlinear_arith)
                    requires
                        0 <= c < b,
                        0 <= j < r,
                ;
                assert(v@[c * r + j] == before[c * r + j]);
            }
        }
        assert(b * r + r == (b + 1) * r) by (nonlinear_arith);
        b += 1;
    }
    let ghost kept = v@;
    let n: usize = 3 * r;
    proof {
        lemma_fundamental_div_mod(n as int, pad as int);
        lemma_mod_bound(n as int, pad as int);
    }
    let extra: usize = (pad - n % pad) % pad;
    let mut i: usize = 0;
    while i < extra
        invariant
            i <= extra,
            kept.len() == n,
            v@.len() == n + i,
            forall|t: int| 0 <= t < n ==> (#[trigger] v@[t]) == kept[t],
            forall|t: int, u: int| n <= t < v@.len() && 0 <= u < 64 ==> (#[trigger] v@[t]@[u]) == 0,
        decreases extra - i,
    {
        v.push([0;64]);
        i += 1;
    }
    proof {
        let (x, p) = (n as int, pad as int);
        let k = x / p;
        if x % p == 0 {
            lemma_mod_self_0(p);
            assert(extra == 0);
        } else {
            lemma_small_mod((p - x % p) as nat, p as nat);
            assert(x + extra == p * (k + 1)) by (nonlinear_arith)
                requires
                    x == p * k + x % p,
                    extra == p - x % p,
            ;
            lemma_mod_multiples_basic(k + 1, p);
            assert(p * (k + 1) == (k + 1) * p) by (nonlinear_arith);
        }
        assert forall|b: int, j: int| 0 <= b < 3 && 0 <= j < r implies chunk::shorts(
            (#[trigger] v@[b * r + j])@,
        ) == chunk::chunk(chunk::ints(parts@[j]@[m as int]@), b) by {
            assert(0 <= b * r + j < 3 * r) by (nonlinear_arith)
                requires
                    0 <= b < 3,
                    0 <= j < r,
            ;
            assert(v@[b * r + j] == kept[b * r + j]);
        }
    }
    v
}

/// The components of every column of a limb.
fn limb_parts(matrix: &Matrix, primes: &[u16], limb: usize) -> (parts: Vec<[SElem; 4]>)
    requires
        shaped(*matrix, primes@),
        limb < primes@.len(),
    ensures
        parts@.len() == matrix.cols,
        forall|j: int|
            0 <= j < parts@.len() ==> is_residue_split(
                *matrix,
                primes@[limb as int],
                limb as int,
                j,
                (#[trigger] parts@[j])@,
            ),
        forall|j: int, l: int, i: int|
            0 <= j < parts@.len() && 0 <= l < 4 && 0 <= i < 162 ==> -0x8000 <= (
            #[trigger] parts@[j]@[l]@[i]) <= 0x7FFF,
{
    let q: u16 = primes[limb];
    let r: usize = matrix.cols();
    let mut parts: Vec<[SElem; 4]> = Vec::new();
    let mut j: usize = 0;
    while j < r
        invariant
            j <= r == matrix.cols,
            shaped(*matrix, primes@),
            limb < primes@.len(),
            q == primes@[limb as int],
            params::limb_prime(q),
            parts@.len() == j,
            forall|i: int|
                0 <= i < parts@.len() ==> is_residue_split(
                    *matrix,
                    q,
                    limb as int,
                    i,
                    (#[trigger] parts@[i])@,
                ),
            forall|j: int, l: int, i: int|
                0 <= j < parts@.len() && 0 <= l < 4 && 0 <= i < 162 ==> -0x8000 <= (
                #[trigger] parts@[j]@[l]@[i]) <= 0x7FFF,
        decreases r - j,
    {
        let a = residue_of(matrix, primes, limb, j);
        assert forall|k: int| 0 <= k < 648 implies (#[trigger] a@[k]) > i64::MIN by {}
        let e = split(&a);
        assert forall|l: int, i: int| 0 <= l < 4 && 0 <= i < 162 implies -0x8000 <= (
        #[trigger] e@[l]@[i]) <= 0x7FFF by {
            assert(chunk::ints(e@[l]@)[i] == component(chunk::ints(a@), l)[i]);
            assert(-((q - 1) / 2) <= a@[4 * i + l] <= (q - 1) / 2);
        }
        assert(is_residue_split(*matrix, q, limb as int, j as int, e@));
        parts.push(e);
        j += 1;
    }
    parts
}

/// `e` are the components of column `j` of a limb, inverted.
pub open spec fn is_residue_split(
    matrix: VerticallyAlignedMatrix<PowerOfThreeRingElementWithLimbs>,
    q: u16,
    limb: int,
    j: int,
    e: Seq<SElem>,
) -> bool {
    exists|a: Seq<i64>| #[trigger]
        is_residue(matrix, q, limb, j, a) && is_split(e, chunk::ints(a))
}

/// `vectors` hold the residues of every limb of `matrix` in coefficient form, each vector padded with
/// zeros to a multiple of `pad`.
pub open spec fn are_stored(
    vectors: Seq<Vec<Poly>>,
    matrix: VerticallyAlignedMatrix<PowerOfThreeRingElementWithLimbs>,
    primes: Seq<u16>,
    pad: nat,
) -> bool {
    &&& vectors.len() == 4 * primes.len()
    &&& forall|i: int|
        0 <= i < vectors.len() ==> 3 * matrix.cols <= (#[trigger] vectors[i])@.len() < 3
            * matrix.cols + pad && vectors[i]@.len() % pad == 0
    &&& forall|limb: int, j: int|
        0 <= limb < primes.len() && 0 <= j < matrix.cols ==> #[trigger] column_stored(
            vectors,
            matrix,
            primes[limb],
            limb,
            j,
        )
    &&& forall|i: int, t: int, u: int|
        0 <= i < vectors.len() && 3 * matrix.cols <= t < vectors[i]@.len() && 0 <= u < 64 ==> (
        #[trigger] vectors[i]@[t]@[u]) == 0
}

/// The residue of a column of a limb is determined by the matrix.
pub proof fn residue_unique(
    matrix: VerticallyAlignedMatrix<PowerOfThreeRingElementWithLimbs>,
    q: u16,
    limb: int,
    j: int,
    a: Seq<i64>,
    b: Seq<i64>,
)
    requires
        params::limb_prime(q),
        is_residue(matrix, q, limb, j, a),
        is_residue(matrix, q, limb, j, b),
    ensures
        a == b,
{
    let (x, y) = (chunk::ints(a), chunk::ints(b));
    assert forall|k: int, s: int| 0 <= k < 4 && 0 <= s < 162 implies same(
        #[trigger] decompose::component(q, x, k, s),
        decompose::component(q, y, k, s),
        q as int,
    ) by {}
    recombine::components_determine(q, x, y);
    lemma_centred_same(q, a, b);
}

/// The residues of a matrix are the elements it was made of: where column `j` of a limb holds the
/// components of the transform `y` of a centred element `a`, the chunks of the `S`-components of `a`
/// are what is stored for it.
pub proof fn residues_of_transform(
    vectors: Seq<Vec<Poly>>,
    matrix: VerticallyAlignedMatrix<PowerOfThreeRingElementWithLimbs>,
    primes: Seq<u16>,
    pad: nat,
    limb: int,
    j: int,
    a: Seq<i64>,
    y: Seq<u32>,
)
    requires
        shaped(matrix, primes),
        are_stored(vectors, matrix, primes, pad),
        0 <= limb < primes.len(),
        0 <= j < matrix.cols,
        a.len() == 648,
        centred(a, primes[limb]),
        y.len() == 648,
        decompose::is_transform(primes[limb], y, chunk::ints(a)),
        forall|k: int, s: int|
            0 <= k < 4 && 0 <= s < 162 ==> (#[trigger] matrix.at(k, j).limbs@[limb].v@[s])
                == uniform::centre(
                decompose::decomposed(primes[limb], poly::ints(y), k, s),
                primes[limb] as int,
            ),
    ensures
        stored(vectors, limb, matrix.cols as int, j, a),
{
    let q = primes[limb];
    let n = q as int;
    assert(params::limb_prime(primes[limb]));
    params::lemma_limb(q);
    assert forall|k: int, s: int| 0 <= k < 4 && 0 <= s < 162 implies
        #[trigger] decompose::component(q, chunk::ints(a), k, s) % n == matrix.at(
        k,
        j,
    ).limbs@[limb].v@[s] as int % n by {
        let d = decompose::decomposed(q, poly::ints(y), k, s);
        decompose::transform_decomposes(q, y, chunk::ints(a), k, s);
        assert(matrix.at(k, j).limbs@[limb].v@[s] == uniform::centre(d, n));
        lemma_mod_bound(decompose::component(q, chunk::ints(a), k, s), n);
        fold::lemma_centre(d, n);
        lemma_small_mod(d as nat, n as nat);
    }
    assert(is_residue(matrix, q, limb, j, a));
    assert(column_stored(vectors, matrix, primes[limb], limb, j));
    let b = choose|b: Seq<i64>| #[trigger]
        is_residue(matrix, q, limb, j, b) && stored(vectors, limb, matrix.cols as int, j, b);
    residue_unique(matrix, q, limb, j, a, b);
}

/// The residues of every limb of one commitment, in coefficient form, each vector padded with zeros
/// to a multiple of `pad`.
pub fn residues(
    matrix: &VerticallyAlignedMatrix<PowerOfThreeRingElementWithLimbs>,
    primes: &[u16],
    pad: usize,
) -> (res: Residues)
    requires
        shaped(*matrix, primes@),
        pad > 0,
        3 * matrix.cols + pad <= usize::MAX,
    ensures
        are_stored(res.vectors@, *matrix, primes@, pad as nat),
{
    let n: usize = primes.len();
    let ghost r = matrix.cols as int;
    let mut vectors: Vec<Vec<Poly>> = Vec::new();
    let mut limb: usize = 0;
    while limb < n
        invariant
            limb <= n == primes@.len(),
            shaped(*matrix, primes@),
            pad > 0,
            r == matrix.cols,
            3 * matrix.cols + pad <= usize::MAX,
            vectors@.len() == 4 * limb,
            forall|i: int|
                0 <= i < vectors@.len() ==> 3 * r <= (#[trigger] vectors@[i])@.len() < 3 * r + pad
                    && vectors@[i]@.len() % pad as nat == 0,
            forall|k: int, j: int|
                0 <= k < limb && 0 <= j < r ==> #[trigger] column_stored(
                    vectors@,
                    *matrix,
                    primes@[k],
                    k,
                    j,
                ),
            forall|i: int, t: int, u: int|
                0 <= i < vectors@.len() && 3 * r <= t < vectors@[i]@.len() && 0 <= u < 64 ==> (
                #[trigger] vectors@[i]@[t]@[u]) == 0,
        decreases n - limb,
    {
        let parts = limb_parts(matrix, primes, limb);
        let ghost before = vectors@;
        let v0 = component_vector(&parts, 0, pad);
        let v1 = component_vector(&parts, 1, pad);
        let v2 = component_vector(&parts, 2, pad);
        let v3 = component_vector(&parts, 3, pad);
        let ghost new = seq![v0, v1, v2, v3];
        vectors.push(v0);
        vectors.push(v1);
        vectors.push(v2);
        vectors.push(v3);
        proof {
            assert(vectors@ =~= before + new);
            assert forall|k: int, j: int| 0 <= k <= limb && 0 <= j < r implies #[trigger] column_stored(
                vectors@,
                *matrix,
                primes@[k],
                k,
                j,
            ) by {
                if k < limb {
                    assert(column_stored(before, *matrix, primes@[k], k, j));
                    let a = choose|a: Seq<i64>| #[trigger]
                        is_residue(*matrix, primes@[k], k, j, a) && stored(before, k, r, j, a);
                    assert forall|m: int, b: int| 0 <= m < 4 && 0 <= b < 3 implies chunk::shorts(
                        (#[trigger] vectors@[4 * k + m]@[b * r + j])@,
                    ) == chunk::chunk(component(chunk::ints(a), m), b) by {
                        assert(vectors@[4 * k + m] == before[4 * k + m]);
                        assert(before[4 * k + m]@[b * r + j] == vectors@[4 * k + m]@[b * r + j]);
                    }
                    assert(stored(vectors@, k, r, j, a));
                } else {
                    assert(is_residue_split(*matrix, primes@[k], k, j, parts@[j]@));
                    let a = choose|a: Seq<i64>| #[trigger]
                        is_residue(*matrix, primes@[k], k, j, a) && is_split(
                            parts@[j]@,
                            chunk::ints(a),
                        );
                    assert forall|m: int, b: int| 0 <= m < 4 && 0 <= b < 3 implies chunk::shorts(
                        (#[trigger] vectors@[4 * k + m]@[b * r + j])@,
                    ) == chunk::chunk(component(chunk::ints(a), m), b) by {
                        assert(vectors@[4 * k + m] == new[m]);
                        assert(chunk::ints(parts@[j]@[m]@) == component(chunk::ints(a), m));
                        assert(new[m]@[b * parts@.len() + j] == vectors@[4 * k + m]@[b * r + j]);
                    }
                    assert(stored(vectors@, k, r, j, a));
                }
            }
            assert forall|i: int, t: int, u: int|
                0 <= i < vectors@.len() && 3 * r <= t < vectors@[i]@.len() && 0 <= u < 64 implies (
            #[trigger] vectors@[i]@[t]@[u]) == 0 by {
                if i < before.len() {
                    assert(vectors@[i] == before[i]);
                    assert(before[i]@[t]@[u] == 0);
                } else {
                    let m = i - before.len();
                    assert(vectors@[i] == new[m]);
                    assert(new[m]@[t]@[u] == 0);
                }
            }
        }
        limb += 1;
    }
    Residues { vectors }
}

/// The key rows are the matrix: the element that the components of row `i` join to has the transform that
/// the key holds, in every row modulo the prime of the limb.
pub proof fn key_rows_are_key(key: CommitmentKey, limb: int, i: int, e: Seq<SElem>, r: int)
    requires
        key.wf(),
        0 <= limb < key.a@.len(),
        0 <= i < key.len_f162 / 4,
        is_key_row(key, limb, i, e),
        0 <= r < 648,
    ensures
        same(
            ajtai::hat(
                key.prime_at(limb),
                joined(Seq::new(4, |l: int| chunk::ints(e[l]@))),
                r,
            ),
            ajtai::lanes(key.a@[limb]@)[i][r],
            key.prime_at(limb) as int,
        ),
{
    let q = key.prime_at(limb);
    assert(key.prime_list()[limb] == q);
    params::lemma_limb(q);
    let a = choose|a: Seq<i64>|
        {
            &&& a.len() == 648
            &&& centred(a, q)
            &&& #[trigger] decompose::is_transform(q, key_row(key, limb, i), chunk::ints(a))
            &&& is_split(e, chunk::ints(a))
        };
    joined_components(chunk::ints(a));
    assert(Seq::new(4, |l: int| chunk::ints(e[l]@)) =~= Seq::new(
        4,
        |l: int| component(chunk::ints(a), l),
    ));
    let n = q as int;
    let x = key.a@[limb]@[i / 32].v@[r]@[i % 32] as int;
    modular::lemma_reduced(x, n);
    let h = ajtai::hat(q, chunk::ints(a), r);
    modular::lemma_reduced(h, n);
    assert(key_row(key, limb, i)[r] == key_slot(key, limb, i, r));
    assert(key_row(key, limb, i)[r] == h % n);
    assert(ajtai::lanes(key.a@[limb]@)[i][r] == x);
}

} // verus!
