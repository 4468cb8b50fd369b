//! The Ajtai commitment key and what a commitment leaves behind for the fold.
//!
//! * [`CommitmentKey`] holds the Ajtai matrix `A` for the base modulus and for each other modulus
//!   the key was built with, in the transform domain, centred.
//! * [`CommitmentKey::commit_into_aux`] maps a witness, read as binary ring elements of
//!   `R_648 = Z_q[X]/(X^648 - X^324 + 1)` four field elements at a time, to a matrix of `R_162`
//!   elements, and keeps the transform the fold consumes.
use crate::ajtai;
use crate::bd::garner;
use crate::fields::scalar::F162;
use crate::params;
use crate::ntt::poly;
use crate::ring;
use crate::ring::decompose;
use crate::ring::{
    Batch32, Modulus, PowerOfThreeRingElement, PowerOfThreeRingElementWithLimbs, Representation,
    VerticallyAlignedMatrix,
};
use crate::rng;
use crate::rng::Rng;
use crate::scalar;
use crate::wire::uniform;
use vstd::arithmetic::power2::*;
use vstd::prelude::*;

verus! {

/// Field elements per batch of the key: 128 are 32 ring elements.
pub const F162_PER_BATCH: usize = 128;

/// Bytes of one batch: 648 rows of 32 words of two bytes.
pub const BATCH_BYTES: usize = 41472;

/// The Ajtai matrix `A`: one row of uniform ring elements, in the transform domain, centred, for
/// every limb of the key. Limb 0 is the base modulus; limb `1 + i` is the `i`-th additional one.
pub struct CommitmentKey {
    pub a: Vec<Vec<Batch32>>,
    pub base: Modulus,
    pub additional: Vec<Modulus>,
    pub len_f162: usize,
}

/// The seed of the generator of limb `k`.
pub open spec fn limb_seed(seed: u64, k: int) -> u64 {
    seed ^ 0x9E37_79B9u64.wrapping_mul((k + 1) as u64)
}

/// Row `j` of element `32 b + p` of limb `k` of the key of a seed.
pub open spec fn key_entry(seed: u64, k: int, q: u16, b: int, j: int, p: int) -> int {
    rng::draw(limb_seed(seed, k), q as u32, (20736 * b + (32 * j + p)) as nat) - (q - 1) / 2
}

/// The binary ring element of the four field elements at `o`: coefficient `4 m + k` is coefficient
/// `m` of the `k`-th.
pub open spec fn ring_element(w: Seq<F162>, o: int) -> Seq<int> {
    Seq::new(
        648,
        |x: int|
            if w[o + x % 4]@[x / 4] {
                1
            } else {
                0
            },
    )
}

/// Column `j` of a witness split into columns of `len` field elements.
pub open spec fn column(w: Seq<F162>, len: nat, j: int) -> Seq<Seq<int>> {
    Seq::new(len / 4, |i: int| ring_element(w, j * len + 4 * i))
}

/// The commitment of a column modulo `q`: the 648 rows of `sum_i A_i w_i`, in `[0, q)`.
pub open spec fn is_commitment(q: u16, a: Seq<Batch32>, w: Seq<Seq<int>>, y: Seq<u32>) -> bool {
    forall|r: int|
        0 <= r < 648 ==> (#[trigger] y[r]) == ajtai::dot(
            q,
            ajtai::lanes(a),
            ajtai::all_hats(q, w),
            r,
            w.len(),
        ) % (q as int)
}

/// The four components of the rows `y` modulo `q`, centred.
pub open spec fn is_centred(q: u16, y: Seq<u32>, k: int, v: Seq<i16>) -> bool {
    forall|s: int|
        0 <= s < 162 ==> (#[trigger] v[s]) == uniform::centre(
            decompose::decomposed(q, poly::ints(y), k, s),
            q as int,
        )
}

/// Component `t` of the rows `raw[k]` of every limb `k`.
pub open spec fn is_component(
    key: CommitmentKey,
    raw: Seq<[u32; 648]>,
    e: PowerOfThreeRingElementWithLimbs,
    t: int,
) -> bool {
    &&& e.limbs@.len() == key.a@.len()
    &&& forall|k: int|
        0 <= k < key.a@.len() ==> is_centred(
            key.prime_at(k),
            raw[k]@,
            t,
            (#[trigger] e.limbs@[k]).v@,
        )
}

/// What a key expanded from `seed` holds.
pub open spec fn expands(key: CommitmentKey, seed: u64) -> bool {
    forall|k: int, b: int, j: int, p: int|
        0 <= k < key.a@.len() && 0 <= b < key.len_f162 / 128 && 0 <= j < 648 && 0 <= p < 32 ==> (
        #[trigger] key.a@[k]@[b].v@[j]@[p]) == key_entry(seed, k, key.prime_at(k), b, j, p)
}

/// A key for fewer elements is a prefix of a longer one from the same seed and moduli.
pub proof fn shorter_is_prefix(short: CommitmentKey, long: CommitmentKey, seed: u64)
    requires
        short.wf(),
        long.wf(),
        short.base == long.base,
        short.additional@ == long.additional@,
        short.len_f162 <= long.len_f162,
        expands(short, seed),
        expands(long, seed),
    ensures
        short.a@.len() == long.a@.len(),
        forall|k: int|
            0 <= k < short.a@.len() ==> (#[trigger] short.a@[k])@ == long.a@[k]@.take(
                (short.len_f162 / 128) as int,
            ),
{
    assert forall|k: int| 0 <= k < short.a@.len() implies (#[trigger] short.a@[k])@
        == long.a@[k]@.take((short.len_f162 / 128) as int) by {
        let n = (short.len_f162 / 128) as int;
        assert(short.prime_at(k) == long.prime_at(k));
        assert forall|b: int| 0 <= b < n implies short.a@[k]@[b] == long.a@[k]@[b] by {
            let (x, y) = (short.a@[k]@[b], long.a@[k]@[b]);
            assert forall|j: int| 0 <= j < 648 implies x.v@[j] == y.v@[j] by {
                assert forall|p: int| 0 <= p < 32 implies x.v@[j]@[p] == y.v@[j]@[p] by {
                    assert(short.a@[k]@[b].v@[j]@[p] == key_entry(
                        seed,
                        k,
                        short.prime_at(k),
                        b,
                        j,
                        p,
                    ));
                    assert(long.a@[k]@[b].v@[j]@[p] == key_entry(
                        seed,
                        k,
                        long.prime_at(k),
                        b,
                        j,
                        p,
                    ));
                }
                assert(x.v@[j] =~= y.v@[j]);
            }
            assert(x.v =~= y.v);
        }
        assert(short.a@[k]@ =~= long.a@[k]@.take(n));
    }
}

pub proof fn lemma_prime(m: Modulus)
    ensures
        params::limb_prime(ring::prime_of(m)),
        2917 <= ring::prime_of(m) <= 19441,
{
}

proof fn lemma_distinct(a: Modulus, b: Modulus)
    requires
        a != b,
    ensures
        ring::prime_of(a) != ring::prime_of(b),
{
}

/// Distinct moduli are few.
proof fn lemma_few(base: Modulus, additional: Seq<Modulus>)
    requires
        forall|i: int| 0 <= i < additional.len() ==> (#[trigger] additional[i]) != base,
        forall|i: int, j: int|
            0 <= i < j < additional.len() ==> (#[trigger] additional[i])
                != #[trigger] additional[j],
    ensures
        additional.len() <= 6,
{
    let e = seq![base] + additional;
    let all = set![
        Modulus::Q2917_Q_S,
        Modulus::Q3889_FS_S,
        Modulus::Q4861_Q_S,
        Modulus::Q9721_FS_S,
        Modulus::Q12637_Q_S,
        Modulus::Q17497_FS_L,
        Modulus::Q19441_FS_L,
    ];
    assert forall|i: int, j: int| 0 <= i < e.len() && 0 <= j < e.len() && i != j implies e[i]
        != e[j] by {
        if i > 0 && j > 0 {
            if i < j {
                assert(additional[i - 1] != additional[j - 1]);
            } else {
                assert(additional[j - 1] != additional[i - 1]);
            }
        } else if i > 0 {
            assert(e[i] == additional[i - 1]);
        } else {
            assert(e[j] == additional[j - 1]);
        }
    }
    e.unique_seq_to_set();
    assert(e.to_set().subset_of(all));
    vstd::set_lib::lemma_len_subset(e.to_set(), all);
    assert(all.len() <= 7);
}

/// One batch of uniform centred rows.
fn random_batch(rng: &mut Rng, q: u16) -> (b: Batch32)
    requires
        2 <= q < 0x8000,
    ensures
        final(rng).state == rng::state_after(old(rng).state, 20736),
        b.representation == Representation::Ntt,
        forall|j: int, p: int|
            0 <= j < 648 && 0 <= p < 32 ==> (#[trigger] b.v@[j]@[p]) == rng::draw(
                old(rng).state,
                q as u32,
                (32 * j + p) as nat,
            ) - (q - 1) / 2,
        forall|j: int, p: int|
            0 <= j < 648 && 0 <= p < 32 ==> -((q - 1) / 2) <= (#[trigger] b.v@[j]@[p]) <= q / 2,
{
    let half: i16 = ((q - 1) / 2) as i16;
    let mut b = Batch32::zero(Representation::Ntt);
    let ghost s = rng.state;
    proof {
        rng::lemma_state_after(s, 0, 0);
    }
    let mut j: usize = 0;
    while j < 648
        invariant
            j <= 648,
            2 <= q < 0x8000,
            half == (q - 1) / 2,
            b.representation == Representation::Ntt,
            rng.state == rng::state_after(s, (32 * j) as nat),
            forall|i: int, p: int|
                0 <= i < j && 0 <= p < 32 ==> (#[trigger] b.v@[i]@[p]) == rng::draw(
                    s,
                    q as u32,
                    (32 * i + p) as nat,
                ) - (q - 1) / 2,
            forall|i: int, p: int|
                0 <= i < j && 0 <= p < 32 ==> -((q - 1) / 2) <= (#[trigger] b.v@[i]@[p]) <= q / 2,
        decreases 648 - j,
    {
        let mut row: [i16; 32] = [0;32];
        let mut p: usize = 0;
        while p < 32
            invariant
                j < 648,
                p <= 32,
                2 <= q < 0x8000,
                half == (q - 1) / 2,
                rng.state == rng::state_after(s, (32 * j + p) as nat),
                forall|i: int|
                    0 <= i < p ==> (#[trigger] row@[i]) == rng::draw(
                        s,
                        q as u32,
                        (32 * j + i) as nat,
                    ) - (q - 1) / 2,
                forall|i: int| 0 <= i < p ==> -((q - 1) / 2) <= (#[trigger] row@[i]) <= q / 2,
            decreases 32 - p,
        {
            let ghost t = (32 * j + p) as nat;
            proof {
                rng::lemma_state_after(s, t, 1);
            }
            let x: u32 = rng.below(q as u32);
            row[p] = (x as i32 - half as i32) as i16;
            p += 1;
        }
        b.v[j] = row;
        j += 1;
    }
    b
}

/// One limb of the key.
fn random_row(seed: u64, k: usize, q: u16, n: usize) -> (a: Vec<Batch32>)
    requires
        2 <= q < 0x8000,
        k < 0xFFFF,
    ensures
        a@.len() == n,
        forall|b: int, j: int, p: int|
            0 <= b < n && 0 <= j < 648 && 0 <= p < 32 ==> (#[trigger] a@[b].v@[j]@[p])
                == key_entry(seed, k as int, q, b, j, p),
        forall|b: int| 0 <= b < n ==> (#[trigger] a@[b]).representation == Representation::Ntt,
        forall|b: int, j: int, p: int|
            0 <= b < n && 0 <= j < 648 && 0 <= p < 32 ==> -((q - 1) / 2) <= (
            #[trigger] a@[b].v@[j]@[p]) <= q / 2,
{
    let mut rng = Rng::new(seed ^ 0x9E37_79B9u64.wrapping_mul(k as u64 + 1));
    let ghost s = rng.state;
    let mut a: Vec<Batch32> = Vec::new();
    let mut b: usize = 0;
    proof {
        rng::lemma_state_after(s, 0, 0);
    }
    while b < n
        invariant
            b <= n,
            a@.len() == b,
            2 <= q < 0x8000,
            s == limb_seed(seed, k as int),
            rng.state == rng::state_after(s, (20736 * b) as nat),
            forall|i: int, j: int, p: int|
                0 <= i < b && 0 <= j < 648 && 0 <= p < 32 ==> (#[trigger] a@[i].v@[j]@[p])
                    == key_entry(seed, k as int, q, i, j, p),
            forall|i: int| 0 <= i < b ==> (#[trigger] a@[i]).representation == Representation::Ntt,
            forall|i: int, j: int, p: int|
                0 <= i < b && 0 <= j < 648 && 0 <= p < 32 ==> -((q - 1) / 2) <= (
                #[trigger] a@[i].v@[j]@[p]) <= q / 2,
        decreases n - b,
    {
        let ghost before = rng.state;
        let x = random_batch(&mut rng, q);
        proof {
            let t = (20736 * b) as nat;
            rng::lemma_state_after(s, t, 20736);
            assert forall|j: int, p: int| 0 <= j < 648 && 0 <= p < 32 implies (#[trigger] x.v@[j]@[p])
                == key_entry(seed, k as int, q, b as int, j, p) by {
                rng::lemma_state_after(s, t, (32 * j + p + 1) as nat);
            }
        }
        a.push(x);
        b += 1;
    }
    a
}

impl CommitmentKey {
    /// The prime of limb `k`.
    pub open spec fn prime_at(&self, k: int) -> u16 {
        if k == 0 {
            ring::prime_of(self.base)
        } else {
            ring::prime_of(self.additional@[k - 1])
        }
    }

    /// The primes, the base one first.
    pub open spec fn prime_list(&self) -> Seq<u16> {
        Seq::new(1 + self.additional@.len(), |k: int| self.prime_at(k))
    }

    /// The moduli are distinct, the length is whole batches and every limb has as many, of
    /// centred values in the transform domain.
    pub open spec fn wf(&self) -> bool {
        &&& garner::moduli(self.prime_list())
        &&& self.len_f162 > 0
        &&& self.len_f162 % 128 == 0
        &&& self.a@.len() == 1 + self.additional@.len()
        &&& forall|k: int| 0 <= k < self.a@.len() ==> (#[trigger] self.a@[k])@.len() == self.len_f162 / 128
        &&& forall|k: int, b: int|
            0 <= k < self.a@.len() && 0 <= b < self.len_f162 / 128 ==> (
            #[trigger] self.a@[k]@[b]).representation == Representation::Ntt
        &&& forall|k: int, b: int, j: int, p: int|
            0 <= k < self.a@.len() && 0 <= b < self.len_f162 / 128 && 0 <= j < 648 && 0 <= p < 32
                ==> -((self.prime_at(k) - 1) / 2) <= (#[trigger] self.a@[k]@[b].v@[j]@[p])
                <= self.prime_at(k) / 2
    }

    /// A uniformly random key for `len_f162` witness elements over `base` and `additional`,
    /// deterministically from `seed`. `len_f162` is a multiple of 128, 32 ring elements.
    pub fn random(len_f162: usize, seed: u64, base: Modulus, additional: &[Modulus]) -> (key: Self)
        requires
            len_f162 > 0,
            len_f162 % 128 == 0,
            forall|i: int| 0 <= i < additional@.len() ==> (#[trigger] additional@[i]) != base,
            forall|i: int, j: int|
                0 <= i < j < additional@.len() ==> (#[trigger] additional@[i])
                    != #[trigger] additional@[j],
        ensures
            key.wf(),
            key.base == base,
            key.additional@ == additional@,
            key.len_f162 == len_f162,
            expands(key, seed),
    {
        let nb: usize = len_f162 / 128;
        proof {
            lemma_prime(base);
        }
        proof {
            lemma_few(base, additional@);
        }
        let first = random_row(seed, 0, base.prime(), nb);
        let mut key = CommitmentKey { a: vec![first], base, additional: Vec::new(), len_f162 };
        let mut i: usize = 0;
        let n: usize = additional.len();
        while i < n
            invariant
                i <= n == additional@.len(),
                n < 0xFFFF,
                nb == len_f162 / 128,
                key.base == base,
                key.len_f162 == len_f162,
                key.additional@ =~= additional@.take(i as int),
                key.a@.len() == 1 + i,
                forall|k: int| 0 <= k <= i ==> (#[trigger] key.a@[k])@.len() == nb,
                forall|k: int, b: int|
                    0 <= k <= i && 0 <= b < nb ==> (#[trigger] key.a@[k]@[b]).representation
                        == Representation::Ntt,
                forall|k: int, b: int, j: int, p: int|
                    0 <= k <= i && 0 <= b < nb && 0 <= j < 648 && 0 <= p < 32 ==> (
                    #[trigger] key.a@[k]@[b].v@[j]@[p]) == key_entry(
                        seed,
                        k,
                        key.prime_at(k),
                        b,
                        j,
                        p,
                    ),
                forall|k: int, b: int, j: int, p: int|
                    0 <= k <= i && 0 <= b < nb && 0 <= j < 648 && 0 <= p < 32 ==> -((key.prime_at(
                        k,
                    ) - 1) / 2) <= (#[trigger] key.a@[k]@[b].v@[j]@[p]) <= key.prime_at(k) / 2,
            decreases n - i,
        {
            let m = additional[i];
            proof {
                lemma_prime(m);
            }
            let ghost before = key;
            let row = random_row(seed, i + 1, m.prime(), nb);
            key.additional.push(m);
            key.a.push(row);
            i += 1;
            assert forall|k: int| 0 <= k < i implies #[trigger] key.prime_at(k) == before.prime_at(
                k,
            ) by {}
        }
        assert(additional@.take(i as int) =~= additional@);
        proof {
            lemma_few(base, additional@);
            let p = key.prime_list();
            assert forall|k: int| 0 <= k < p.len() implies params::limb_prime(#[trigger] p[k]) by {
                if k == 0 {
                    lemma_prime(base);
                } else {
                    lemma_prime(additional@[k - 1]);
                }
            }
            assert forall|i: int, k: int| 0 <= i < k < p.len() implies (#[trigger] p[i]) != (
            #[trigger] p[k]) by {
                lemma_distinct(
                    if i == 0 {
                        base
                    } else {
                        additional@[i - 1]
                    },
                    additional@[k - 1],
                );
            }
        }
        key
    }

    /// Length of the key in field elements: the size of one chunk of witness it commits to.
    pub fn len_f162(&self) -> (n: usize)
        ensures
            n == self.len_f162,
    {
        self.len_f162
    }

    /// Length of the key in ring elements.
    pub fn len_ring(&self) -> (n: usize)
        ensures
            n == self.len_f162 / 4,
    {
        self.len_f162 / 4
    }

    /// Number of limbs.
    pub fn limbs(&self) -> (n: usize)
        ensures
            n == self.a@.len(),
    {
        self.a.len()
    }

    /// The additional limbs, in the order the commitment reports them.
    pub fn additional(&self) -> (r: &[Modulus])
        ensures
            r@ == self.additional@,
    {
        self.additional.as_slice()
    }

    /// The base limb, whose transform a commitment keeps and whose domain the fold runs in.
    pub fn base(&self) -> (m: Modulus)
        ensures
            m == self.base,
    {
        self.base
    }

    /// The limb at index `k`.
    pub fn limb(&self, k: usize) -> (m: Modulus)
        requires
            k <= self.additional@.len(),
        ensures
            k == 0 ==> m == self.base,
            k > 0 ==> m == self.additional@[k - 1],
            ring::prime_of(m) == self.prime_at(k as int),
    {
        if k == 0 {
            self.base
        } else {
            self.additional[k - 1]
        }
    }

    /// The prime of limb `k`.
    pub fn prime(&self, k: usize) -> (q: u16)
        requires
            k <= self.additional@.len(),
        ensures
            q == self.prime_at(k as int),
            params::limb_prime(q),
            2917 <= q <= 19441,
    {
        let m = self.limb(k);
        proof {
            lemma_prime(m);
        }
        m.prime()
    }

    /// Does limb `k` use the quadratic-slot tree?
    pub fn is_quadratic(&self, k: usize) -> (r: bool)
        requires
            k <= self.additional@.len(),
        ensures
            r == ring::quadratic(self.prime_at(k as int)),
    {
        self.limb(k).is_quadratic()
    }

    /// The matrix for limb `k`: `row(k)[b].v[j][p]` is row `j` of `A_{32 b + p}`, centred.
    pub fn row(&self, k: usize) -> (r: &[Batch32])
        requires
            k < self.a@.len(),
        ensures
            r@ == self.a@[k as int]@,
    {
        self.a[k].as_slice()
    }

    /// Bytes of `A` held, over all limbs.
    pub fn bytes(&self) -> (n: usize)
        requires
            self.a@.len() * (self.len_f162 / 128) * 41472 <= usize::MAX,
        ensures
            n == self.a@.len() * (self.len_f162 / 128) * 41472,
    {
        let (l, b): (usize, usize) = (self.a.len(), self.len_f162 / 128);
        proof {
            assert(0 <= l * b <= l * b * 41472) by (nonlinear_arith)
                requires
                    0 <= l,
                    0 <= b,
            ;
        }
        l * b * BATCH_BYTES
    }
}

// ---------------------------------------------------------------------------------------------
// the auxiliary data
// ---------------------------------------------------------------------------------------------

/// What a commitment leaves behind that the fold needs: the witness's transform modulo the base
/// limb, and the raw 648-row commitments of the chunks for every limb of the key.
#[derive(Clone)]
pub struct AuxData {
    /// `batches[b].v[u][p]` is row `u` of ring element `32 b + p`.
    pub batches: Vec<Batch32>,
    /// `raw[k][j]` is the commitment of chunk `j` for limb `k`.
    pub raw: Vec<Vec<[u32; 648]>>,
    pub chunks: usize,
}

impl AuxData {
    /// The buffer has whole batches for every chunk.
    pub open spec fn wf(&self) -> bool {
        self.chunks > 0 && self.batches@.len() % self.chunks as nat == 0
    }

    /// The buffer is for `r` chunks of the key's length.
    pub open spec fn matches(&self, key: &CommitmentKey, r: nat) -> bool {
        &&& self.chunks == r
        &&& self.batches@.len() == r * (key.len_f162 / 128)
        &&& self.raw@.len() == key.a@.len()
    }

    /// A buffer for `r` chunks of `len_ring` ring elements each over `limbs` limbs, to be filled by
    /// [`CommitmentKey::commit_into_aux`].
    pub fn new(len_ring: usize, r: usize, limbs: usize) -> (aux: AuxData)
        requires
            r > 0,
            len_ring > 0,
            len_ring % 32 == 0,
            limbs > 0,
            r * len_ring <= usize::MAX,
        ensures
            aux.wf(),
            aux.chunks == r,
            aux.batches@.len() == r * (len_ring / 32),
            aux.raw@.len() == limbs,
            forall|k: int| 0 <= k < limbs ==> (#[trigger] aux.raw@[k])@.len() == 0,
    {
        let m: usize = len_ring / 32;
        proof {
            assert(0 <= r * m <= r * len_ring) by (nonlinear_arith)
                requires
                    0 <= m <= len_ring,
                    0 <= r,
            ;
            assert((r * m) % (r as int) == 0) by {
                vstd::arithmetic::div_mod::lemma_mod_multiples_basic(m as int, r as int);
                assert(r * m == m * r) by (nonlinear_arith);
            }
        }
        let n: usize = r * m;
        let mut batches: Vec<Batch32> = Vec::new();
        let mut i: usize = 0;
        while i < n
            invariant
                i <= n,
                batches@.len() == i,
            decreases n - i,
        {
            batches.push(Batch32::zero(Representation::Ntt));
            i += 1;
        }
        let mut raw: Vec<Vec<[u32; 648]>> = Vec::new();
        let mut k: usize = 0;
        while k < limbs
            invariant
                k <= limbs,
                raw@.len() == k,
                forall|i: int| 0 <= i < k ==> (#[trigger] raw@[i])@.len() == 0,
            decreases limbs - k,
        {
            raw.push(Vec::new());
            k += 1;
        }
        AuxData { batches, raw, chunks: r }
    }

    /// Number of chunks the witness was split into.
    pub fn chunks(&self) -> (n: usize)
        ensures
            n == self.chunks,
    {
        self.chunks
    }

    /// Number of limbs the commitments were taken over.
    pub fn limbs(&self) -> (n: usize)
        ensures
            n == self.raw@.len(),
    {
        self.raw.len()
    }

    /// Bytes of witness transform held.
    pub fn bytes(&self) -> (n: usize)
        requires
            self.batches@.len() * 41472 <= usize::MAX,
        ensures
            n == self.batches@.len() * 41472,
    {
        self.batches.len() * BATCH_BYTES
    }

    /// Batches per chunk.
    pub fn batches_per_chunk(&self) -> (n: usize)
        requires
            self.chunks > 0,
        ensures
            n == self.batches@.len() / self.chunks as nat,
    {
        self.batches.len() / self.chunks
    }

    /// Batch `i` of the kept transform; chunk `j` is batches `j * batches_per_chunk()` onward.
    pub fn batch(&self, i: usize) -> (b: &Batch32)
        requires
            i < self.batches@.len(),
        ensures
            *b == self.batches@[i as int],
    {
        &self.batches[i]
    }

    /// The commitment of chunk `j` for limb `k`: 648 rows in `[0, q)`, before the decomposition.
    pub fn commitment(&self, k: usize, j: usize) -> (y: &[u32; 648])
        requires
            k < self.raw@.len(),
            j < self.raw@[k as int]@.len(),
        ensures
            *y == self.raw@[k as int]@[j as int],
    {
        &self.raw[k][j]
    }
}

// ---------------------------------------------------------------------------------------------
// committing
// ---------------------------------------------------------------------------------------------

/// The binary ring element of four field elements.
pub fn bits_of(w: &[F162], o: usize) -> (a: [u32; 648])
    requires
        o + 4 <= w@.len(),
    ensures
        poly::ints(a@) == ring_element(w@, o as int),
{
    let n: usize = w.len();
    let mut a: [u32; 648] = [0;648];
    let mut x: usize = 0;
    while x < 648
        invariant
            x <= 648,
            o + 4 <= w@.len() == n,
            forall|i: int| 0 <= i < x ==> (#[trigger] a@[i]) == ring_element(w@, o as int)[i],
        decreases 648 - x,
    {
        if w[o + x % 4].bit(x / 4) {
            a[x] = 1;
        } else {
            a[x] = 0;
        }
        x += 1;
    }
    assert(poly::ints(a@) =~= ring_element(w@, o as int));
    a
}

/// 32 transforms side by side, centred.
fn pack_batch(q: u16, y: &[[u32; 648]], first: usize) -> (b: Batch32)
    requires
        2 <= q < 0x8000,
        first + 32 <= y@.len(),
        forall|i: int| 0 <= i < y@.len() ==> scalar::in_range((#[trigger] y@[i])@, q),
    ensures
        b.representation == Representation::Ntt,
        forall|u: int, p: int|
            0 <= u < 648 && 0 <= p < 32 ==> (#[trigger] b.v@[u]@[p]) == uniform::centre(
                y@[first + p]@[u] as int,
                q as int,
            ),
{
    let n: usize = y.len();
    let mut b = Batch32::zero(Representation::Ntt);
    let mut u: usize = 0;
    while u < 648
        invariant
            u <= 648,
            2 <= q < 0x8000,
            first + 32 <= y@.len() == n,
            forall|i: int| 0 <= i < y@.len() ==> scalar::in_range((#[trigger] y@[i])@, q),
            b.representation == Representation::Ntt,
            forall|i: int, p: int|
                0 <= i < u && 0 <= p < 32 ==> (#[trigger] b.v@[i]@[p]) == uniform::centre(
                    y@[first + p]@[i] as int,
                    q as int,
                ),
        decreases 648 - u,
    {
        let mut row: [i16; 32] = [0;32];
        let mut p: usize = 0;
        while p < 32
            invariant
                u < 648,
                p <= 32,
                2 <= q < 0x8000,
                first + 32 <= y@.len() == n,
                forall|i: int| 0 <= i < y@.len() ==> scalar::in_range((#[trigger] y@[i])@, q),
                forall|i: int|
                    0 <= i < p ==> (#[trigger] row@[i]) == uniform::centre(
                        y@[first + i]@[u as int] as int,
                        q as int,
                    ),
            decreases 32 - p,
        {
            assert(scalar::in_range(y@[first + p]@, q));
            row[p] = decompose::centred(y[first + p][u], q);
            p += 1;
        }
        b.v[u] = row;
        u += 1;
    }
    b
}

impl CommitmentKey {
    /// The ring elements of chunk `j`.
    fn chunk(&self, witness: &[F162], j: usize) -> (e: Vec<[u32; 648]>)
        requires
            self.wf(),
            (j + 1) * self.len_f162 <= witness@.len(),
        ensures
            ajtai::elements(e@) == column(witness@, self.len_f162 as nat, j as int),
            e@.len() == self.len_f162 / 4,
    {
        let total: usize = witness.len();
        let n: usize = self.len_f162 / 4;
        proof {
            let l = self.len_f162 as int;
            assert((j + 1) * l == j * l + l) by (nonlinear_arith);
            assert(0 <= j * l) by (nonlinear_arith)
                requires
                    0 <= j,
                    0 <= l,
            ;
        }
        let start: usize = j * self.len_f162;
        let mut e: Vec<[u32; 648]> = Vec::new();
        let mut i: usize = 0;
        while i < n
            invariant
                i <= n,
                n == self.len_f162 / 4,
                e@.len() == i,
                start == j * self.len_f162,
                start + self.len_f162 <= witness@.len() == total,
                forall|t: int|
                    0 <= t < i ==> poly::ints((#[trigger] e@[t])@) == ring_element(
                        witness@,
                        start + 4 * t,
                    ),
            decreases n - i,
        {
            e.push(bits_of(witness, start + 4 * i));
            i += 1;
        }
        assert(ajtai::elements(e@) =~= column(witness@, self.len_f162 as nat, j as int));
        e
    }

    /// The raw commitments of all chunks for limb `k`.
    fn commit_limb(&self, witness: &[F162], r: usize, k: usize) -> (raw: Vec<[u32; 648]>)
        requires
            self.wf(),
            k < self.a@.len(),
            r * self.len_f162 == witness@.len(),
        ensures
            raw@.len() == r,
            forall|j: int|
                0 <= j < r ==> scalar::in_range((#[trigger] raw@[j])@, self.prime_at(k as int))
                    && is_commitment(
                    self.prime_at(k as int),
                    self.a@[k as int]@,
                    column(witness@, self.len_f162 as nat, j),
                    raw@[j]@,
                ),
    {
        let q: u16 = self.prime(k);
        let mut raw: Vec<[u32; 648]> = Vec::new();
        let mut j: usize = 0;
        while j < r
            invariant
                j <= r,
                raw@.len() == j,
                self.wf(),
                k < self.a@.len(),
                q == self.prime_at(k as int),
                params::limb_prime(q),
                r * self.len_f162 == witness@.len(),
                forall|j: int|
                    0 <= j < raw@.len() ==> scalar::in_range((#[trigger] raw@[j])@, q)
                        && is_commitment(
                        q,
                        self.a@[k as int]@,
                        column(witness@, self.len_f162 as nat, j),
                        raw@[j]@,
                    ),
            decreases r - j,
        {
            proof {
                let l = self.len_f162 as int;
                assert((j + 1) * l <= r * l) by (nonlinear_arith)
                    requires
                        j + 1 <= r,
                        0 <= l,
                ;
            }
            let e = self.chunk(witness, j);
            assert(self.a@[k as int]@.len() == self.len_f162 / 128);
            let y = ajtai::image(q, self.a[k].as_slice(), e.as_slice());
            assert(column(witness@, self.len_f162 as nat, j as int).len() == e@.len());
            raw.push(y);
            j += 1;
        }
        raw
    }

    /// The four components of the raw commitments of one chunk, one entry per limb.
    fn components(&self, raw: &[[u32; 648]]) -> (out: (
        PowerOfThreeRingElementWithLimbs,
        PowerOfThreeRingElementWithLimbs,
        PowerOfThreeRingElementWithLimbs,
        PowerOfThreeRingElementWithLimbs,
    ))
        requires
            self.wf(),
            raw@.len() == self.a@.len(),
            forall|k: int|
                0 <= k < raw@.len() ==> scalar::in_range((#[trigger] raw@[k])@, self.prime_at(k)),
        ensures
            is_component(*self, raw@, out.0, 0),
            is_component(*self, raw@, out.1, 1),
            is_component(*self, raw@, out.2, 2),
            is_component(*self, raw@, out.3, 3),
    {
        let n: usize = self.a.len();
        let mut o0: Vec<PowerOfThreeRingElement> = Vec::new();
        let mut o1: Vec<PowerOfThreeRingElement> = Vec::new();
        let mut o2: Vec<PowerOfThreeRingElement> = Vec::new();
        let mut o3: Vec<PowerOfThreeRingElement> = Vec::new();
        let mut k: usize = 0;
        while k < n
            invariant
                k <= n == self.a@.len(),
                self.wf(),
                raw@.len() == n,
                forall|k: int|
                    0 <= k < raw@.len() ==> scalar::in_range(
                        (#[trigger] raw@[k])@,
                        self.prime_at(k),
                    ),
                o0@.len() == k,
                o1@.len() == k,
                o2@.len() == k,
                o3@.len() == k,
                forall|i: int|
                    0 <= i < k ==> is_centred(self.prime_at(i), raw@[i]@, 0, (#[trigger] o0@[i]).v@),
                forall|i: int|
                    0 <= i < k ==> is_centred(self.prime_at(i), raw@[i]@, 1, (#[trigger] o1@[i]).v@),
                forall|i: int|
                    0 <= i < k ==> is_centred(self.prime_at(i), raw@[i]@, 2, (#[trigger] o2@[i]).v@),
                forall|i: int|
                    0 <= i < k ==> is_centred(self.prime_at(i), raw@[i]@, 3, (#[trigger] o3@[i]).v@),
            decreases n - k,
        {
            let q: u16 = self.prime(k);
            assert(scalar::in_range(raw@[k as int]@, q));
            let d = decompose::components_of(q, &raw[k]);
            o0.push(d[0]);
            o1.push(d[1]);
            o2.push(d[2]);
            o3.push(d[3]);
            k += 1;
        }
        (
            PowerOfThreeRingElementWithLimbs { limbs: o0 },
            PowerOfThreeRingElementWithLimbs { limbs: o1 },
            PowerOfThreeRingElementWithLimbs { limbs: o2 },
            PowerOfThreeRingElementWithLimbs { limbs: o3 },
        )
    }
}

/// The batches `first .. first + w.len() / 32` hold the transforms of `w` modulo `q`, centred.
pub open spec fn held(b: Seq<Batch32>, first: int, q: u16, w: Seq<Seq<int>>) -> bool {
    forall|i: int, u: int|
        0 <= i < w.len() && 0 <= u < 648 ==> (#[trigger] b[first + i / 32].v@[u]@[i % 32])
            == uniform::centre(ajtai::hat(q, w[i], u) % (q as int), q as int)
}

/// Entry `(t, j)` of the matrix is component `t` of the raw commitment of chunk `j`, limb by limb.
pub open spec fn is_entry(
    key: CommitmentKey,
    raw: Seq<Vec<[u32; 648]>>,
    e: PowerOfThreeRingElementWithLimbs,
    t: int,
    j: int,
) -> bool {
    &&& e.limbs@.len() == key.a@.len()
    &&& forall|k: int|
        0 <= k < key.a@.len() ==> is_centred(
            key.prime_at(k),
            raw[k]@[j]@,
            t,
            (#[trigger] e.limbs@[k]).v@,
        )
}

/// The raw commitments of the chunks of `w`, for every limb.
pub open spec fn are_raw(key: CommitmentKey, w: Seq<F162>, raw: Seq<Vec<[u32; 648]>>, r: nat) -> bool {
    &&& raw.len() == key.a@.len()
    &&& forall|k: int| 0 <= k < raw.len() ==> (#[trigger] raw[k])@.len() == r
    &&& forall|k: int, j: int|
        0 <= k < raw.len() && 0 <= j < r ==> scalar::in_range(
            (#[trigger] raw[k]@[j])@,
            key.prime_at(k),
        ) && is_commitment(
            key.prime_at(k),
            key.a@[k]@,
            column(w, key.len_f162 as nat, j),
            raw[k]@[j]@,
        )
}

/// A chunk that is committed alone gives its own column: the raw commitments are the same, and so is
/// every component of them.
pub proof fn chunk_alone(
    key: CommitmentKey,
    w: Seq<F162>,
    r: nat,
    j: int,
    raw: Seq<Vec<[u32; 648]>>,
    alone: Seq<Vec<[u32; 648]>>,
    t: int,
    e: PowerOfThreeRingElementWithLimbs,
    f: PowerOfThreeRingElementWithLimbs,
)
    requires
        key.wf(),
        w.len() == r * key.len_f162,
        0 <= j < r,
        0 <= t < 4,
        are_raw(key, w, raw, r),
        is_entry(key, raw, e, t, j),
        are_raw(key, w.subrange(j * key.len_f162, (j + 1) * key.len_f162), alone, 1),
        is_entry(key, alone, f, t, 0),
    ensures
        forall|k: int| 0 <= k < key.a@.len() ==> (#[trigger] raw[k])@[j]@ == alone[k]@[0]@,
        e.limbs@.len() == f.limbs@.len(),
        forall|k: int| 0 <= k < key.a@.len() ==> (#[trigger] e.limbs@[k]).v@ == f.limbs@[k].v@,
{
    let n = key.len_f162 as int;
    assert(0 <= j * n && j * n + n <= r * n && (j + 1) * n == j * n + n) by (nonlinear_arith)
        requires
            0 <= j,
            j + 1 <= r,
            0 <= n,
    ;
    let part = w.subrange(j * n, (j + 1) * n);
    let (a, b) = (column(w, n as nat, j), column(part, n as nat, 0));
    assert(0 * n == 0) by (nonlinear_arith);
    assert forall|i: int| 0 <= i < a.len() implies a[i] == b[i] by {
        assert(ring_element(w, j * n + 4 * i) =~= ring_element(part, 0 * n + 4 * i));
    }
    assert(a =~= b);
    assert forall|k: int| 0 <= k < key.a@.len() implies (#[trigger] raw[k])@[j]@
        == alone[k]@[0]@ by {
        let (x, y) = (raw[k]@[j]@, alone[k]@[0]@);
        assert(is_commitment(key.prime_at(k), key.a@[k]@, a, x));
        assert(is_commitment(key.prime_at(k), key.a@[k]@, b, y));
        assert forall|i: int| 0 <= i < 648 implies x[i] == y[i] by {}
        assert(x =~= y);
    }
    assert forall|k: int| 0 <= k < key.a@.len() implies (#[trigger] e.limbs@[k]).v@
        == f.limbs@[k].v@ by {
        assert(raw[k]@[j]@ == alone[k]@[0]@);
        let q = key.prime_at(k);
        assert(is_centred(q, raw[k]@[j]@, t, e.limbs@[k].v@));
        assert(is_centred(q, alone[k]@[0]@, t, f.limbs@[k].v@));
        let (x, y) = (e.limbs@[k].v@, f.limbs@[k].v@);
        assert forall|i: int| 0 <= i < 162 implies x[i] == y[i] by {}
        assert(x =~= y);
    }
}

proof fn lemma_entry(
    key: CommitmentKey,
    raw: Seq<Vec<[u32; 648]>>,
    ys: Seq<[u32; 648]>,
    e: PowerOfThreeRingElementWithLimbs,
    t: int,
    j: int,
)
    requires
        is_component(key, ys, e, t),
        ys.len() == key.a@.len(),
        forall|k: int| 0 <= k < ys.len() ==> (#[trigger] ys[k]) == raw[k]@[j],
    ensures
        is_entry(key, raw, e, t, j),
{
    assert forall|k: int| 0 <= k < key.a@.len() implies is_centred(
        key.prime_at(k),
        raw[k]@[j]@,
        t,
        (#[trigger] e.limbs@[k]).v@,
    ) by {
        assert(ys[k] == raw[k]@[j]);
    }
}

impl CommitmentKey {
    /// Keep the transform of chunk `j` modulo the base limb.
    fn keep_chunk(&self, witness: &[F162], r: usize, j: usize, batches: &mut Vec<Batch32>)
        requires
            self.wf(),
            j < r,
            r * self.len_f162 == witness@.len(),
            old(batches)@.len() == r * (self.len_f162 / 128),
        ensures
            final(batches)@.len() == old(batches)@.len(),
            held(
                final(batches)@,
                j * (self.len_f162 / 128),
                self.prime_at(0),
                column(witness@, self.len_f162 as nat, j as int),
            ),
            forall|b: int|
                0 <= b < j * (self.len_f162 / 128) ==> (#[trigger] final(batches)@[b]) == old(
                    batches,
                )@[b],
    {
        let q: u16 = self.prime(0);
        let bpc: usize = self.len_f162 / 128;
        proof {
            let (l, m) = (self.len_f162 as int, bpc as int);
            assert((j + 1) * l <= r * l) by (nonlinear_arith)
                requires
                    j + 1 <= r,
                    0 <= l,
            ;
            assert(0 <= j * m && (j + 1) * m <= r * m && (j + 1) * m == j * m + m)
                by (nonlinear_arith)
                requires
                    0 <= j,
                    j + 1 <= r,
                    0 <= m,
            ;
        }
        let e = self.chunk(witness, j);
        let y = ajtai::transforms(q, e.as_slice());
        let total: usize = batches.len();
        let first: usize = j * bpc;
        let ghost w = column(witness@, self.len_f162 as nat, j as int);
        let ghost before = batches@;
        let mut b: usize = 0;
        while b < bpc
            invariant
                b <= bpc,
                bpc == self.len_f162 / 128,
                self.len_f162 % 128 == 0,
                y@.len() == self.len_f162 / 4,
                2 <= q < 0x8000,
                first + bpc <= total == batches@.len(),
                forall|i: int| 0 <= i < y@.len() ==> scalar::in_range((#[trigger] y@[i])@, q),
                forall|i: int| 0 <= i < first ==> (#[trigger] batches@[i]) == before[i],
                forall|t: int, u: int, p: int|
                    0 <= t < b && 0 <= u < 648 && 0 <= p < 32 ==> (#[trigger] batches@[first
                        + t].v@[u]@[p]) == uniform::centre(y@[32 * t + p]@[u] as int, q as int),
            decreases bpc - b,
        {
            let x = pack_batch(q, y.as_slice(), 32 * b);
            batches.set(first + b, x);
            b += 1;
        }
        proof {
            assert forall|i: int, u: int| 0 <= i < w.len() && 0 <= u < 648 implies (
            #[trigger] batches@[first + i / 32].v@[u]@[i % 32]) == uniform::centre(
                ajtai::hat(q, w[i], u) % (q as int),
                q as int,
            ) by {
                assert(0 <= i / 32 < bpc && 32 * (i / 32) + i % 32 == i);
                assert(w[i] == poly::ints(e@[i]@)) by {
                    assert(ajtai::elements(e@)[i] == poly::ints(e@[i]@));
                }
                assert(decompose::is_transform(q, y@[i]@, poly::ints(e@[i]@)));
                ajtai::lemma_rows(q, y@[i]@, w[i], u);
            }
        }
    }

    /// Column `j` of the matrix, behind the columns before it.
    fn push_column(
        &self,
        raw: &Vec<Vec<[u32; 648]>>,
        r: usize,
        j: usize,
        data: &mut Vec<PowerOfThreeRingElementWithLimbs>,
    )
        requires
            self.wf(),
            j < r,
            raw@.len() == self.a@.len(),
            forall|k: int| 0 <= k < raw@.len() ==> (#[trigger] raw@[k])@.len() == r,
            forall|k: int|
                0 <= k < raw@.len() ==> scalar::in_range(
                    (#[trigger] raw@[k]@[j as int])@,
                    self.prime_at(k),
                ),
        ensures
            final(data)@.len() == old(data)@.len() + 4,
            forall|i: int|
                0 <= i < old(data)@.len() ==> (#[trigger] final(data)@[i]) == old(data)@[i],
            forall|t: int|
                0 <= t < 4 ==> is_entry(
                    *self,
                    raw@,
                    #[trigger] final(data)@[old(data)@.len() + t],
                    t,
                    j as int,
                ),
    {
        let n: usize = self.a.len();
        let mut ys: Vec<[u32; 648]> = Vec::new();
        let mut k: usize = 0;
        while k < n
            invariant
                k <= n == self.a@.len(),
                j < r,
                raw@.len() == n,
                ys@.len() == k,
                forall|k: int| 0 <= k < raw@.len() ==> (#[trigger] raw@[k])@.len() == r,
                forall|i: int| 0 <= i < k ==> (#[trigger] ys@[i]) == raw@[i]@[j as int],
            decreases n - k,
        {
            assert(raw@[k as int]@.len() == r);
            ys.push(raw[k][j]);
            k += 1;
        }
        assert forall|k: int| 0 <= k < ys@.len() implies scalar::in_range(
            (#[trigger] ys@[k])@,
            self.prime_at(k),
        ) by {
            assert(scalar::in_range(raw@[k]@[j as int]@, self.prime_at(k)));
        }
        let out = self.components(ys.as_slice());
        proof {
            lemma_entry(*self, raw@, ys@, out.0, 0, j as int);
            lemma_entry(*self, raw@, ys@, out.1, 1, j as int);
            lemma_entry(*self, raw@, ys@, out.2, 2, j as int);
            lemma_entry(*self, raw@, ys@, out.3, 3, j as int);
        }
        data.push(out.0);
        data.push(out.1);
        data.push(out.2);
        data.push(out.3);
    }

    /// The raw commitments of all chunks for every limb.
    fn commit_limbs(&self, witness: &[F162], r: usize) -> (raw: Vec<Vec<[u32; 648]>>)
        requires
            self.wf(),
            r * self.len_f162 == witness@.len(),
        ensures
            are_raw(*self, witness@, raw@, r as nat),
    {
        let n: usize = self.a.len();
        let mut raw: Vec<Vec<[u32; 648]>> = Vec::new();
        let mut k: usize = 0;
        while k < n
            invariant
                k <= n == self.a@.len(),
                self.wf(),
                r * self.len_f162 == witness@.len(),
                raw@.len() == k,
                forall|i: int| 0 <= i < k ==> (#[trigger] raw@[i])@.len() == r,
                forall|i: int, j: int|
                    0 <= i < k && 0 <= j < r ==> scalar::in_range(
                        (#[trigger] raw@[i]@[j])@,
                        self.prime_at(i),
                    ) && is_commitment(
                        self.prime_at(i),
                        self.a@[i]@,
                        column(witness@, self.len_f162 as nat, j),
                        raw@[i]@[j]@,
                    ),
            decreases n - k,
        {
            let y = self.commit_limb(witness, r, k);
            raw.push(y);
            k += 1;
        }
        raw
    }

    /// Commit to `witness` in `r` chunks under the same key, keeping what the fold consumes in a
    /// buffer the caller already owns.
    ///
    /// Chunk `j` is read as `len / 4` binary ring elements of `R_648`, and `y = sum_i A_i w_i` is
    /// taken once per limb. Each limb's `y` is then split into its four `R_162` components, which
    /// become column `j` of the returned `4 x r` matrix.
    pub fn commit_into_aux(&self, witness: &[F162], r: usize, aux: &mut AuxData) -> (m:
        VerticallyAlignedMatrix<PowerOfThreeRingElementWithLimbs>)
        requires
            self.wf(),
            exists|e: nat| r == #[trigger] pow2(e),
            witness@.len() == r * self.len_f162,
            old(aux).matches(self, r as nat),
        ensures
            m.wf(),
            m.rows == 4,
            m.cols == r,
            final(aux).matches(self, r as nat),
            are_raw(*self, witness@, final(aux).raw@, r as nat),
            forall|t: int, j: int|
                0 <= t < 4 && 0 <= j < r ==> is_entry(
                    *self,
                    final(aux).raw@,
                    #[trigger] m.at(t, j),
                    t,
                    j,
                ),
            forall|j: int|
                0 <= j < r ==> held(
                    final(aux).batches@,
                    j * (self.len_f162 / 128),
                    self.prime_at(0),
                    #[trigger] column(witness@, self.len_f162 as nat, j),
                ),
    {
        let total: usize = witness.len();
        proof {
            let l = self.len_f162 as int;
            assert(4 * r <= r * l) by (nonlinear_arith)
                requires
                    4 <= l,
                    0 <= r,
            ;
        }
        let raw = self.commit_limbs(witness, r);
        let mut data: Vec<PowerOfThreeRingElementWithLimbs> = Vec::new();
        let mut j: usize = 0;
        while j < r
            invariant
                j <= r,
                4 * r <= total,
                self.wf(),
                r * self.len_f162 == witness@.len(),
                aux.matches(self, r as nat),
                are_raw(*self, witness@, raw@, r as nat),
                data@.len() == 4 * j,
                forall|t: int, i: int|
                    0 <= t < 4 && 0 <= i < j ==> is_entry(
                        *self,
                        raw@,
                        #[trigger] data@[i * 4 + t],
                        t,
                        i,
                    ),
                forall|i: int|
                    0 <= i < j ==> held(
                        aux.batches@,
                        i * (self.len_f162 / 128),
                        self.prime_at(0),
                        #[trigger] column(witness@, self.len_f162 as nat, i),
                    ),
            decreases r - j,
        {
            let ghost before = aux.batches@;
            let ghost old_data = data@;
            self.keep_chunk(witness, r, j, &mut aux.batches);
            assert forall|i: int| 0 <= i < j implies held(
                aux.batches@,
                i * (self.len_f162 / 128),
                self.prime_at(0),
                #[trigger] column(witness@, self.len_f162 as nat, i),
            ) by {
                let m = (self.len_f162 / 128) as int;
                let w = column(witness@, self.len_f162 as nat, i);
                assert(held(before, i * m, self.prime_at(0), w));
                assert((i + 1) * m <= j * m && (i + 1) * m == i * m + m && 0 <= i * m)
                    by (nonlinear_arith)
                    requires
                        0 <= i,
                        i + 1 <= j,
                        0 <= m,
                ;
                assert forall|t: int, u: int| 0 <= t < w.len() && 0 <= u < 648 implies (
                #[trigger] aux.batches@[i * m + t / 32].v@[u]@[t % 32]) == uniform::centre(
                    ajtai::hat(self.prime_at(0), w[t], u) % (self.prime_at(0) as int),
                    self.prime_at(0) as int,
                ) by {
                    assert(t / 32 < m);
                    assert(before[i * m + t / 32] == aux.batches@[i * m + t / 32]);
                }
            }
            assert forall|k: int| 0 <= k < raw@.len() implies scalar::in_range(
                (#[trigger] raw@[k]@[j as int])@,
                self.prime_at(k),
            ) by {}
            self.push_column(&raw, r, j, &mut data);
            assert forall|t: int, i: int| 0 <= t < 4 && 0 <= i <= j implies is_entry(
                *self,
                raw@,
                #[trigger] data@[i * 4 + t],
                t,
                i,
            ) by {
                if i < j {
                    assert(data@[i * 4 + t] == old_data[i * 4 + t]);
                } else {
                    assert(i * 4 + t == old_data.len() + t);
                }
            }
            j += 1;
        }
        aux.raw = raw;
        let m = VerticallyAlignedMatrix::new(4, r, data);
        assert forall|t: int, j: int| 0 <= t < 4 && 0 <= j < r implies is_entry(
            *self,
            aux.raw@,
            #[trigger] m.at(t, j),
            t,
            j,
        ) by {
            assert(m.at(t, j) == data@[j * 4 + t]);
        }
        m
    }
}

/// The entries of a limb of an expanded key come from draws of their own: entries at different places
/// are drawn at different states of one generator.
pub proof fn entries_drawn_apart(
    seed: u64,
    k: int,
    q: u16,
    b: int,
    j: int,
    p: int,
    c: int,
    i: int,
    r: int,
) -> (d: (nat, nat))
    requires
        0 <= b,
        0 <= j < 648,
        0 <= p < 32,
        0 <= c,
        0 <= i < 648,
        0 <= r < 32,
        b < 0x1_0000_0000,
        c < 0x1_0000_0000,
    ensures
        key_entry(seed, k, q, b, j, p) == rng::draw(limb_seed(seed, k), q as u32, d.0) - (q - 1) / 2,
        key_entry(seed, k, q, c, i, r) == rng::draw(limb_seed(seed, k), q as u32, d.1) - (q - 1) / 2,
        d.0 == d.1 <==> b == c && j == i && p == r,
        d.0 != d.1 ==> rng::state_after(limb_seed(seed, k), d.0 + 1) != rng::state_after(
            limb_seed(seed, k),
            d.1 + 1,
        ),
{
    let d = ((20736 * b + (32 * j + p)) as nat, (20736 * c + (32 * i + r)) as nat);
    if d.0 < d.1 {
        rng::states_differ(limb_seed(seed, k), d.0 + 1, d.1 + 1);
    } else if d.1 < d.0 {
        rng::states_differ(limb_seed(seed, k), d.1 + 1, d.0 + 1);
    }
    d
}

/// The limbs of an expanded key are drawn from generators with different seeds.
pub proof fn limb_seeds_differ(seed: u64, k: int, l: int)
    requires
        0 <= k < l < 0x1_0000,
    ensures
        limb_seed(seed, k) != limb_seed(seed, l),
{
    let (a, b) = (
        0x9E37_79B9u64.wrapping_mul((k + 1) as u64),
        0x9E37_79B9u64.wrapping_mul((l + 1) as u64),
    );
    assert(0x9E37_79B9int * (k + 1) < 0x1_0000_0000_0000_0000);
    assert(a == 0x9E37_79B9int * (k + 1)) by {
        vstd::arithmetic::div_mod::lemma_small_mod(
            (0x9E37_79B9int * (k + 1)) as nat,
            0x1_0000_0000_0000_0000,
        );
    }
    assert(b == 0x9E37_79B9int * (l + 1)) by {
        vstd::arithmetic::div_mod::lemma_small_mod(
            (0x9E37_79B9int * (l + 1)) as nat,
            0x1_0000_0000_0000_0000,
        );
    }
    assert(a != b ==> seed ^ a != seed ^ b) by (bit_vector);
}

} // verus!
