//! The witness.
use super::commitment::{EvaluationPoint, RowEvaluation};
use super::params::Params;
use crate::bytes;
use crate::challenge::transcript;
use crate::eval;
use crate::fields::crossfield;
use crate::fields::linear;
use crate::fields::scalar;
use crate::fields::scalar::{B128, F162};
use crate::hash;
use vstd::arithmetic::power2::*;
use vstd::prelude::*;
use vstd::string::*;

verus! {

/// Why a [`Witness`] was refused.
#[derive(Clone, Copy, PartialEq, Eq, Debug, Structural)]
pub enum WitnessError {
    /// Not `witness_len()` elements.
    WrongLength,
}

/// The private input: `witness_len()` elements of `F162`, read as `witness_len() / 4` binary ring
/// elements of `R_648` four at a time.
#[derive(Clone, PartialEq, Eq, Debug)]
pub struct Witness {
    pub params: Params,
    pub elements: Vec<F162>,
}

impl Witness {
    /// The parameters are valid and the elements fill the witness.
    pub open spec fn wf(&self) -> bool {
        &&& self.params.wf()
        &&& self.elements@.len() == pow2(self.params.witness_log_len as nat)
        &&& linear::all_wf(self.elements@)
    }

    pub fn from_elements(params: &Params, elements: Vec<F162>) -> (r: Result<Witness, WitnessError>)
        requires
            params.witness_log_len < usize::BITS,
        ensures
            match r {
                Ok(w) => {
                    &&& elements@.len() == pow2(params.witness_log_len as nat)
                    &&& w.params.same(params)
                    &&& w.elements == elements
                    &&& params.wf() && linear::all_wf(elements@) ==> w.wf()
                },
                Err(e) => elements@.len() != pow2(params.witness_log_len as nat) && e
                    == WitnessError::WrongLength,
            },
    {
        if elements.len() != params.witness_len() {
            return Err(WitnessError::WrongLength);
        }
        Ok(Witness { params: params.copy(), elements })
    }

    /// The witness whose elements are the words of `trace`, each as the low coefficients of an
    /// `F162`.
    pub fn lifted(params: &Params, trace: &[B128]) -> (r: Result<Witness, WitnessError>)
        requires
            params.wf(),
        ensures
            match r {
                Ok(w) => {
                    &&& trace@.len() == pow2(params.witness_log_len as nat)
                    &&& w.wf()
                    &&& w.params.same(params)
                    &&& linear::views(w.elements@) == crossfield::lifted(linear::words(trace@))
                },
                Err(e) => trace@.len() != pow2(params.witness_log_len as nat) && e
                    == WitnessError::WrongLength,
            },
    {
        if trace.len() != params.witness_len() {
            return Err(WitnessError::WrongLength);
        }
        let n: usize = trace.len();
        let mut elements: Vec<F162> = Vec::with_capacity(n);
        let mut j: usize = 0;
        while j < n
            invariant
                j <= n == trace@.len(),
                elements@.len() == j,
                linear::all_wf(elements@),
                forall|i: int|
                    0 <= i < j ==> (#[trigger] elements@[i])@ == scalar::lift(trace@[i]@),
            decreases n - j,
        {
            elements.push(F162::from_b128(trace[j]));
            j += 1;
        }
        assert(linear::views(elements@) =~= crossfield::lifted(linear::words(trace@)));
        Ok(Witness { params: params.copy(), elements })
    }

    /// A uniform witness from a keyed blake3 output: three little-endian `u64` per element, the
    /// top 30 bits of the third cleared.
    pub fn random(params: &Params, seed: [u8; 32]) -> (w: Witness)
        requires
            params.wf(),
            24 * pow2(params.witness_log_len as nat) <= usize::MAX,
        ensures
            w.wf(),
            w.params.same(params),
            w.elements@ == random_elements(seed@, pow2(params.witness_log_len as nat)),
    {
        let n: usize = params.witness_len();
        let mut bytes: Vec<u8> = vec![0u8; 24 * n];
        let mut hasher = hash::keyed_hasher(&seed);
        proof {
            lemma_witness_label();
        }
        hash::update(&mut hasher, "labinius/witness".as_bytes());
        hash::xof_fill(&hasher, 0, bytes.as_mut_slice());
        let elements = transcript::read_f162s(bytes.as_slice(), n);
        proof {
            assert(hash::hasher_input(hasher) =~= witness_label());
            let b = Seq::new(
                (24 * n) as nat,
                |i: int| hash::xof_byte(seed@, witness_label(), i),
            );
            assert(bytes@ =~= b);
            assert(elements@ =~= random_elements(seed@, n as nat));
        }
        Witness { params: params.copy(), elements }
    }

    pub fn elements(&self) -> (r: &[F162])
        ensures
            r@ == self.elements@,
    {
        self.elements.as_slice()
    }

    /// The point has the two lengths that the witness is split by.
    pub open spec fn fits(&self, point: &EvaluationPoint) -> bool {
        &&& point.p0@.len() == self.params.witness_log_len - self.params.column_log_len
        &&& point.p1@.len() == self.params.column_log_len
        &&& point.wf()
    }

    proof fn lemma_shape(&self)
        requires
            self.wf(),
        ensures
            pow2((self.params.witness_log_len - self.params.column_log_len) as nat)
                <= self.elements@.len(),
            self.elements@.len() == pow2(
                (self.params.column_log_len + (self.params.witness_log_len
                    - self.params.column_log_len)) as nat,
            ),
    {
        let p = self.params;
        let r = (p.witness_log_len - p.column_log_len) as nat;
        if r < p.witness_log_len {
            lemma_pow2_strictly_increases(r, p.witness_log_len as nat);
        }
    }

    /// The multilinear extension of the witness at the point, the statement being proved.
    pub fn mle_evaluate(&self, point: &EvaluationPoint) -> (t: F162)
        requires
            self.wf(),
            self.fits(point),
        ensures
            t.wf(),
            t@ == scalar::f162().mle(linear::views(self.elements@), point.msb()),
    {
        proof {
            self.lemma_shape();
            let (w, p0, p1) = (
                linear::views(self.elements@),
                linear::views(point.p0@),
                linear::views(point.p1@),
            );
            eval::claim_is_mle(w, p0, p1);
        }
        let n: usize = self.elements.len();
        let u = eval::row_evaluate(self.elements.as_slice(), point.p0.as_slice());
        assert(u@.len() == linear::views(u@).len());
        eval::claim(u.as_slice(), point.p1.as_slice())
    }

    /// `u = B W`, one field element per column: the prover's message.
    pub fn row_evaluate(&self, point: &EvaluationPoint) -> (u: RowEvaluation)
        requires
            self.wf(),
            self.fits(point),
        ensures
            linear::all_wf(u.values@),
            u.values@.len() == pow2(self.params.column_log_len as nat),
            linear::views(u.values@) == eval::rows(
                linear::views(self.elements@),
                linear::views(point.p0@),
            ),
    {
        proof {
            self.lemma_shape();
            let (w, p0, p1) = (
                linear::views(self.elements@),
                linear::views(point.p0@),
                linear::views(point.p1@),
            );
            eval::claim_is_mle(w, p0, p1);
        }
        let n: usize = self.elements.len();
        let values = eval::row_evaluate(self.elements.as_slice(), point.p0.as_slice());
        assert(values@.len() == linear::views(values@).len());
        RowEvaluation { values }
    }
}

/// The label that a random witness is drawn under.
pub open spec fn witness_label() -> Seq<u8> {
    "labinius/witness".spec_bytes()
}

proof fn lemma_witness_label()
    ensures
        witness_label().len() == 16,
{
    reveal_strlit("labinius/witness");
    assert("labinius/witness".is_ascii());
    vstd::string::is_ascii_spec_bytes("labinius/witness");
}

/// The elements of the random witness of a seed.
pub open spec fn random_elements(seed: Seq<u8>, n: nat) -> Seq<F162> {
    transcript::f162s_of(
        Seq::new(24 * n, |i: int| hash::xof_byte(seed, witness_label(), i)),
        n,
    )
}


/// The elements of the random witnesses of one seed are read from one stream, each from bytes of its
/// own: a shorter witness is the front of a longer one, and the first two limbs of element `i` are
/// what the bytes from `24 i` on say.
pub proof fn random_elements_stream(seed: Seq<u8>, m: nat, n: nat, i: int, b: int)
    requires
        m <= n,
        0 <= i < m,
        0 <= b < 16,
    ensures
        random_elements(seed, n).take(m as int) == random_elements(seed, m),
        bytes::le(random_elements(seed, m)[i].0[b / 8] as nat, 8)[b % 8] == hash::xof_byte(
            seed,
            witness_label(),
            24 * i + b,
        ),
{
    let s = Seq::new(24 * m, |k: int| hash::xof_byte(seed, witness_label(), k));
    let t = Seq::new(24 * n, |k: int| hash::xof_byte(seed, witness_label(), k));
    assert forall|j: int| 0 <= j < m implies (#[trigger] random_elements(seed, n)[j])
        == random_elements(seed, m)[j] by {
        assert(s.subrange(24 * j, 24 * j + 8) =~= t.subrange(24 * j, 24 * j + 8));
        assert(s.subrange(24 * j + 8, 24 * j + 16) =~= t.subrange(24 * j + 8, 24 * j + 16));
        assert(s.subrange(24 * j + 16, 24 * j + 24) =~= t.subrange(24 * j + 16, 24 * j + 24));
    }
    assert(random_elements(seed, n).take(m as int) =~= random_elements(seed, m));
    let o = 24 * i + 8 * (b / 8);
    let w = s.subrange(o, o + 8);
    bytes::lemma_le_of_le(w);
    bytes::lemma_radix_values();
    assert(w[b % 8] == s[24 * i + b]);
}

} // verus!
