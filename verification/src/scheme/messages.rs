//! The messages of a round: challenges, the folded commitment, the left expansion, the opening.
use super::commitment::{Commitment, CommitmentValue, FoldedWitness, RowEvaluation};
use super::params::Params;
use crate::bd;
use crate::bytes;
use crate::challenge::short::ShortChallenge;
use crate::challenge::transcript;
use crate::challenge::transcript::Transcript;
use crate::fields::scalar::F162;
use crate::fold;
use crate::key::AuxData;
use crate::labrador::PolxBuf;
use crate::recursion::limbs::Residues;
use crate::ring::{PowerOfThreeRingElement, PowerOfThreeRingElementWithLimbs};
use crate::wire;
use crate::wire::tagged;
use crate::wire::uniform;
use std::sync::Arc;
use vstd::arithmetic::power2::*;
use vstd::prelude::*;
use vstd::string::*;

verus! {

/// The verifier rejected.
#[derive(Clone, Copy, PartialEq, Eq, Debug, Structural)]
pub enum VerificationError {
    Rejected,
}

impl VerificationError {
    /// What the error says.
    pub fn describe(&self) -> (s: &'static str)
        ensures
            s@ == "the opening was rejected"@,
    {
        "the opening was rejected"
    }
}

/// The bytes of `count` transformed elements on the wire, 48-bit coefficients.
pub fn polx_wire_bytes(count: usize) -> (n: usize)
    requires
        count * 384 <= usize::MAX,
    ensures
        n == count * 384,
{
    count * 64 * 6
}

impl Commitment {
    /// The commitment as bytes, tagged by the form it takes.
    pub fn to_bytes(&self) -> (b: Vec<u8>)
        requires
            self.wf(),
            tagged::announced(*self) <= u32::MAX,
        ensures
            b@ == tagged::tagged(*self),
    {
        tagged::pack_tagged_commitment(self)
    }

    /// The inverse of [`to_bytes`](Self::to_bytes), against the parameters the verifier holds.
    pub fn from_bytes(params: &Params, bytes: &[u8]) -> (r: Result<Commitment, VerificationError>)
        requires
            params.wf(),
            params.bits() <= 31,
            params.bits() > 0 ==> 648 * pow2(params.column_log_len as nat) <= usize::MAX,
        ensures
            match r {
                Ok(c) => tagged::reads_tagged(bytes@, *params, c),
                Err(e) => e == VerificationError::Rejected && forall|c: Commitment|
                    !(#[trigger] tagged::reads_tagged(bytes@, *params, c)),
            },
    {
        match tagged::unpack_tagged_commitment(params, bytes) {
            Some(c) => Ok(c),
            None => Err(VerificationError::Rejected),
        }
    }

    /// The bytes on the wire.
    pub open spec fn wire_len(&self) -> nat {
        match self.value {
            CommitmentValue::Matrix(m) => wire::commitment::matrix_len(self.primes@, m.cols as nat),
            CommitmentValue::Recursive(t) => t.count as nat * 384,
            CommitmentValue::Dropped(d) => bd::byte_count(
                d.primes@,
                d.columns as nat,
                d.dropped_bits as nat,
            ),
        }
    }

    /// The wire form can be counted in a `usize`.
    pub open spec fn countable(&self) -> bool {
        &&& self.primes@.len() <= 0x0FFF_FFFF
        &&& match self.value {
            CommitmentValue::Matrix(m) => 4 * m.cols * (162 * uniform::slot_width(
                self.primes@,
                self.primes@.len(),
            )) + 7 <= usize::MAX,
            CommitmentValue::Recursive(t) => t.count * 384 <= usize::MAX,
            CommitmentValue::Dropped(d) => bd::fits(
                d.primes@,
                d.columns as nat,
                d.dropped_bits as nat,
            ),
        }
    }

    /// Bytes on the wire: 48-bit coefficients for `T_Y`, `ceil(log2 q)`-bit slots for the matrix.
    pub fn wire_bytes(&self) -> (n: usize)
        requires
            self.wf(),
            self.countable(),
        ensures
            n == self.wire_len(),
    {
        match &self.value {
            CommitmentValue::Matrix(m) => wire::commitment_bytes(self.primes.as_slice(), m.cols()),
            CommitmentValue::Recursive(t) => polx_wire_bytes(t.len()),
            CommitmentValue::Dropped(d) => {
                assert forall|k: int| 0 <= k < d.primes@.len() implies (#[trigger] d.primes@[k])
                    >= 1 by {}
                d.wire_bytes()
            },
        }
    }
}

/// What the prover keeps from a commitment and the fold consumes: the witness's transform modulo
/// the base modulus and the raw commitments, and the residues in the recursive mode.
pub struct CommitmentOpening {
    pub aux: AuxData,
    pub residues: Option<Residues>,
}

impl CommitmentOpening {
    /// The residues `T_Y` opens; `None` but in the recursive mode.
    pub fn residues(&self) -> (r: Option<&Residues>)
        ensures
            match r {
                Some(x) => self.residues == Some(*x),
                None => self.residues is None,
            },
    {
        self.residues.as_ref()
    }

    /// The same, to be changed.
    pub fn residues_mut(&mut self) -> (r: Option<&mut Residues>)
        ensures
            final(self).aux == old(self).aux,
            match r {
                Some(x) => old(self).residues == Some(*x) && final(self).residues == Some(*final(x)),
                None => old(self).residues is None && final(self).residues is None,
            },
    {
        self.residues.as_mut()
    }
}

/// The short challenges of one round, one per column.
#[derive(Clone, Debug)]
pub struct FoldingChallenges {
    pub challenges: Vec<ShortChallenge>,
}

impl FoldingChallenges {
    /// Every challenge is well formed.
    pub open spec fn wf(&self) -> bool {
        fold::sound(self.challenges@)
    }

    /// Challenges from a list.
    pub fn of(challenges: Vec<ShortChallenge>) -> (r: FoldingChallenges)
        ensures
            r.challenges == challenges,
    {
        FoldingChallenges { challenges }
    }

    pub fn len(&self) -> (n: usize)
        ensures
            n == self.challenges@.len(),
    {
        self.challenges.len()
    }

    pub fn is_empty(&self) -> (r: bool)
        ensures
            r == (self.challenges@.len() == 0),
    {
        self.challenges.len() == 0
    }

    /// The challenges themselves.
    pub fn challenges(&self) -> (r: &[ShortChallenge])
        ensures
            r@ == self.challenges@,
    {
        self.challenges.as_slice()
    }
}

/// `sum_j c_j C_j`: four `R_162` elements per modulus.
#[derive(Clone, PartialEq, Eq, Debug)]
pub struct FoldedCommitment {
    pub primes: Vec<u16>,
    pub rows: [PowerOfThreeRingElementWithLimbs; 4],
}

impl FoldedCommitment {
    /// Every row has a limb per modulus.
    pub open spec fn wf(&self) -> bool {
        forall|t: int|
            0 <= t < 4 ==> (#[trigger] self.rows@[t]).limbs@.len() == self.primes@.len()
    }

    pub fn moduli(&self) -> (r: &[u16])
        ensures
            r@ == self.primes@,
    {
        self.primes.as_slice()
    }

    pub fn element(&self, row: usize, modulus_index: usize) -> (r: &PowerOfThreeRingElement)
        requires
            row < 4,
            modulus_index < self.rows@[row as int].limbs@.len(),
        ensures
            *r == self.rows@[row as int].limbs@[modulus_index as int],
    {
        &self.rows[row].limbs[modulus_index]
    }
}

/// `T_u`, the commitment to the left expansion: what the prover sends in place of it, and what the
/// folding challenges are then derived from.
#[derive(Clone, PartialEq, Eq, Debug)]
pub struct LeftExpansionCommitment {
    pub t_u: Arc<PolxBuf>,
}

impl LeftExpansionCommitment {
    pub fn of(t_u: Arc<PolxBuf>) -> (r: LeftExpansionCommitment)
        ensures
            r.t_u == t_u,
    {
        LeftExpansionCommitment { t_u }
    }

    pub fn t_u(&self) -> (r: &Arc<PolxBuf>)
        ensures
            *r == self.t_u,
    {
        &self.t_u
    }

    pub fn wire_bytes(&self) -> (n: usize)
        requires
            self.t_u.count * 384 <= usize::MAX,
        ensures
            n == self.t_u.count * 384,
    {
        polx_wire_bytes(self.t_u.len())
    }
}

// ---------------------------------------------------------------------------------------------
// what the folding challenges are derived from
// ---------------------------------------------------------------------------------------------

pub open spec fn row_label() -> Seq<u8> {
    "labinius/row-evaluation".spec_bytes()
}

pub open spec fn left_label() -> Seq<u8> {
    "labinius/left-expansion-commitment".spec_bytes()
}

pub proof fn lemma_labels()
    ensures
        row_label().len() == 23,
        left_label().len() == 34,
{
    reveal_strlit("labinius/row-evaluation");
    reveal_strlit("labinius/left-expansion-commitment");
    assert("labinius/row-evaluation".is_ascii());
    assert("labinius/left-expansion-commitment".is_ascii());
    vstd::string::is_ascii_spec_bytes("labinius/row-evaluation");
    vstd::string::is_ascii_spec_bytes("labinius/left-expansion-commitment");
}

/// What the folding challenges are derived from: the left expansion in the clear, or `T_u`.
pub trait FoldingSource {
    /// The bytes behind the label.
    spec fn payload(&self) -> Seq<u8>;

    /// The script once the source is absorbed.
    spec fn absorbed(&self, s: transcript::Script) -> transcript::Script;

    fn absorb(&self, transcript: &mut Transcript)
        requires
            old(transcript)@.room(64 + self.payload().len()),
        ensures
            final(transcript)@ == self.absorbed(old(transcript)@),
    ;
}

impl FoldingSource for RowEvaluation {
    open spec fn payload(&self) -> Seq<u8> {
        transcript::f162_bytes(self.values@)
    }

    open spec fn absorbed(&self, s: transcript::Script) -> transcript::Script {
        s.absorb_bytes(row_label()).absorb_bytes(self.payload())
    }

    fn absorb(&self, transcript: &mut Transcript) {
        proof {
            lemma_labels();
            bytes::lemma_le_len(row_label().len(), 8);
        }
        transcript.absorb_bytes("labinius/row-evaluation".as_bytes());
        let mut b: Vec<u8> = Vec::new();
        transcript::push_f162s(&mut b, self.values.as_slice());
        assert(b@ =~= self.payload());
        transcript.absorb_bytes(b.as_slice());
    }
}

impl FoldingSource for LeftExpansionCommitment {
    open spec fn payload(&self) -> Seq<u8> {
        self.t_u.bytes@
    }

    open spec fn absorbed(&self, s: transcript::Script) -> transcript::Script {
        s.absorb_bytes(left_label()).absorb_bytes(self.payload())
    }

    fn absorb(&self, transcript: &mut Transcript) {
        proof {
            lemma_labels();
            bytes::lemma_le_len(left_label().len(), 8);
        }
        transcript.absorb_bytes("labinius/left-expansion-commitment".as_bytes());
        transcript.absorb_bytes(self.t_u.as_bytes());
    }
}

// ---------------------------------------------------------------------------------------------
// the recursive opening
// ---------------------------------------------------------------------------------------------

/// The recursive opening as far as it is read here: `T_R` and the exact squared norms of every
/// witness vector.
#[derive(Clone, PartialEq, Eq, Debug)]
pub struct OpeningProof {
    pub t_r: Arc<PolxBuf>,
    pub norms: Vec<u64>,
    pub phi_bytes: usize,
}

impl OpeningProof {
    pub fn t_r(&self) -> (r: &Arc<PolxBuf>)
        ensures
            *r == self.t_r,
    {
        &self.t_r
    }

    pub fn norms(&self) -> (r: &[u64])
        ensures
            r@ == self.norms@,
    {
        self.norms.as_slice()
    }

    /// Mutable access to the announced norms.
    pub fn norms_mut(&mut self) -> (r: &mut [u64])
        ensures
            r@ == old(self).norms@,
            final(self).norms@ == final(r)@,
            final(self).t_r == old(self).t_r,
            final(self).phi_bytes == old(self).phi_bytes,
    {
        self.norms.as_mut_slice()
    }

    /// Bytes the per-proof constraint coefficients took.
    pub fn phi_footprint(&self) -> (n: usize)
        ensures
            n == self.phi_bytes,
    {
        self.phi_bytes
    }

    /// Bytes on the wire, for a backend proof of `backend_bytes`.
    pub fn wire_bytes(&self, backend_bytes: usize) -> (n: usize)
        requires
            self.t_r.count * 384 + 8 * self.norms@.len() + backend_bytes <= usize::MAX,
        ensures
            n == self.t_r.count * 384 + 8 * self.norms@.len() + backend_bytes,
    {
        polx_wire_bytes(self.t_r.len()) + 8 * self.norms.len() + backend_bytes
    }
}

/// What the verifier is given to check an opening, in the mode the parameters name.
pub enum OpeningMessage<'a> {
    Clear {
        folded_commitment: &'a FoldedCommitment,
        folded_witness: &'a FoldedWitness,
        folded_row_value: &'a F162,
    },
    BitDropped { folded_witness: &'a FoldedWitness, folded_row_value: &'a F162 },
}

} // verus!
