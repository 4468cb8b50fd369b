//! What the parties absorb before they derive.
use super::commitment::{Commitment, CommitmentValue};
use super::params::Params;
use crate::bytes;
use crate::challenge::transcript::{Script, Transcript};
use crate::fields::scalar::F162;
use crate::labrador::PolxBuf;
use crate::labrador;
use crate::ring::{PowerOfThreeRingElementWithLimbs, VerticallyAlignedMatrix};
use crate::wire;
use crate::wire::bits;
use crate::wire::dropped;
use crate::wire::tagged;
use vstd::prelude::*;
use vstd::string::*;

verus! {

pub open spec fn parameters_label() -> Seq<u8> {
    "labinius/parameters".spec_bytes()
}

pub open spec fn dropped_bits_label() -> Seq<u8> {
    "labinius/dropped-bits".spec_bytes()
}

pub open spec fn commitment_label() -> Seq<u8> {
    "labinius/commitment".spec_bytes()
}

pub open spec fn dropped_label() -> Seq<u8> {
    "labinius/dropped-commitment".spec_bytes()
}

pub open spec fn point_label() -> Seq<u8> {
    "labinius/evaluation-point".spec_bytes()
}

pub open spec fn claim_label() -> Seq<u8> {
    "labinius/claim".spec_bytes()
}

pub open spec fn rest_label() -> Seq<u8> {
    "labinius/rest-commitment".spec_bytes()
}

pub open spec fn norms_label() -> Seq<u8> {
    "labinius/norms".spec_bytes()
}

pub open spec fn statement_label() -> Seq<u8> {
    "labinius/recursion/statement".spec_bytes()
}

pub proof fn lemma_labels()
    ensures
        parameters_label().len() == 19,
        dropped_bits_label().len() == 21,
        commitment_label().len() == 19,
        dropped_label().len() == 27,
        point_label().len() == 25,
        claim_label().len() == 14,
        rest_label().len() == 24,
        norms_label().len() == 14,
        statement_label().len() == 28,
{
    reveal_strlit("labinius/parameters");
    reveal_strlit("labinius/dropped-bits");
    reveal_strlit("labinius/commitment");
    reveal_strlit("labinius/dropped-commitment");
    reveal_strlit("labinius/evaluation-point");
    reveal_strlit("labinius/claim");
    reveal_strlit("labinius/rest-commitment");
    reveal_strlit("labinius/norms");
    reveal_strlit("labinius/recursion/statement");
    assert("labinius/parameters".is_ascii());
    assert("labinius/dropped-bits".is_ascii());
    assert("labinius/commitment".is_ascii());
    assert("labinius/dropped-commitment".is_ascii());
    assert("labinius/evaluation-point".is_ascii());
    assert("labinius/claim".is_ascii());
    assert("labinius/rest-commitment".is_ascii());
    assert("labinius/norms".is_ascii());
    assert("labinius/recursion/statement".is_ascii());
    is_ascii_spec_bytes("labinius/parameters");
    is_ascii_spec_bytes("labinius/dropped-bits");
    is_ascii_spec_bytes("labinius/commitment");
    is_ascii_spec_bytes("labinius/dropped-commitment");
    is_ascii_spec_bytes("labinius/evaluation-point");
    is_ascii_spec_bytes("labinius/claim");
    is_ascii_spec_bytes("labinius/rest-commitment");
    is_ascii_spec_bytes("labinius/norms");
    is_ascii_spec_bytes("labinius/recursion/statement");
}

/// The script once the first `n` numbers are absorbed.
pub open spec fn absorb_all(s: Script, v: Seq<u64>, n: nat) -> Script
    decreases n,
{
    if n == 0 {
        s
    } else {
        absorb_all(s, v, (n - 1) as nat).absorb_u64(v[n - 1])
    }
}

pub proof fn lemma_absorb_all(s: Script, v: Seq<u64>, n: nat)
    ensures
        absorb_all(s, v, n).absorbed.len() == s.absorbed.len() + 8 * n,
        absorb_all(s, v, n).counter == s.counter,
        absorb_all(s, v, n).key == s.key,
    decreases n,
{
    if n > 0 {
        lemma_absorb_all(s, v, (n - 1) as nat);
        bytes::lemma_le_len(v[n - 1] as nat, 8);
    }
}

/// The primes as numbers.
pub open spec fn wide(p: Seq<u16>) -> Seq<u64> {
    Seq::new(p.len(), |i: int| p[i] as u64)
}

/// The script once the parameters and the matrix seed are absorbed: the shape, the moduli, the
/// mode.
pub open spec fn absorb_parameters(s: Script, params: Params, seed: Seq<u8>) -> Script {
    let shape = s.absorb_bytes(parameters_label()).absorb_u64(
        params.witness_log_len as u64,
    ).absorb_u64(params.column_log_len as u64);
    let moduli = absorb_all(shape, wide(params.prime_list()), params.prime_list().len());
    let mode = moduli.absorb_u64(
        if params.opening is Recursive {
            1
        } else {
            0
        },
    );
    let bits = if params.bits() > 0 {
        mode.absorb_bytes(dropped_bits_label()).absorb_u64(params.bits() as u64)
    } else {
        mode
    };
    let backend = if params.opening is Recursive {
        bits.absorb_u64(48)
    } else {
        bits
    };
    backend.absorb_bytes(seed)
}

/// The script once the first `n` columns of the matrix are absorbed.
pub open spec fn absorb_columns(
    s: Script,
    m: VerticallyAlignedMatrix<PowerOfThreeRingElementWithLimbs>,
    n: nat,
) -> Script
    decreases n,
{
    if n == 0 {
        s
    } else {
        absorb_columns(s, m, (n - 1) as nat).absorb(
            bytes::le(m.rows as nat, 8) + tagged::matrix_bytes(
                m.data@.subrange((n - 1) * m.rows, n * m.rows),
            ),
        )
    }
}

pub proof fn lemma_absorb_columns(
    s: Script,
    m: VerticallyAlignedMatrix<PowerOfThreeRingElementWithLimbs>,
    j: nat,
    n: nat,
)
    requires
        j <= n,
    ensures
        s.absorbed.len() <= absorb_columns(s, m, j).absorbed.len() <= absorb_columns(
            s,
            m,
            n,
        ).absorbed.len(),
        absorb_columns(s, m, n).counter == s.counter,
    decreases n,
{
    if n > 0 {
        if j < n {
            lemma_absorb_columns(s, m, j, (n - 1) as nat);
        } else {
            lemma_absorb_columns(s, m, (n - 1) as nat, (n - 1) as nat);
        }
    }
}

/// The script once a commitment is absorbed behind the parameters.
pub open spec fn absorb_commitment(s: Script, c: Commitment) -> Script {
    let head = s.absorb_bytes(commitment_label()).absorb_u64(c.columns as u64);
    match c.value {
        CommitmentValue::Matrix(m) => absorb_columns(head, m, c.columns as nat),
        CommitmentValue::Recursive(t) => head.absorb_bytes(t.bytes@),
        CommitmentValue::Dropped(d) => head.absorb_bytes(dropped_label()).absorb_bytes(
            bits::packed(dropped::dropped_code(*d)),
        ),
    }
}

/// Absorbs a list of numbers.
fn push_all(t: &mut Transcript, v: &[u64])
    requires
        old(t)@.room(8 * v@.len()),
    ensures
        final(t)@ == absorb_all(old(t)@, v@, v@.len()),
{
    let ghost s = t@;
    let n: usize = v.len();
    let mut i: usize = 0;
    while i < n
        invariant
            i <= n == v@.len(),
            s.room(8 * v@.len()),
            t@ == absorb_all(s, v@, i as nat),
        decreases n - i,
    {
        proof {
            lemma_absorb_all(s, v@, i as nat);
        }
        t.absorb_u64(v[i]);
        i += 1;
    }
}

/// The primes as numbers.
fn widened(p: &Vec<u16>) -> (v: Vec<u64>)
    ensures
        v@ == wide(p@),
{
    let n: usize = p.len();
    let mut v: Vec<u64> = Vec::new();
    let mut i: usize = 0;
    while i < n
        invariant
            i <= n == p@.len(),
            v@.len() == i,
            forall|k: int| 0 <= k < i ==> (#[trigger] v@[k]) == p@[k],
        decreases n - i,
    {
        v.push(p[i] as u64);
        i += 1;
    }
    assert(v@ =~= wide(p@));
    v
}

/// Absorbs the parameters and the matrix seed, before anything the prover chooses.
pub fn push_parameters(t: &mut Transcript, params: &Params, seed: &[u8; 32])
    requires
        params.wf(),
        old(t)@.room(400),
    ensures
        final(t)@ == absorb_parameters(old(t)@, *params, seed@),
        final(t)@.absorbed.len() <= old(t)@.absorbed.len() + 400,
        final(t)@.counter == old(t)@.counter,
{
    let primes = params.primes();
    let p = widened(&primes);
    let ghost s = t@;
    proof {
        lemma_labels();
        params.lemma_few();
        bytes::lemma_le_len(parameters_label().len(), 8);
        bytes::lemma_le_len(params.witness_log_len as nat, 8);
        bytes::lemma_le_len(params.column_log_len as nat, 8);
        bytes::lemma_le_len(dropped_bits_label().len(), 8);
        bytes::lemma_le_len(params.bits() as nat, 8);
        bytes::lemma_le_len(48, 8);
        bytes::lemma_le_len(0, 8);
        bytes::lemma_le_len(1, 8);
        bytes::lemma_le_len(seed@.len(), 8);
    }
    t.absorb_bytes("labinius/parameters".as_bytes());
    t.absorb_u64(params.witness_log_len as u64);
    t.absorb_u64(params.column_log_len as u64);
    proof {
        lemma_absorb_all(t@, p@, p@.len());
    }
    push_all(t, p.as_slice());
    if params.recursion() {
        t.absorb_u64(1);
    } else {
        t.absorb_u64(0);
    }
    if params.dropped_bits() > 0 {
        t.absorb_bytes("labinius/dropped-bits".as_bytes());
        t.absorb_u64(params.dropped_bits() as u64);
    }
    if params.recursion() {
        t.absorb_u64(labrador::logq() as u64);
    }
    t.absorb_bytes(seed);
}

/// The value of a commitment only adds to what stands before it.
proof fn lemma_head_len(s: Script, c: Commitment)
    ensures
        s.absorb_bytes(commitment_label()).absorb_u64(c.columns as u64).absorbed.len()
            <= absorb_commitment(s, c).absorbed.len(),
{
    let head = s.absorb_bytes(commitment_label()).absorb_u64(c.columns as u64);
    match c.value {
        CommitmentValue::Matrix(m) => {
            lemma_absorb_columns(head, m, 0, c.columns as nat);
        },
        CommitmentValue::Recursive(b) => {},
        CommitmentValue::Dropped(d) => {},
    }
}

/// Absorbs a commitment.
pub fn push_commitment(t: &mut Transcript, c: &Commitment)
    requires
        c.wf(),
        absorb_commitment(old(t)@, *c).absorbed.len() <= u64::MAX,
    ensures
        final(t)@ == absorb_commitment(old(t)@, *c),
        final(t)@.counter == old(t)@.counter,
{
    let ghost s = t@;
    let ghost end = absorb_commitment(s, *c);
    proof {
        lemma_labels();
        bytes::lemma_le_len(commitment_label().len(), 8);
        bytes::lemma_le_len(dropped_label().len(), 8);
        bytes::lemma_le_len(c.columns as nat, 8);
        lemma_head_len(s, *c);
    }
    t.absorb_bytes("labinius/commitment".as_bytes());
    t.absorb_u64(c.columns as u64);
    let ghost head = t@;
    match &c.value {
        CommitmentValue::Matrix(m) => {
            let n: usize = c.columns;
            let mut j: usize = 0;
            while j < n
                invariant
                    j <= n == m.cols,
                    m.wf(),
                    m.rows == 4,
                    t@ == absorb_columns(head, *m, j as nat),
                    absorb_columns(head, *m, n as nat).absorbed.len() <= u64::MAX,
                    forall|i: int|
                        0 <= i < m.data@.len() ==> (#[trigger] m.data@[i]).limbs@.len()
                            == c.primes@.len(),
                decreases n - j,
            {
                let col = m.column(j);
                proof {
                    m.lemma_index(0, j as int);
                    lemma_absorb_columns(head, *m, (j + 1) as nat, n as nat);
                    bytes::lemma_le_len(4, 8);
                    assert forall|i: int| 0 <= i < col@.len() implies (#[trigger] col@[i]).limbs@.len()
                        == c.primes@.len() by {
                        assert(col@[i] == m.data@[j * m.rows + i]);
                    }
                    assert(col@ == m.data@.subrange((j + 1 - 1) * m.rows, (j + 1) * m.rows));
                }
                t.absorb_elements(col);
                j += 1;
            }
            proof {
                lemma_absorb_columns(head, *m, n as nat, n as nat);
            }
        },
        CommitmentValue::Recursive(b) => {
            proof {
                bytes::lemma_le_len(b.bytes@.len(), 8);
            }
            t.absorb_bytes(b.as_bytes());
        },
        CommitmentValue::Dropped(d) => {
            t.absorb_bytes("labinius/dropped-commitment".as_bytes());
            let b = wire::pack_dropped(d);
            proof {
                bytes::lemma_le_len(b@.len(), 8);
            }
            t.absorb_bytes(b.as_slice());
        },
    }
}

// ---------------------------------------------------------------------------------------------
// the recursive opening
// ---------------------------------------------------------------------------------------------

/// The script once the claimed value, `T_R` and the announced norms are absorbed.
pub open spec fn absorb_opening(s: Script, claim: F162, t_r: Seq<u8>, norms: Seq<u64>) -> Script {
    let a = s.absorb_bytes(claim_label()).absorb_u64(claim.0[0]).absorb_u64(claim.0[1]).absorb_u64(
        claim.0[2],
    );
    let b = a.absorb_bytes(rest_label()).absorb_bytes(t_r).absorb_bytes(norms_label());
    absorb_all(b, norms, norms.len())
}

/// The claimed value, `T_R` and the announced norms, in the transcript position the fold has in
/// the clear mode.
pub fn push_opening(t: &mut Transcript, claim: &F162, t_r: &PolxBuf, norms: &[u64])
    requires
        old(t)@.room(128 + t_r.bytes@.len() + 8 * norms@.len()),
    ensures
        final(t)@ == absorb_opening(old(t)@, *claim, t_r.bytes@, norms@),
        final(t)@.counter == old(t)@.counter,
        final(t)@.absorbed.len() <= old(t)@.absorbed.len() + 128 + t_r.bytes@.len() + 8 * norms@.len(),
{
    proof {
        lemma_labels();
        bytes::lemma_le_len(claim_label().len(), 8);
        bytes::lemma_le_len(rest_label().len(), 8);
        bytes::lemma_le_len(norms_label().len(), 8);
        bytes::lemma_le_len(t_r.bytes@.len(), 8);
        bytes::lemma_le_len(claim.0[0] as nat, 8);
        bytes::lemma_le_len(claim.0[1] as nat, 8);
        bytes::lemma_le_len(claim.0[2] as nat, 8);
    }
    t.absorb_bytes("labinius/claim".as_bytes());
    t.absorb_u64(claim.0[0]);
    t.absorb_u64(claim.0[1]);
    t.absorb_u64(claim.0[2]);
    t.absorb_bytes("labinius/rest-commitment".as_bytes());
    t.absorb_bytes(t_r.as_bytes());
    t.absorb_bytes("labinius/norms".as_bytes());
    proof {
        lemma_absorb_all(t@, norms@, norms@.len());
    }
    push_all(t, norms);
}

/// The digest of the statement: a function of everything absorbed so far, so one derivation of the
/// transcript rather than a hash of the constraints.
pub fn statement_digest(t: &mut Transcript) -> (d: [u8; 32])
    requires
        old(t)@.can_derive(28),
    ensures
        final(t)@ == old(t)@.next(),
        d@ == old(t)@.output(statement_label(), 32),
{
    proof {
        lemma_labels();
    }
    let mut d: [u8; 32] = [0u8; 32];
    t.fill("labinius/recursion/statement".as_bytes(), &mut d);
    d
}

} // verus!
