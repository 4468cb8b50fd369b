//! Commitments on the wire.
use super::bits;
use super::bits::{BitReader, BitWriter};
use super::dropped;
use super::uniform;
use super::WireError;
use crate::bd::Dropped;
use crate::bytes;
use crate::ring::element::VerticallyAlignedMatrix;
use crate::scheme::commitment::{Commitment, CommitmentValue};
use crate::scheme::params::Params;
use std::sync::Arc;
use vstd::arithmetic::mul::*;
use vstd::arithmetic::power2::*;
use vstd::prelude::*;

verus! {

/// The bytes of a matrix over `primes` with `columns` columns.
pub open spec fn matrix_len(primes: Seq<u16>, columns: nat) -> nat {
    (4 * columns * (162 * uniform::slot_width(primes, primes.len())) + 7) / 8
}

/// The bits of a slot, over all primes.
fn slot_bits(primes: &[u16]) -> (r: u32)
    requires
        uniform::sound_primes(primes@),
        primes@.len() <= 0x0FFF_FFFF,
    ensures
        r == uniform::slot_width(primes@, primes@.len()),
{
    let mut r: u32 = 0;
    let mut k: usize = 0;
    while k < primes.len()
        invariant
            k <= primes@.len() <= 0x0FFF_FFFF,
            uniform::sound_primes(primes@),
            r == uniform::slot_width(primes@, k as nat),
        decreases primes@.len() - k,
    {
        proof {
            uniform::lemma_slot_width(primes@, k as nat);
        }
        r = r + super::residue_bits(primes[k]);
        k += 1;
    }
    r
}

/// Bytes [`pack_commitment`] produces for a key over `primes` with `columns` columns.
pub fn commitment_bytes(primes: &[u16], columns: usize) -> (n: usize)
    requires
        uniform::sound_primes(primes@),
        primes@.len() <= 0x0FFF_FFFF,
        4 * columns * (162 * uniform::slot_width(primes@, primes@.len())) + 7 <= usize::MAX,
    ensures
        n == matrix_len(primes@, columns as nat),
{
    let b: u32 = slot_bits(primes);
    proof {
        let (c, w) = (columns as int, b as int);
        assert(4 * c * (162 * w) == (4 * c * 162) * w) by (nonlinear_arith);
        assert((4 * c * 162) * 0 == 0);
        if w >= 1 {
            assert(4 * c * 162 <= (4 * c * 162) * w) by (nonlinear_arith)
                requires
                    c >= 0,
                    w >= 1,
            ;
        }
    }
    if b == 0 {
        return 0;
    }
    (4 * columns * 162 * (b as usize) + 7) / 8
}

/// The bits of a commitment's wire form.
pub open spec fn commitment_code(c: Commitment) -> Seq<bool> {
    match c.value {
        CommitmentValue::Matrix(m) => uniform::matrix_code(m.data@, c.primes@),
        CommitmentValue::Dropped(d) => dropped::dropped_code(*d),
        CommitmentValue::Recursive(_) => Seq::empty(),
    }
}

/// The commitment matrix, `ceil(log2 q)` bits per slot per limb, column by column, four rows
/// each, or the bit-dropped digits. Header-free: the shape is [`Params`]. A recursive commitment
/// has no such form.
pub fn pack_commitment(commitment: &Commitment) -> (b: Vec<u8>)
    requires
        commitment.wf(),
        !(commitment.value is Recursive),
    ensures
        b@ == bits::packed(commitment_code(*commitment)),
{
    match &commitment.value {
        CommitmentValue::Matrix(m) => {
            let mut w = BitWriter::with_capacity(0);
            uniform::write_elements(&mut w, commitment.moduli(), m.as_slice());
            w.finish()
        },
        CommitmentValue::Dropped(d) => dropped::pack_dropped(d),
        CommitmentValue::Recursive(_) => vstd::pervasive::unreached(),
    }
}

/// The commitment has the shape `params` asks for, with centred slots or parts in range.
pub open spec fn shaped(c: Commitment, params: Params) -> bool {
    &&& c.wf()
    &&& c.primes@ == params.prime_list()
    &&& c.columns == pow2(params.column_log_len as nat)
    &&& match c.value {
        CommitmentValue::Matrix(m) => params.bits() == 0 && uniform::centred_data(
            m.data@,
            c.primes@,
        ),
        CommitmentValue::Dropped(d) => params.bits() > 0 && dropped::fits_params(*d, params),
        CommitmentValue::Recursive(_) => false,
    }
}

/// The bytes of a commitment of the shape `params` asks for.
pub open spec fn packed_len(params: Params) -> nat {
    if params.bits() > 0 {
        dropped::dropped_len(params)
    } else {
        matrix_len(params.prime_list(), pow2(params.column_log_len as nat))
    }
}

/// The bytes begin with the code of `c`.
pub open spec fn reads(b: Seq<u8>, c: Commitment) -> bool {
    &&& commitment_code(c).len() <= 8 * b.len()
    &&& commitment_code(c) == bits::bit_string(b).take(commitment_code(c).len() as int)
}

proof fn lemma_matrix_bits(c: int, w: int)
    ensures
        4 * c * (162 * w) == (4 * c) * (162 * w),
        0 <= c <= 0xFFFF_FFFF_FFFF_FFFF && 0 <= w <= 0xFFFF_FFFF ==> 0 <= 4 * c * (162 * w)
            <= 4 * 0xFFFF_FFFF_FFFF_FFFF * (162 * 0xFFFF_FFFF),
        c >= 0 && w >= 1 ==> 4 * c <= 4 * c * (162 * w) / 8,
{
    if 0 <= c <= 0xFFFF_FFFF_FFFF_FFFF && 0 <= w <= 0xFFFF_FFFF {
        assert(0 <= 4 * c * (162 * w) <= 4 * 0xFFFF_FFFF_FFFF_FFFF * (162 * 0xFFFF_FFFF))
            by (nonlinear_arith)
            requires
                0 <= c <= 0xFFFF_FFFF_FFFF_FFFF,
                0 <= w <= 0xFFFF_FFFF,
        ;
    }
    if c >= 0 && w >= 1 {
        assert(4 * c * (162 * w) >= 8 * (4 * c)) by (nonlinear_arith)
            requires
                c >= 0,
                w >= 1,
        ;
    }
}

/// The inverse of [`pack_commitment`], against the parameters the verifier holds.
pub fn unpack_commitment(params: &Params, bytes: &[u8]) -> (r: Result<Commitment, WireError>)
    requires
        params.wf(),
        params.bits() <= 31,
        params.bits() > 0 ==> 648 * pow2(params.column_log_len as nat) <= usize::MAX,
    ensures
        match r {
            Ok(c) => {
                &&& !(params.opening is Recursive)
                &&& bytes@.len() == packed_len(*params)
                &&& shaped(c, *params)
                &&& reads(bytes@, c)
            },
            Err(e) => {
                &&& e == WireError::Malformed
                &&& params.opening is Recursive || bytes@.len() != packed_len(*params) || forall|
                    c: Commitment,
                |
                    shaped(c, *params) ==> !(#[trigger] reads(bytes@, c))
            },
        },
{
    let primes = params.primes();
    let columns: usize = params.columns();
    proof {
        dropped::lemma_params_primes(*params);
        params.lemma_few();
    }
    if params.dropped_bits() > 0 {
        return match dropped::unpack_dropped(params, bytes) {
            Ok(d) => Ok(Commitment::of(primes, columns, CommitmentValue::Dropped(Arc::new(d)))),
            Err(e) => {
                proof {
                    if bytes@.len() == packed_len(*params) {
                        assert forall|c: Commitment| shaped(c, *params) implies !(#[trigger] reads(
                            bytes@,
                            c,
                        )) by {
                            if let CommitmentValue::Dropped(d) = c.value {
                                assert(dropped::fits_params(*d, *params));
                                assert(!dropped::reads_dropped(bytes@, *d));
                            }
                        }
                    }
                }
                Err(e)
            },
        };
    }
    let w: u32 = slot_bits(primes.as_slice());
    proof {
        uniform::lemma_slot_width(primes@, primes@.len());
        lemma_matrix_bits(columns as int, w as int);
    }
    let quads: u128 = 4 * (columns as u128);
    let wide: u128 = 162 * (w as u128);
    proof {
        assert(quads * wide <= 0x4_0000_0000_0000_0000 * 0x100_0000_0000) by (nonlinear_arith)
            requires
                quads <= 0x4_0000_0000_0000_0000,
                wide <= 0x100_0000_0000,
        ;
        assert(quads * wide == (4 * columns) * (162 * w));
    }
    if params.recursion() || bytes.len() as u128 != (quads * wide + 7) / 8 {
        return Err(WireError::Malformed);
    }
    let len: usize = bytes.len();
    let mut r = BitReader::new(bytes);
    proof {
        bits::lemma_bit_string_len(bytes@);
    }
    match uniform::read_elements(&mut r, primes.as_slice(), 4 * columns) {
        Some(data) => {
            proof {
                assert forall|j: int| 0 <= j < data@.len() implies (#[trigger] data@[j]).limbs@.len()
                    == primes@.len() by {
                    assert(uniform::centred_element(data@[j], primes@));
                }
                uniform::lemma_element_pieces(data@, primes@);
            }
            let m = VerticallyAlignedMatrix::new(4, columns, data);
            Ok(Commitment::of(primes, columns, CommitmentValue::Matrix(m)))
        },
        None => {
            proof {
                assert forall|c: Commitment| shaped(c, *params) implies !(#[trigger] reads(
                    bytes@,
                    c,
                )) by {
                    if let CommitmentValue::Matrix(m) = c.value {
                        if reads(bytes@, c) {
                            assert(m.data@.len() == 4 * columns);
                            assert forall|j: int| 0 <= j < m.data@.len() implies (
                            #[trigger] m.data@[j]).limbs@.len() == primes@.len() by {
                                assert(uniform::centred_element(m.data@[j], primes@));
                            }
                            uniform::lemma_element_pieces(m.data@, primes@);
                        }
                    }
                }
            }
            Err(WireError::Malformed)
        },
    }
}

/// The bit-dropped value behind the pointer.
pub open spec fn held(d: Arc<Dropped>) -> Dropped {
    *d
}

/// Two commitments of one shape that agree slot by slot or part by part.
pub open spec fn agree(a: Commitment, b: Commitment) -> bool {
    match (a.value, b.value) {
        (CommitmentValue::Matrix(m), CommitmentValue::Matrix(n)) => m.data@.len() == n.data@.len()
            && forall|j: int|
            0 <= j < m.data@.len() ==> (#[trigger] m.data@[j]).limbs@ == n.data@[j].limbs@,
        (CommitmentValue::Dropped(x), CommitmentValue::Dropped(y)) => x.top@ == y.top@ && forall|
            k: int,
        |
            0 <= k < x.digits@.len() ==> (#[trigger] x.digits@[k])@ == y.digits@[k]@,
        _ => false,
    }
}

/// A packed commitment has the length of its shape, reads as itself, and reads as nothing else
/// of its shape.
pub proof fn commitment_round_trip(params: Params, c: Commitment, o: Commitment)
    requires
        params.bits() <= 31,
        shaped(c, params),
        shaped(o, params),
    ensures
        bits::packed(commitment_code(c)).len() == packed_len(params),
        reads(bits::packed(commitment_code(c)), c),
        reads(bits::packed(commitment_code(c)), o) ==> agree(o, c),
{
    let b = bits::packed(commitment_code(c));
    bits::lemma_packed(commitment_code(c));
    match (c.value, o.value) {
        (CommitmentValue::Matrix(m), CommitmentValue::Matrix(n)) => {
            uniform::lemma_element_pieces(m.data@, c.primes@);
            uniform::lemma_element_pieces(n.data@, c.primes@);
            lemma_matrix_bits(
                c.columns as int,
                uniform::slot_width(c.primes@, c.primes@.len()) as int,
            );
            if reads(b, o) {
                uniform::matrix_code_injective(n.data@, m.data@, c.primes@);
            }
        },
        (CommitmentValue::Dropped(x), CommitmentValue::Dropped(y)) => {
            dropped::dropped_round_trip(params, held(x), held(y));
            if reads(b, o) {
                assert(dropped::reads_dropped(b, *y));
            }
        },
        _ => {},
    }
}

/// The bytes that a commitment says it takes on the wire are those of its packed form.
pub proof fn wire_len_is_packed(params: Params, c: Commitment)
    requires
        params.bits() <= 31,
        shaped(c, params),
    ensures
        c.wire_len() == bits::packed(commitment_code(c)).len(),
        8 * c.wire_len() >= commitment_code(c).len(),
        commitment_code(c).len() > 8 * (c.wire_len() - 1),
{
    commitment_round_trip(params, c, c);
    bits::lemma_packed(commitment_code(c));
}

} // verus!
