//! Uniform objects, bit-packed: the commitment matrix, its bit-dropped form and the row
//! evaluation.
use super::bits;
use super::bits::{BitReader, BitWriter};
use super::cat;
use super::WireError;
use crate::fields::scalar::F162;
use crate::ring;
use crate::ring::element::{PowerOfThreeRingElement, PowerOfThreeRingElementWithLimbs};
use crate::scheme::commitment::RowEvaluation;
use vstd::arithmetic::mul::*;
use vstd::arithmetic::power2::*;
use vstd::prelude::*;

verus! {

/// Bits of one `F162` on the wire.
pub const F162_BITS: u32 = 162;

// ---------------------------------------------------------------------------------------------
// field elements
// ---------------------------------------------------------------------------------------------

/// The 162 bits of `x`.
pub open spec fn f162_code(x: F162) -> Seq<bool> {
    bits::bits_of(x.0[0] as nat, 64) + bits::bits_of(x.0[1] as nat, 64) + bits::bits_of(
        x.0[2] as nat,
        34,
    )
}

/// The pieces of [`f162s_code`].
pub open spec fn f162_piece(v: Seq<F162>) -> spec_fn(int) -> Seq<bool> {
    |i: int| f162_code(v[i])
}

/// `F162` elements at 162 bits each, one behind the other.
pub open spec fn f162s_code(v: Seq<F162>) -> Seq<bool> {
    cat::cat(f162_piece(v), v.len())
}

proof fn lemma_f162_code(x: F162)
    ensures
        f162_code(x).len() == 162,
        f162_code(x).subrange(0, 64) == bits::bits_of(x.0[0] as nat, 64),
        f162_code(x).subrange(64, 128) == bits::bits_of(x.0[1] as nat, 64),
        f162_code(x).subrange(128, 162) == bits::bits_of(x.0[2] as nat, 34),
{
    bits::lemma_bits_len(x.0[0] as nat, 64);
    bits::lemma_bits_len(x.0[1] as nat, 64);
    bits::lemma_bits_len(x.0[2] as nat, 34);
    assert(f162_code(x).subrange(0, 64) =~= bits::bits_of(x.0[0] as nat, 64));
    assert(f162_code(x).subrange(64, 128) =~= bits::bits_of(x.0[1] as nat, 64));
    assert(f162_code(x).subrange(128, 162) =~= bits::bits_of(x.0[2] as nat, 34));
}

proof fn lemma_f162s_len(v: Seq<F162>)
    ensures
        f162s_code(v).len() == 162 * v.len(),
{
    assert forall|i: int| 0 <= i < v.len() implies (#[trigger] f162_piece(v)(i)).len() == 162 by {
        lemma_f162_code(v[i]);
    }
    cat::lemma_len(f162_piece(v), v.len(), 162);
}

/// Two elements with the same bits are the same.
proof fn lemma_f162_code_injective(x: F162, y: F162)
    requires
        x.wf(),
        y.wf(),
        f162_code(x) == f162_code(y),
    ensures
        x == y,
{
    lemma2_to64();
    lemma_pow2_34();
    lemma_f162_code(x);
    lemma_f162_code(y);
    bits::lemma_of_bits(x.0[0] as nat, 64);
    bits::lemma_of_bits(y.0[0] as nat, 64);
    bits::lemma_of_bits(x.0[1] as nat, 64);
    bits::lemma_of_bits(y.0[1] as nat, 64);
    bits::lemma_of_bits(x.0[2] as nat, 34);
    bits::lemma_of_bits(y.0[2] as nat, 34);
    F162::lemma_limbs(x, y);
}

/// Sequences of elements with the same code are the same.
pub proof fn f162s_code_injective(v: Seq<F162>, w: Seq<F162>)
    requires
        forall|i: int| 0 <= i < v.len() ==> (#[trigger] v[i]).wf(),
        forall|i: int| 0 <= i < w.len() ==> (#[trigger] w[i]).wf(),
        f162s_code(v) == f162s_code(w),
    ensures
        v == w,
{
    lemma_f162s_len(v);
    lemma_f162s_len(w);
    assert(v.len() == w.len());
    assert forall|i: int| 0 <= i < v.len() implies v[i] == w[i] by {
        assert forall|i: int| 0 <= i < v.len() implies (#[trigger] f162_piece(v)(i)).len()
            == 162 by {
            lemma_f162_code(v[i]);
        }
        assert forall|i: int| 0 <= i < w.len() implies (#[trigger] f162_piece(w)(i)).len()
            == 162 by {
            lemma_f162_code(w[i]);
        }
        cat::lemma_even_slice(f162_piece(v), v.len(), 162, i as nat);
        cat::lemma_even_slice(f162_piece(w), w.len(), 162, i as nat);
        lemma_f162_code_injective(v[i], w[i]);
    }
    assert(v =~= w);
}

/// Bytes [`pack_f162`] produces for `count` elements.
pub fn f162_bytes(count: usize) -> (n: usize)
    requires
        count * 162 + 7 <= usize::MAX,
    ensures
        n == (count * 162 + 7) / 8,
{
    (count * F162_BITS as usize + 7) / 8
}

/// `F162` elements at 162 bits each, contiguously: `ceil(162 n / 8)` bytes.
pub fn pack_f162(values: &[F162]) -> (b: Vec<u8>)
    ensures
        b@ == bits::packed(f162s_code(values@)),
        b@.len() == (values@.len() * 162 + 7) / 8,
{
    let mut w = BitWriter::with_capacity(0);
    let mut i: usize = 0;
    while i < values.len()
        invariant
            i <= values@.len(),
            w.wf(),
            w@ == cat::cat(f162_piece(values@), i as nat),
        decreases values@.len() - i,
    {
        let ghost before = w@;
        let x = values[i];
        w.put_wide(x.0[0], 64);
        w.put_wide(x.0[1], 64);
        w.put_wide(x.0[2], F162_BITS - 128);
        assert(w@ =~= before + f162_code(x));
        assert(f162_piece(values@)(i as int) == f162_code(x));
        i += 1;
    }
    proof {
        lemma_f162s_len(values@);
        bits::lemma_packed(f162s_code(values@));
    }
    w.finish()
}

/// The inverse of [`pack_f162`] for `count` elements: the elements whose code the bytes begin
/// with, for any byte string of the right length.
pub fn unpack_f162(bytes: &[u8], count: usize) -> (r: Result<Vec<F162>, WireError>)
    ensures
        match r {
            Ok(v) => {
                &&& bytes@.len() == (count * 162 + 7) / 8
                &&& v@.len() == count
                &&& forall|i: int| 0 <= i < count ==> (#[trigger] v@[i]).wf()
                &&& f162s_code(v@) == bits::bit_string(bytes@).take(162 * count)
            },
            Err(e) => e == WireError::Malformed && bytes@.len() != (count * 162 + 7) / 8,
        },
{
    if bytes.len() as u128 != (count as u128 * 162 + 7) / 8 {
        return Err(WireError::Malformed);
    }
    let mut r = BitReader::new(bytes);
    let mut v: Vec<F162> = Vec::with_capacity(count);
    let ghost s = bits::bit_string(bytes@);
    proof {
        bits::lemma_bit_string_len(bytes@);
        lemma2_to64();
        assert(s.take(0) =~= Seq::<bool>::empty());
    }
    let mut i: usize = 0;
    while i < count
        invariant
            i <= count,
            r.wf(),
            r.stream() == s,
            s.len() >= 162 * count,
            r.at() == 162 * i,
            v@.len() == i,
            forall|k: int| 0 <= k < i ==> (#[trigger] v@[k]).wf(),
            cat::cat(f162_piece(v@), i as nat) == s.take(162 * i),
        decreases count - i,
    {
        let ghost at = 162 * i;
        let a: u64 = match r.get_wide(64) {
            Ok(x) => x,
            Err(_) => {
                return Err(WireError::Malformed);
            },
        };
        let b: u64 = match r.get_wide(64) {
            Ok(x) => x,
            Err(_) => {
                return Err(WireError::Malformed);
            },
        };
        let c: u64 = match r.get_wide(F162_BITS - 128) {
            Ok(x) => x,
            Err(_) => {
                return Err(WireError::Malformed);
            },
        };
        let x = F162([a, b, c]);
        let ghost prior = v@;
        v.push(x);
        proof {
            bits::lemma_bits_of(s.subrange(at, at + 64));
            bits::lemma_bits_of(s.subrange(at + 64, at + 128));
            bits::lemma_bits_of(s.subrange(at + 128, at + 162));
            lemma2_to64();
            lemma_pow2_34();
            assert(f162_code(x) =~= s.subrange(at, at + 162));
            assert forall|k: int| 0 <= k < i implies #[trigger] f162_piece(prior)(k) == f162_piece(
                v@,
            )(k) by {
                assert(prior[k] == v@[k]);
            }
            cat::lemma_same(f162_piece(prior), f162_piece(v@), i as nat);
            assert(f162_piece(v@)(i as int) == f162_code(x));
            assert(s.take(at) + s.subrange(at, at + 162) =~= s.take(at + 162));
        }
        i += 1;
    }
    Ok(v)
}

proof fn lemma_pow2_34()
    ensures
        pow2(34) == 0x4_0000_0000,
{
    lemma2_to64();
    lemma_pow2_adds(32, 2);
}

/// Packed field elements unpack to themselves.
pub proof fn f162_round_trip(v: Seq<F162>, w: Seq<F162>)
    requires
        forall|i: int| 0 <= i < v.len() ==> (#[trigger] v[i]).wf(),
        forall|i: int| 0 <= i < w.len() ==> (#[trigger] w[i]).wf(),
        f162s_code(w) == bits::bit_string(bits::packed(f162s_code(v))).take((162 * v.len()) as int),
    ensures
        w == v,
{
    lemma_f162s_len(v);
    bits::lemma_packed(f162s_code(v));
    f162s_code_injective(w, v);
}

/// The row evaluation, 162 bits per element back to back.
pub fn pack_row_evaluation(row: &RowEvaluation) -> (b: Vec<u8>)
    ensures
        b@ == bits::packed(f162s_code(row.values@)),
        b@.len() == (row.values@.len() * 162 + 7) / 8,
{
    pack_f162(row.values())
}

/// The inverse of [`pack_row_evaluation`] for `count` elements.
pub fn unpack_row_evaluation(bytes: &[u8], count: usize) -> (r: Result<RowEvaluation, WireError>)
    ensures
        match r {
            Ok(row) => {
                &&& bytes@.len() == (count * 162 + 7) / 8
                &&& row.values@.len() == count
                &&& forall|i: int| 0 <= i < count ==> (#[trigger] row.values@[i]).wf()
                &&& f162s_code(row.values@) == bits::bit_string(bytes@).take(162 * count)
            },
            Err(e) => e == WireError::Malformed && bytes@.len() != (count * 162 + 7) / 8,
        },
{
    match unpack_f162(bytes, count) {
        Ok(v) => Ok(RowEvaluation::of(v)),
        Err(e) => Err(e),
    }
}

// ---------------------------------------------------------------------------------------------
// the commitment matrix
// ---------------------------------------------------------------------------------------------

/// The centred representative of the residue `u` of `q`.
pub open spec fn centre(u: int, q: int) -> int {
    if u > (q - 1) / 2 {
        u - q
    } else {
        u
    }
}

/// Every slot is the centred representative of its residue.
pub open spec fn centred(v: Seq<i16>, q: u16) -> bool {
    forall|i: int| 0 <= i < v.len() ==> (#[trigger] v[i]) == centre(v[i] as int % q as int, q as int)
}

/// The pieces of [`limb_code`].
pub open spec fn slot_piece(v: Seq<i16>, q: u16) -> spec_fn(int) -> Seq<bool> {
    |i: int| bits::bits_of((v[i] as int % q as int) as nat, super::residue_width(q as nat))
}

/// The residues of the slots of one limb, `ceil(log2 q)` bits each.
pub open spec fn limb_code(v: Seq<i16>, q: u16) -> Seq<bool> {
    cat::cat(slot_piece(v, q), v.len())
}

/// The pieces of [`element_code`].
pub open spec fn limb_piece(
    e: PowerOfThreeRingElementWithLimbs,
    primes: Seq<u16>,
) -> spec_fn(int) -> Seq<bool> {
    |k: int| limb_code(e.limbs@[k].v@, primes[k])
}

/// The limbs of one element, one behind the other.
pub open spec fn element_code(e: PowerOfThreeRingElementWithLimbs, primes: Seq<u16>) -> Seq<bool> {
    cat::cat(limb_piece(e, primes), e.limbs@.len())
}

/// The pieces of [`matrix_code`].
pub open spec fn element_piece(
    data: Seq<PowerOfThreeRingElementWithLimbs>,
    primes: Seq<u16>,
) -> spec_fn(int) -> Seq<bool> {
    |j: int| element_code(data[j], primes)
}

/// The elements, one behind the other.
pub open spec fn matrix_code(
    data: Seq<PowerOfThreeRingElementWithLimbs>,
    primes: Seq<u16>,
) -> Seq<bool> {
    cat::cat(element_piece(data, primes), data.len())
}

/// The bits of one slot over the first `n` primes.
pub open spec fn slot_width(primes: Seq<u16>, n: nat) -> nat
    decreases n,
{
    if n == 0 {
        0
    } else {
        slot_width(primes, (n - 1) as nat) + super::residue_width(primes[n - 1] as nat)
    }
}

/// Primes that fit the slots.
pub open spec fn sound_primes(primes: Seq<u16>) -> bool {
    forall|k: int| 0 <= k < primes.len() ==> 2 <= (#[trigger] primes[k]) <= 0x7FFF
}

/// An element over `primes` with centred slots.
pub open spec fn centred_element(e: PowerOfThreeRingElementWithLimbs, primes: Seq<u16>) -> bool {
    &&& e.limbs@.len() == primes.len()
    &&& forall|k: int|
        0 <= k < primes.len() ==> centred((#[trigger] e.limbs@[k]).v@, primes[k])
}

/// Elements over `primes` with centred slots.
pub open spec fn centred_data(
    data: Seq<PowerOfThreeRingElementWithLimbs>,
    primes: Seq<u16>,
) -> bool {
    forall|j: int| 0 <= j < data.len() ==> centred_element(#[trigger] data[j], primes)
}

pub proof fn lemma_slot_width(primes: Seq<u16>, n: nat)
    requires
        sound_primes(primes),
        n <= primes.len(),
    ensures
        n <= slot_width(primes, n) <= 16 * n,
    decreases n,
{
    if n > 0 {
        lemma_slot_width(primes, (n - 1) as nat);
        super::lemma_residue_width(primes[n - 1]);
    }
}

proof fn lemma_slot_pieces(v: Seq<i16>, q: u16)
    ensures
        forall|i: int|
            0 <= i < v.len() ==> (#[trigger] slot_piece(v, q)(i)).len() == super::residue_width(
                q as nat,
            ),
        limb_code(v, q).len() == v.len() * super::residue_width(q as nat),
{
    let w = super::residue_width(q as nat);
    assert forall|i: int| 0 <= i < v.len() implies (#[trigger] slot_piece(v, q)(i)).len() == w by {
        bits::lemma_bits_len((v[i] as int % q as int) as nat, w);
    }
    cat::lemma_len(slot_piece(v, q), v.len(), w);
}

proof fn lemma_limb_pieces(e: PowerOfThreeRingElementWithLimbs, primes: Seq<u16>, n: nat)
    requires
        n <= e.limbs@.len(),
    ensures
        cat::cat(limb_piece(e, primes), n).len() == 162 * slot_width(primes, n),
    decreases n,
{
    if n > 0 {
        lemma_limb_pieces(e, primes, (n - 1) as nat);
        lemma_slot_pieces(e.limbs@[n - 1].v@, primes[n - 1]);
        assert(limb_piece(e, primes)(n - 1).len() == 162 * super::residue_width(
            primes[n - 1] as nat,
        ));
    }
}

pub proof fn lemma_element_pieces(data: Seq<PowerOfThreeRingElementWithLimbs>, primes: Seq<u16>)
    requires
        forall|j: int| 0 <= j < data.len() ==> (#[trigger] data[j]).limbs@.len() == primes.len(),
    ensures
        forall|j: int|
            0 <= j < data.len() ==> (#[trigger] element_piece(data, primes)(j)).len() == 162
                * slot_width(primes, primes.len()),
        matrix_code(data, primes).len() == data.len() * (162 * slot_width(primes, primes.len())),
{
    assert forall|j: int| 0 <= j < data.len() implies (#[trigger] element_piece(
        data,
        primes,
    )(j)).len() == 162 * slot_width(primes, primes.len()) by {
        lemma_limb_pieces(data[j], primes, primes.len());
    }
    cat::lemma_len(
        element_piece(data, primes),
        data.len(),
        162 * slot_width(primes, primes.len()),
    );
}

proof fn lemma_residue_fits(x: int, q: u16)
    requires
        q >= 2,
    ensures
        0 <= x % (q as int) < q,
        (x % (q as int)) < pow2(super::residue_width(q as nat)),
{
    vstd::arithmetic::div_mod::lemma_mod_bound(x, q as int);
    super::lemma_residue_width(q);
}

/// Centred limbs with the same code are the same.
proof fn lemma_limb_injective(a: PowerOfThreeRingElement, b: PowerOfThreeRingElement, q: u16)
    requires
        q >= 2,
        centred(a.v@, q),
        centred(b.v@, q),
        limb_code(a.v@, q) == limb_code(b.v@, q),
    ensures
        a == b,
{
    let w = super::residue_width(q as nat);
    lemma_slot_pieces(a.v@, q);
    lemma_slot_pieces(b.v@, q);
    assert forall|i: int| 0 <= i < 162 implies a.v@[i] == b.v@[i] by {
        cat::lemma_even_slice(slot_piece(a.v@, q), 162, w, i as nat);
        cat::lemma_even_slice(slot_piece(b.v@, q), 162, w, i as nat);
        lemma_residue_fits(a.v@[i] as int, q);
        lemma_residue_fits(b.v@[i] as int, q);
        bits::lemma_of_bits((a.v@[i] as int % q as int) as nat, w);
        bits::lemma_of_bits((b.v@[i] as int % q as int) as nat, w);
    }
    assert(a.v@ =~= b.v@);
    assert(a.v =~= b.v);
}

/// Centred elements with the same code have the same limbs.
proof fn lemma_element_injective(
    a: PowerOfThreeRingElementWithLimbs,
    b: PowerOfThreeRingElementWithLimbs,
    primes: Seq<u16>,
)
    requires
        sound_primes(primes),
        centred_element(a, primes),
        centred_element(b, primes),
        element_code(a, primes) == element_code(b, primes),
    ensures
        a.limbs@ == b.limbs@,
{
    let n = primes.len();
    assert forall|k: int| 0 <= k < n implies a.limbs@[k] == b.limbs@[k] by {
        cat::lemma_slice(limb_piece(a, primes), n, k as nat);
        cat::lemma_slice(limb_piece(b, primes), n, k as nat);
        lemma_limb_pieces(a, primes, k as nat);
        lemma_limb_pieces(b, primes, k as nat);
        lemma_slot_pieces(a.limbs@[k].v@, primes[k]);
        lemma_slot_pieces(b.limbs@[k].v@, primes[k]);
        assert(limb_piece(a, primes)(k) == limb_piece(b, primes)(k));
        lemma_limb_injective(a.limbs@[k], b.limbs@[k], primes[k]);
    }
    assert(a.limbs@ =~= b.limbs@);
}

/// Elements with centred slots and the same code have the same limbs.
pub proof fn matrix_code_injective(
    a: Seq<PowerOfThreeRingElementWithLimbs>,
    b: Seq<PowerOfThreeRingElementWithLimbs>,
    primes: Seq<u16>,
)
    requires
        sound_primes(primes),
        a.len() == b.len(),
        centred_data(a, primes),
        centred_data(b, primes),
        matrix_code(a, primes) == matrix_code(b, primes),
    ensures
        forall|j: int| 0 <= j < a.len() ==> (#[trigger] a[j]).limbs@ == b[j].limbs@,
{
    assert forall|j: int| 0 <= j < a.len() implies (#[trigger] a[j]).limbs@.len()
        == primes.len() by {
        assert(centred_element(a[j], primes));
    }
    assert forall|j: int| 0 <= j < b.len() implies (#[trigger] b[j]).limbs@.len()
        == primes.len() by {
        assert(centred_element(b[j], primes));
    }
    lemma_element_pieces(a, primes);
    lemma_element_pieces(b, primes);
    let w = 162 * slot_width(primes, primes.len());
    assert forall|j: int| 0 <= j < a.len() implies (#[trigger] a[j]).limbs@ == b[j].limbs@ by {
        cat::lemma_even_slice(element_piece(a, primes), a.len(), w, j as nat);
        cat::lemma_even_slice(element_piece(b, primes), b.len(), w, j as nat);
        assert(centred_element(a[j], primes) && centred_element(b[j], primes));
        lemma_element_injective(a[j], b[j], primes);
    }
}

/// Reads one limb.
fn read_limb(r: &mut BitReader, q: u16) -> (p: Option<PowerOfThreeRingElement>)
    requires
        old(r).wf(),
        2 <= q <= 0x7FFF,
        old(r).at() + 162 * super::residue_width(q as nat) <= old(r).stream().len(),
    ensures
        final(r).stream() == old(r).stream(),
        match p {
            Some(p) => {
                &&& final(r).wf()
                &&& final(r).at() == old(r).at() + 162 * super::residue_width(q as nat)
                &&& centred(p.v@, q)
                &&& limb_code(p.v@, q) == old(r).stream().subrange(
                    old(r).at() as int,
                    final(r).at() as int,
                )
            },
            None => forall|p: PowerOfThreeRingElement| #[trigger]
                limb_code(p.v@, q) != old(r).stream().subrange(
                    old(r).at() as int,
                    (old(r).at() + 162 * super::residue_width(q as nat)) as int,
                ),
        },
{
    let bits: u32 = super::residue_bits(q);
    let ghost w = super::residue_width(q as nat);
    let ghost s = r.stream();
    let ghost at = r.at() as int;
    let half: u64 = (q as u64 - 1) / 2;
    let mut p = PowerOfThreeRingElement::zero();
    proof {
        assert(cat::cat(slot_piece(p.v@, q), 0) =~= s.subrange(at, at));
        assert(0 * w == 0);
    }
    let mut i: usize = 0;
    while i < 162
        invariant
            i <= 162,
            2 <= q <= 0x7FFF,
            bits == w == super::residue_width(q as nat),
            bits <= 16,
            half == (q - 1) / 2,
            r.wf(),
            r.stream() == s,
            s == old(r).stream(),
            0 <= at == old(r).at(),
            r.at() == at + i * w,
            at + 162 * w <= s.len(),
            forall|k: int|
                0 <= k < i ==> (#[trigger] p.v@[k]) == centre(p.v@[k] as int % q as int, q as int),
            cat::cat(slot_piece(p.v@, q), i as nat) == s.subrange(at, at + i * w),
        decreases 162 - i,
    {
        let ghost here = at + i * w;
        proof {
            assert((i + 1) * w == i * w + w && (i + 1) * w <= 162 * w) by (nonlinear_arith)
                requires
                    0 <= i < 162,
                    0 <= w,
            ;
        }
        let value: u64 = match r.get(bits) {
            Ok(x) => x,
            Err(_) => {
                return None;
            },
        };
        if value >= q as u64 {
            proof {
                let z = s.subrange(at, at + 162 * w);
                assert forall|p: PowerOfThreeRingElement| #[trigger] limb_code(p.v@, q) != z by {
                    if limb_code(p.v@, q) == z {
                        lemma_slot_pieces(p.v@, q);
                        cat::lemma_even_slice(slot_piece(p.v@, q), 162, w, i as nat);
                        lemma_residue_fits(p.v@[i as int] as int, q);
                        bits::lemma_of_bits((p.v@[i as int] as int % q as int) as nat, w);
                        assert(z.subrange(i * w, i * w + w) =~= s.subrange(here, here + w));
                    }
                }
            }
            return None;
        }
        let x: i16 = if value > half {
            (value as i32 - q as i32) as i16
        } else {
            value as i16
        };
        let ghost prior = p.v@;
        p.v[i] = x;
        proof {
            let m = q as int;
            if value > half {
                vstd::arithmetic::div_mod::lemma_fundamental_div_mod_converse(
                    x as int,
                    m,
                    -1,
                    value as int,
                );
            } else {
                vstd::arithmetic::div_mod::lemma_small_mod(value as nat, q as nat);
            }
            assert(x as int % m == value);
            assert(p.v@ =~= prior.update(i as int, x));
            assert forall|k: int| 0 <= k < i implies #[trigger] slot_piece(prior, q)(k)
                == slot_piece(p.v@, q)(k) by {
                assert(prior[k] == p.v@[k]);
            }
            cat::lemma_same(slot_piece(prior, q), slot_piece(p.v@, q), i as nat);
            bits::lemma_bits_of(s.subrange(here, here + w));
            assert(slot_piece(p.v@, q)(i as int) == s.subrange(here, here + w));
            assert(s.subrange(at, here) + s.subrange(here, here + w) =~= s.subrange(at, here + w));
        }
        i += 1;
    }
    Some(p)
}

/// Reads one element.
fn read_element(r: &mut BitReader, primes: &[u16]) -> (e: Option<PowerOfThreeRingElementWithLimbs>)
    requires
        old(r).wf(),
        sound_primes(primes@),
        old(r).at() + 162 * slot_width(primes@, primes@.len()) <= old(r).stream().len(),
    ensures
        final(r).stream() == old(r).stream(),
        match e {
            Some(e) => {
                &&& final(r).wf()
                &&& final(r).at() == old(r).at() + 162 * slot_width(primes@, primes@.len())
                &&& centred_element(e, primes@)
                &&& element_code(e, primes@) == old(r).stream().subrange(
                    old(r).at() as int,
                    final(r).at() as int,
                )
            },
            None => forall|e: PowerOfThreeRingElementWithLimbs|
                e.limbs@.len() == primes@.len() ==> #[trigger] element_code(e, primes@)
                    != old(r).stream().subrange(
                    old(r).at() as int,
                    (old(r).at() + 162 * slot_width(primes@, primes@.len())) as int,
                ),
        },
{
    let mut limbs: Vec<PowerOfThreeRingElement> = Vec::with_capacity(primes.len());
    let ghost s = r.stream();
    let ghost at = r.at() as int;
    let ghost n = primes@.len();
    let ghost mut e = PowerOfThreeRingElementWithLimbs { limbs };
    proof {
        assert(cat::cat(limb_piece(e, primes@), 0) =~= s.subrange(at, at));
    }
    let mut k: usize = 0;
    while k < primes.len()
        invariant
            k <= n == primes@.len(),
            sound_primes(primes@),
            r.wf(),
            r.stream() == s,
            s == old(r).stream(),
            0 <= at == old(r).at(),
            r.at() == at + 162 * slot_width(primes@, k as nat),
            at + 162 * slot_width(primes@, n) <= s.len(),
            e.limbs == limbs,
            limbs@.len() == k,
            forall|i: int| 0 <= i < k ==> centred((#[trigger] limbs@[i]).v@, primes@[i]),
            cat::cat(limb_piece(e, primes@), k as nat) == s.subrange(at, r.at() as int),
        decreases n - k,
    {
        let q: u16 = primes[k];
        let ghost here = r.at() as int;
        let ghost wide = 162 * super::residue_width(q as nat);
        proof {
            lemma_width_mono(primes@, (k + 1) as nat, n);
        }
        match read_limb(r, q) {
            Some(p) => {
                let ghost prior = e;
                limbs.push(p);
                proof {
                    e = PowerOfThreeRingElementWithLimbs { limbs };
                    assert forall|i: int| 0 <= i < k implies #[trigger] limb_piece(prior, primes@)(
                        i,
                    ) == limb_piece(e, primes@)(i) by {
                        assert(prior.limbs@[i] == e.limbs@[i]);
                    }
                    cat::lemma_same(limb_piece(prior, primes@), limb_piece(e, primes@), k as nat);
                    assert(limb_piece(e, primes@)(k as int) == s.subrange(here, here + wide));
                    assert(s.subrange(at, here) + s.subrange(here, here + wide) =~= s.subrange(
                        at,
                        here + wide,
                    ));
                }
            },
            None => {
                proof {
                    let z = s.subrange(at, at + 162 * slot_width(primes@, n));
                    assert forall|e: PowerOfThreeRingElementWithLimbs|
                        e.limbs@.len() == n implies #[trigger] element_code(e, primes@) != z by {
                        if element_code(e, primes@) == z {
                            cat::lemma_slice(limb_piece(e, primes@), n, k as nat);
                            lemma_limb_pieces(e, primes@, k as nat);
                            lemma_slot_pieces(e.limbs@[k as int].v@, q);
                            assert(z.subrange(here - at, here - at + wide) =~= s.subrange(
                                here,
                                here + wide,
                            ));
                        }
                    }
                }
                return None;
            },
        }
        k += 1;
    }
    Some(PowerOfThreeRingElementWithLimbs { limbs })
}

proof fn lemma_width_mono(primes: Seq<u16>, a: nat, b: nat)
    requires
        a <= b,
    ensures
        slot_width(primes, a) <= slot_width(primes, b),
    decreases b,
{
    if a < b {
        lemma_width_mono(primes, a, (b - 1) as nat);
    }
}

/// Reads `count` elements.
pub(crate) fn read_elements(r: &mut BitReader, primes: &[u16], count: usize) -> (d: Option<
    Vec<PowerOfThreeRingElementWithLimbs>,
>)
    requires
        old(r).wf(),
        old(r).at() == 0,
        sound_primes(primes@),
        count * (162 * slot_width(primes@, primes@.len())) <= old(r).stream().len(),
    ensures
        match d {
            Some(d) => {
                &&& d@.len() == count
                &&& centred_data(d@, primes@)
                &&& matrix_code(d@, primes@) == old(r).stream().take(
                    count * (162 * slot_width(primes@, primes@.len())),
                )
            },
            None => forall|d: Seq<PowerOfThreeRingElementWithLimbs>|
                d.len() == count && centred_data(d, primes@) ==> #[trigger] matrix_code(
                    d,
                    primes@,
                ) != old(r).stream().take(count * (162 * slot_width(primes@, primes@.len()))),
        },
{
    let mut data: Vec<PowerOfThreeRingElementWithLimbs> = Vec::with_capacity(count);
    let ghost s = r.stream();
    let ghost w = 162 * slot_width(primes@, primes@.len());
    proof {
        assert(cat::cat(element_piece(data@, primes@), 0) =~= s.take(0));
        assert(0 * w == 0);
    }
    let mut j: usize = 0;
    while j < count
        invariant
            j <= count,
            sound_primes(primes@),
            w == 162 * slot_width(primes@, primes@.len()),
            r.wf(),
            r.stream() == s,
            s == old(r).stream(),
            r.at() == j * w,
            count * w <= s.len(),
            data@.len() == j,
            centred_data(data@, primes@),
            cat::cat(element_piece(data@, primes@), j as nat) == s.take(j * w),
        decreases count - j,
    {
        let ghost here = j * w;
        proof {
            assert((j + 1) * w == j * w + w && (j + 1) * w <= count * w && 0 <= j * w)
                by (nonlinear_arith)
                requires
                    0 <= j < count,
                    0 <= w,
            ;
        }
        match read_element(r, primes) {
            Some(e) => {
                let ghost prior = data@;
                data.push(e);
                proof {
                    assert forall|i: int| 0 <= i < j implies #[trigger] element_piece(
                        prior,
                        primes@,
                    )(i) == element_piece(data@, primes@)(i) by {
                        assert(prior[i] == data@[i]);
                    }
                    cat::lemma_same(
                        element_piece(prior, primes@),
                        element_piece(data@, primes@),
                        j as nat,
                    );
                    assert(data@[j as int] == e);
                    assert(element_piece(data@, primes@)(j as int) == s.subrange(here, here + w));
                    assert(s.take(here) + s.subrange(here, here + w) =~= s.take(here + w));
                    assert forall|i: int| 0 <= i < j + 1 implies centred_element(
                        #[trigger] data@[i],
                        primes@,
                    ) by {
                        if i < j {
                            assert(centred_element(prior[i], primes@));
                        }
                    }
                }
            },
            None => {
                proof {
                    let z = s.take(count * w);
                    assert forall|d: Seq<PowerOfThreeRingElementWithLimbs>|
                        d.len() == count && centred_data(d, primes@) implies #[trigger] matrix_code(
                        d,
                        primes@,
                    ) != z by {
                        if matrix_code(d, primes@) == z {
                            assert forall|j: int| 0 <= j < d.len() implies (
                            #[trigger] d[j]).limbs@.len() == primes@.len() by {
                                assert(centred_element(d[j], primes@));
                            }
                            lemma_element_pieces(d, primes@);
                            cat::lemma_even_slice(
                                element_piece(d, primes@),
                                count as nat,
                                w,
                                j as nat,
                            );
                            assert(d[j as int].limbs@.len() == primes@.len());
                            assert(z.subrange(here, here + w) =~= s.subrange(here, here + w));
                            assert(element_code(d[j as int], primes@) == s.subrange(here, here + w));
                        }
                    }
                }
                return None;
            },
        }
        j += 1;
    }
    Some(data)
}

/// Writes elements.
pub(crate) fn write_elements(
    w: &mut BitWriter,
    primes: &[u16],
    data: &[PowerOfThreeRingElementWithLimbs],
)
    requires
        old(w).wf(),
        old(w)@.len() == 0,
        sound_primes(primes@),
        forall|j: int|
            0 <= j < data@.len() ==> (#[trigger] data@[j]).limbs@.len() == primes@.len(),
    ensures
        final(w).wf(),
        final(w)@ == matrix_code(data@, primes@),
{
    let mut j: usize = 0;
    while j < data.len()
        invariant
            j <= data@.len(),
            w.wf(),
            sound_primes(primes@),
            forall|j: int|
                0 <= j < data@.len() ==> (#[trigger] data@[j]).limbs@.len() == primes@.len(),
            w@ == cat::cat(element_piece(data@, primes@), j as nat),
        decreases data@.len() - j,
    {
        let e = &data[j];
        let ghost base = w@;
        let mut k: usize = 0;
        assert(base + cat::cat(limb_piece(*e, primes@), 0) =~= base);
        while k < primes.len()
            invariant
                k <= primes@.len(),
                w.wf(),
                sound_primes(primes@),
                e.limbs@.len() == primes@.len(),
                w@ == base + cat::cat(limb_piece(*e, primes@), k as nat),
            decreases primes@.len() - k,
        {
            let q: u16 = primes[k];
            let bits: u32 = super::residue_bits(q);
            let p = e.limbs[k];
            let ghost here = w@;
            let mut i: usize = 0;
            assert(here + cat::cat(slot_piece(p.v@, q), 0) =~= here);
            while i < 162
                invariant
                    i <= 162,
                    w.wf(),
                    q >= 2,
                    bits == super::residue_width(q as nat),
                    bits <= 16,
                    w@ == here + cat::cat(slot_piece(p.v@, q), i as nat),
                decreases 162 - i,
            {
                let u: u32 = ring::element::residue(p.v[i], q);
                let ghost prior = w@;
                w.put(u as u64, bits);
                assert(slot_piece(p.v@, q)(i as int) == bits::bits_of(u as nat, bits as nat));
                assert(w@ =~= here + cat::cat(slot_piece(p.v@, q), (i + 1) as nat));
                i += 1;
            }
            assert(limb_piece(*e, primes@)(k as int) == limb_code(p.v@, q));
            assert(w@ =~= base + cat::cat(limb_piece(*e, primes@), (k + 1) as nat));
            k += 1;
        }
        assert(element_piece(data@, primes@)(j as int) == element_code(*e, primes@));
        j += 1;
    }
}

/// The centred representative is the one of least magnitude: it has the residue, and keeps within half of
/// an odd modulus.
pub proof fn centre_is_centred(u: int, q: int)
    requires
        0 <= u < q,
        q % 2 == 1,
    ensures
        -((q - 1) / 2) <= centre(u, q) <= (q - 1) / 2,
        centre(u, q) == u || centre(u, q) == u - q,
        centre(u, q) % q == u,
{
    vstd::arithmetic::div_mod::lemma_small_mod(u as nat, q as nat);
    vstd::arithmetic::div_mod::lemma_mod_multiples_vanish(-1, u, q);
}

} // verus!
