//! Commitments as tagged bytes, for a transcript that carries the proof itself.
use super::bits;
use super::cat;
use super::commitment::held;
use super::dropped;
use super::rans;
use crate::bytes;
use crate::labrador::PolxBuf;
use crate::ring::element::{
    PowerOfThreeRingElement, PowerOfThreeRingElementWithLimbs, VerticallyAlignedMatrix,
};
use crate::scheme::commitment::{Commitment, CommitmentValue};
use crate::scheme::params::Params;
use std::sync::Arc;
use vstd::arithmetic::mul::*;
use vstd::arithmetic::power2::*;
use vstd::prelude::*;

verus! {

/// The word of a slot, in two's complement.
pub open spec fn slot_word(x: i16) -> nat {
    if x < 0 {
        (x + 0x1_0000) as nat
    } else {
        x as nat
    }
}

/// The two bytes of a slot.
pub open spec fn slot_bytes(x: i16) -> Seq<u8> {
    bytes::le(slot_word(x), 2)
}

/// The pieces of [`limb_bytes`].
pub open spec fn raw_slot(v: Seq<i16>) -> spec_fn(int) -> Seq<u8> {
    |i: int| slot_bytes(v[i])
}

/// The slots of one limb, two bytes each.
pub open spec fn limb_bytes(v: Seq<i16>) -> Seq<u8> {
    cat::cat(raw_slot(v), v.len())
}

/// The pieces of [`element_bytes`].
pub open spec fn raw_limb(l: Seq<PowerOfThreeRingElement>) -> spec_fn(int) -> Seq<u8> {
    |k: int| limb_bytes(l[k].v@)
}

/// The limbs of one element.
pub open spec fn element_bytes(l: Seq<PowerOfThreeRingElement>) -> Seq<u8> {
    cat::cat(raw_limb(l), l.len())
}

/// The pieces of [`matrix_bytes`].
pub open spec fn raw_element(d: Seq<PowerOfThreeRingElementWithLimbs>) -> spec_fn(int) -> Seq<u8> {
    |j: int| element_bytes(d[j].limbs@)
}

/// The elements of a matrix, column by column.
pub open spec fn matrix_bytes(d: Seq<PowerOfThreeRingElementWithLimbs>) -> Seq<u8> {
    cat::cat(raw_element(d), d.len())
}

/// The tagged bytes of a commitment: the tag of its form, the element count, the form itself.
pub open spec fn tagged(c: Commitment) -> Seq<u8> {
    match c.value {
        CommitmentValue::Matrix(m) => seq![0u8] + bytes::le(m.cols as nat, 4) + matrix_bytes(
            m.data@,
        ),
        CommitmentValue::Recursive(t) => seq![1u8] + bytes::le(t.count as nat, 4) + t.bytes@,
        CommitmentValue::Dropped(d) => seq![2u8] + bytes::le(d.columns as nat, 4) + bits::packed(
            dropped::dropped_code(*d),
        ),
    }
}

/// The element count a tagged commitment announces.
pub open spec fn announced(c: Commitment) -> nat {
    match c.value {
        CommitmentValue::Matrix(m) => m.cols as nat,
        CommitmentValue::Recursive(t) => t.count as nat,
        CommitmentValue::Dropped(d) => d.columns as nat,
    }
}

proof fn lemma_limb_len(v: Seq<i16>)
    ensures
        forall|i: int| 0 <= i < v.len() ==> (#[trigger] raw_slot(v)(i)).len() == 2,
        limb_bytes(v).len() == v.len() * 2,
{
    assert forall|i: int| 0 <= i < v.len() implies (#[trigger] raw_slot(v)(i)).len() == 2 by {
        bytes::lemma_le_len(slot_word(v[i]), 2);
    }
    cat::lemma_len(raw_slot(v), v.len(), 2);
}

proof fn lemma_element_len(l: Seq<PowerOfThreeRingElement>)
    ensures
        forall|k: int| 0 <= k < l.len() ==> (#[trigger] raw_limb(l)(k)).len() == 324,
        element_bytes(l).len() == l.len() * 324,
{
    assert forall|k: int| 0 <= k < l.len() implies (#[trigger] raw_limb(l)(k)).len() == 324 by {
        lemma_limb_len(l[k].v@);
    }
    cat::lemma_len(raw_limb(l), l.len(), 324);
}

pub proof fn lemma_matrix_len(d: Seq<PowerOfThreeRingElementWithLimbs>, n: nat)
    requires
        forall|j: int| 0 <= j < d.len() ==> (#[trigger] d[j]).limbs@.len() == n,
    ensures
        forall|j: int| 0 <= j < d.len() ==> (#[trigger] raw_element(d)(j)).len() == n * 324,
        matrix_bytes(d).len() == d.len() * (n * 324),
{
    assert forall|j: int| 0 <= j < d.len() implies (#[trigger] raw_element(d)(j)).len() == n
        * 324 by {
        lemma_element_len(d[j].limbs@);
        assert(d[j].limbs@.len() == n);
    }
    cat::lemma_len(raw_element(d), d.len(), n * 324);
}

/// Appends the slots of a matrix.
pub(crate) fn push_matrix(out: &mut Vec<u8>, data: &[PowerOfThreeRingElementWithLimbs])
    ensures
        final(out)@ == old(out)@ + matrix_bytes(data@),
{
    let ghost start = out@;
    assert(start + cat::cat(raw_element(data@), 0) =~= start);
    let mut j: usize = 0;
    while j < data.len()
        invariant
            j <= data@.len(),
            out@ == start + cat::cat(raw_element(data@), j as nat),
        decreases data@.len() - j,
    {
        let e = &data[j];
        let ghost base = out@;
        let ghost l = e.limbs@;
        assert(base + cat::cat(raw_limb(l), 0) =~= base);
        let mut k: usize = 0;
        while k < e.limbs.len()
            invariant
                k <= e.limbs@.len(),
                l == e.limbs@,
                out@ == base + cat::cat(raw_limb(l), k as nat),
            decreases e.limbs@.len() - k,
        {
            let p = e.limbs[k];
            let ghost here = out@;
            let ghost v = p.v@;
            assert(here + cat::cat(raw_slot(v), 0) =~= here);
            let mut i: usize = 0;
            while i < 162
                invariant
                    i <= 162,
                    v == p.v@,
                    out@ == here + cat::cat(raw_slot(v), i as nat),
                decreases 162 - i,
            {
                let x: i16 = p.v[i];
                let w: u128 = if x < 0 {
                    (x as i32 + 0x1_0000) as u128
                } else {
                    x as u128
                };
                bytes::push_le(out, w, 2);
                assert(raw_slot(v)(i as int) == bytes::le(w as nat, 2));
                assert(out@ =~= here + cat::cat(raw_slot(v), (i + 1) as nat));
                i += 1;
            }
            assert(raw_limb(l)(k as int) == limb_bytes(v));
            assert(out@ =~= base + cat::cat(raw_limb(l), (k + 1) as nat));
            k += 1;
        }
        assert(raw_element(data@)(j as int) == element_bytes(l));
        assert(out@ =~= start + cat::cat(raw_element(data@), (j + 1) as nat));
        j += 1;
    }
}

/// The commitment as tagged bytes: the `i16` slots of the matrix in column-major order, the
/// bytes of `T_Y`, or the bit-dropped digits, after a one-byte tag and the element count.
pub fn pack_tagged_commitment(commitment: &Commitment) -> (out: Vec<u8>)
    requires
        commitment.wf(),
        announced(*commitment) <= u32::MAX,
    ensures
        out@ == tagged(*commitment),
{
    let mut out: Vec<u8> = Vec::new();
    match &commitment.value {
        CommitmentValue::Matrix(m) => {
            out.push(0);
            bytes::push_le(&mut out, m.cols as u128, 4);
            push_matrix(&mut out, m.as_slice());
        },
        CommitmentValue::Recursive(t) => {
            out.push(1);
            bytes::push_le(&mut out, t.len() as u128, 4);
            rans::push_all(&mut out, t.as_bytes());
        },
        CommitmentValue::Dropped(d) => {
            out.push(2);
            bytes::push_le(&mut out, d.columns() as u128, 4);
            let b = dropped::pack_dropped(d);
            rans::push_all(&mut out, b.as_slice());
        },
    }
    assert(out@ =~= tagged(*commitment));
    out
}

/// Reads a slot.
fn read_slot(b: &[u8], o: usize) -> (x: i16)
    requires
        o + 2 <= b@.len(),
    ensures
        slot_bytes(x) == b@.subrange(o as int, o + 2),
{
    proof {
        bytes::lemma_radix_values();
        bytes::lemma_le_of_le(b@.subrange(o as int, o + 2));
    }
    let w: u128 = bytes::read_le(b, o, 2);
    if w >= 0x8000 {
        (w as i32 - 0x1_0000) as i16
    } else {
        w as i16
    }
}

/// Reads a limb.
fn read_limb(b: &[u8], o: usize) -> (p: PowerOfThreeRingElement)
    requires
        o + 324 <= b@.len(),
    ensures
        limb_bytes(p.v@) == b@.subrange(o as int, o + 324),
{
    let len: usize = b.len();
    let mut p = PowerOfThreeRingElement::zero();
    assert(cat::cat(raw_slot(p.v@), 0) =~= b@.subrange(o as int, o as int));
    let mut i: usize = 0;
    while i < 162
        invariant
            i <= 162,
            o + 324 <= len == b@.len(),
            cat::cat(raw_slot(p.v@), i as nat) == b@.subrange(o as int, o + 2 * i),
        decreases 162 - i,
    {
        let x: i16 = read_slot(b, o + 2 * i);
        let ghost prior = p.v@;
        p.v[i] = x;
        proof {
            let at = o + 2 * i;
            assert forall|k: int| 0 <= k < i implies #[trigger] raw_slot(prior)(k) == raw_slot(
                p.v@,
            )(k) by {
                assert(prior[k] == p.v@[k]);
            }
            cat::lemma_same(raw_slot(prior), raw_slot(p.v@), i as nat);
            assert(raw_slot(p.v@)(i as int) == b@.subrange(at, at + 2));
            assert(b@.subrange(o as int, at) + b@.subrange(at, at + 2) =~= b@.subrange(
                o as int,
                at + 2,
            ));
        }
        i += 1;
    }
    p
}

/// Reads an element of `n` limbs.
fn read_element(b: &[u8], o: usize, n: usize) -> (e: PowerOfThreeRingElementWithLimbs)
    requires
        o + n * 324 <= b@.len(),
    ensures
        e.limbs@.len() == n,
        element_bytes(e.limbs@) == b@.subrange(o as int, o + n * 324),
{
    let len: usize = b.len();
    let mut limbs: Vec<PowerOfThreeRingElement> = Vec::with_capacity(n);
    assert(cat::cat(raw_limb(limbs@), 0) =~= b@.subrange(o as int, o as int));
    let mut k: usize = 0;
    while k < n
        invariant
            k <= n,
            o + n * 324 <= len == b@.len(),
            limbs@.len() == k,
            cat::cat(raw_limb(limbs@), k as nat) == b@.subrange(o as int, o + k * 324),
        decreases n - k,
    {
        let p = read_limb(b, o + k * 324);
        let ghost prior = limbs@;
        limbs.push(p);
        proof {
            let at = o + k * 324;
            assert forall|i: int| 0 <= i < k implies #[trigger] raw_limb(prior)(i) == raw_limb(
                limbs@,
            )(i) by {
                assert(prior[i] == limbs@[i]);
            }
            cat::lemma_same(raw_limb(prior), raw_limb(limbs@), k as nat);
            assert(raw_limb(limbs@)(k as int) == b@.subrange(at, at + 324));
            assert(b@.subrange(o as int, at) + b@.subrange(at, at + 324) =~= b@.subrange(
                o as int,
                at + 324,
            ));
        }
        k += 1;
    }
    PowerOfThreeRingElementWithLimbs { limbs }
}

/// Reads `count` elements of `n` limbs.
fn read_matrix(b: &[u8], o: usize, count: usize, n: usize) -> (d: Vec<
    PowerOfThreeRingElementWithLimbs,
>)
    requires
        o + count * (n * 324) == b@.len(),
        n * 324 <= usize::MAX,
    ensures
        d@.len() == count,
        forall|j: int| 0 <= j < count ==> (#[trigger] d@[j]).limbs@.len() == n,
        matrix_bytes(d@) == b@.skip(o as int),
{
    let len: usize = b.len();
    let size: usize = n * 324;
    let mut d: Vec<PowerOfThreeRingElementWithLimbs> = Vec::with_capacity(count);
    assert(cat::cat(raw_element(d@), 0) =~= b@.subrange(o as int, o as int));
    assert(0 * size == 0);
    let mut at: usize = o;
    let mut j: usize = 0;
    while j < count
        invariant
            j <= count,
            size == n * 324,
            o + count * size == len,
            len == b@.len(),
            at == o + j * size,
            d@.len() == j,
            forall|i: int| 0 <= i < j ==> (#[trigger] d@[i]).limbs@.len() == n,
            cat::cat(raw_element(d@), j as nat) == b@.subrange(o as int, at as int),
        decreases count - j,
    {
        proof {
            assert((j + 1) * size == j * size + size && (j + 1) * size <= count * size && 0 <= j
                * size) by (nonlinear_arith)
                requires
                    0 <= j < count,
                    0 <= size,
            ;
        }
        let e = read_element(b, at, n);
        let ghost prior = d@;
        d.push(e);
        proof {
            assert forall|i: int| 0 <= i < j implies #[trigger] raw_element(prior)(i)
                == raw_element(d@)(i) by {
                assert(prior[i] == d@[i]);
            }
            cat::lemma_same(raw_element(prior), raw_element(d@), j as nat);
            assert(raw_element(d@)(j as int) == b@.subrange(at as int, at + size));
            assert(b@.subrange(o as int, at as int) + b@.subrange(at as int, at + size)
                =~= b@.subrange(o as int, at + size));
        }
        at += size;
        j += 1;
    }
    assert(b@.subrange(o as int, len as int) =~= b@.skip(o as int));
    d
}

/// The bytes hold a tag that fits the opening, and a count.
pub open spec fn opens(b: Seq<u8>, params: Params) -> bool {
    &&& b.len() >= 5
    &&& (b[0] == 1) == (params.opening is Recursive)
    &&& (b[0] == 2) == (params.bits() > 0)
}

/// The count behind the tag.
pub open spec fn count_of(b: Seq<u8>) -> nat {
    bytes::of_le(b.subrange(1, 5))
}

/// The bytes a matrix over `primes` primes takes.
pub open spec fn slots_len(count: nat, primes: nat) -> nat {
    4 * count * (primes * 324)
}

/// What is read of the bytes: under tag 0 the matrix, under tag 1 `T_Y`, under tag 2 the bit-dropped
/// digits.
pub open spec fn reads_tagged(b: Seq<u8>, params: Params, c: Commitment) -> bool {
    &&& opens(b, params)
    &&& c.wf()
    &&& c.primes@ == params.prime_list()
    &&& c.columns == pow2(params.column_log_len as nat)
    &&& match c.value {
        CommitmentValue::Matrix(m) => b[0] == 0 && count_of(b) == c.columns && matrix_bytes(m.data@)
            == b.skip(5),
        CommitmentValue::Recursive(t) => b[0] == 1 && count_of(b) == t.count && t.bytes@ == b.skip(
            5,
        ),
        CommitmentValue::Dropped(d) => b[0] == 2 && count_of(b) == c.columns
            && dropped::fits_params(*d, params) && b.len() - 5 == dropped::dropped_len(params)
            && dropped::reads_dropped(b.skip(5), *d),
    }
}

/// The inverse of [`pack_tagged_commitment`], against the parameters the verifier holds.
pub fn unpack_tagged_commitment(params: &Params, bytes: &[u8]) -> (r: Option<Commitment>)
    requires
        params.wf(),
        params.bits() <= 31,
        params.bits() > 0 ==> 648 * pow2(params.column_log_len as nat) <= usize::MAX,
    ensures
        match r {
            Some(c) => reads_tagged(bytes@, *params, c),
            None => forall|c: Commitment| !(#[trigger] reads_tagged(bytes@, *params, c)),
        },
{
    let primes = params.primes();
    let columns: usize = params.columns();
    proof {
        dropped::lemma_params_primes(*params);
        params.lemma_few();
    }
    let len: usize = bytes.len();
    if len < 5 {
        return None;
    }
    let tag: u8 = bytes[0];
    if (tag == 1) != params.recursion() || (tag == 2) != (params.dropped_bits() > 0) {
        return None;
    }
    proof {
        bytes::lemma_radix_values();
    }
    let count: u64 = bytes::read_le(bytes, 1, 4) as u64;
    let body = vstd::slice::slice_subrange(bytes, 5, len);
    assert(body@ =~= bytes@.skip(5));
    if tag == 2 {
        if count != columns as u64 {
            return None;
        }
        match dropped::unpack_dropped(params, body) {
            Ok(d) => {
                let c = Commitment::of(primes, columns, CommitmentValue::Dropped(Arc::new(d)));
                Some(c)
            },
            Err(_) => None,
        }
    } else if tag == 0 {
        let n: usize = primes.len();
        proof {
            lemma_slots(count as int, n as int);
            if count == columns {
                assert forall|c: Commitment| (#[trigger] reads_tagged(bytes@, *params, c)) implies
                    body@.len() == slots_len(count as nat, n as nat) by {
                    if let CommitmentValue::Matrix(m) = c.value {
                        lemma_matrix_len(m.data@, n as nat);
                    }
                }
            }
        }
        if count != columns as u64 || body.len() as u128 != 4 * (count as u128) * (n as u128 * 324) {
            return None;
        }
        let data = read_matrix(bytes, 5, 4 * columns, n);
        let m = VerticallyAlignedMatrix::new(4, columns, data);
        Some(Commitment::of(primes, columns, CommitmentValue::Matrix(m)))
    } else if tag != 1 {
        None
    } else {
        let k: usize = count as usize;
        if k as u64 != count {
            return None;
        }
        match PolxBuf::from_bytes(k, body) {
            Some(t) => Some(
                Commitment::of(primes, columns, CommitmentValue::Recursive(Arc::new(t))),
            ),
            None => None,
        }
    }
}

proof fn lemma_slots(c: int, n: int)
    requires
        0 <= c <= 0xFFFF_FFFF,
        0 <= n <= 8,
    ensures
        0 <= 4 * c * (n * 324) <= 0x1_0000_0000_0000_0000,
        n >= 1 ==> 4 * c <= 4 * c * (n * 324),
        (4 * c) * (n * 324) == 4 * c * (n * 324),
{
    assert(0 <= 4 * c * (n * 324) <= 0x1_0000_0000_0000_0000) by (nonlinear_arith)
        requires
            0 <= c <= 0xFFFF_FFFF,
            0 <= n <= 8,
    ;
    if n >= 1 {
        assert(4 * c <= 4 * c * (n * 324)) by (nonlinear_arith)
            requires
                0 <= c,
                n >= 1,
        ;
    }
}

/// The tagged bytes of a commitment of the shape `params` asks for read as the commitment: a
/// matrix, a `T_Y`, or bit-dropped digits in range.
pub proof fn tagged_round_trip(params: Params, c: Commitment)
    requires
        c.wf(),
        announced(c) <= u32::MAX,
        c.primes@ == params.prime_list(),
        c.columns == pow2(params.column_log_len as nat),
        params.bits() <= 31,
        match c.value {
            CommitmentValue::Matrix(m) => params.bits() == 0 && !(params.opening is Recursive),
            CommitmentValue::Recursive(t) => params.opening is Recursive,
            CommitmentValue::Dropped(d) => params.bits() > 0 && dropped::fits_params(*d, params),
        },
    ensures
        reads_tagged(tagged(c), params, c),
{
    let b = tagged(c);
    bytes::lemma_radix_values();
    bytes::lemma_le_len(announced(c), 4);
    bytes::lemma_of_le_le(announced(c), 4);
    assert(b.subrange(1, 5) =~= bytes::le(announced(c), 4));
    match c.value {
        CommitmentValue::Matrix(m) => {
            assert(b.skip(5) =~= matrix_bytes(m.data@));
        },
        CommitmentValue::Recursive(t) => {
            assert(b.skip(5) =~= t.bytes@);
        },
        CommitmentValue::Dropped(d) => {
            dropped::dropped_round_trip(params, super::commitment::held(d), super::commitment::held(d));
            assert(b.skip(5) =~= bits::packed(dropped::dropped_code(*d)));
        },
    }
}

proof fn lemma_limb_bytes(v: Seq<i16>, w: Seq<i16>)
    requires
        v.len() == w.len(),
    ensures
        limb_bytes(v).len() == 2 * v.len(),
        limb_bytes(v) == limb_bytes(w) ==> v == w,
{
    let (f, g) = (raw_slot(v), raw_slot(w));
    assert forall|i: int| 0 <= i < v.len() implies (#[trigger] f(i)).len() == 2 by {
        bytes::lemma_le_len(slot_word(v[i]), 2);
    }
    assert forall|i: int| 0 <= i < v.len() implies (#[trigger] g(i)).len() == 2 by {
        bytes::lemma_le_len(slot_word(w[i]), 2);
    }
    cat::lemma_len(f, v.len(), 2);
    if limb_bytes(v) == limb_bytes(w) {
        cat::lemma_even_equal(f, g, v.len(), 2);
        bytes::lemma_radix_values();
        assert forall|i: int| 0 <= i < v.len() implies (#[trigger] v[i]) == w[i] by {
            assert(f(i) == g(i));
            bytes::lemma_of_le_le(slot_word(v[i]), 2);
            bytes::lemma_of_le_le(slot_word(w[i]), 2);
        }
        assert(v =~= w);
    }
}

proof fn lemma_element_bytes(v: Seq<PowerOfThreeRingElement>, w: Seq<PowerOfThreeRingElement>)
    requires
        v.len() == w.len(),
    ensures
        element_bytes(v).len() == v.len() * 324,
        element_bytes(v) == element_bytes(w) ==> v == w,
{
    let (f, g) = (raw_limb(v), raw_limb(w));
    assert forall|k: int| 0 <= k < v.len() implies (#[trigger] f(k)).len() == 324 by {
        lemma_limb_bytes(v[k].v@, v[k].v@);
    }
    assert forall|k: int| 0 <= k < v.len() implies (#[trigger] g(k)).len() == 324 by {
        lemma_limb_bytes(w[k].v@, w[k].v@);
    }
    cat::lemma_len(f, v.len(), 324);
    if element_bytes(v) == element_bytes(w) {
        cat::lemma_even_equal(f, g, v.len(), 324);
        assert forall|k: int| 0 <= k < v.len() implies (#[trigger] v[k]) == w[k] by {
            assert(f(k) == g(k));
            lemma_limb_bytes(v[k].v@, w[k].v@);
            assert(v[k].v =~= w[k].v);
        }
        assert(v =~= w);
    }
}

/// Matrices of one shape with the same bytes hold the same limbs.
pub proof fn matrix_bytes_injective(
    d: Seq<PowerOfThreeRingElementWithLimbs>,
    e: Seq<PowerOfThreeRingElementWithLimbs>,
    n: nat,
)
    requires
        d.len() == e.len(),
        forall|j: int| 0 <= j < d.len() ==> (#[trigger] d[j]).limbs@.len() == n,
        forall|j: int| 0 <= j < e.len() ==> (#[trigger] e[j]).limbs@.len() == n,
        matrix_bytes(d) == matrix_bytes(e),
    ensures
        forall|j: int| 0 <= j < d.len() ==> (#[trigger] d[j]).limbs@ == e[j].limbs@,
{
    let w = n * 324;
    let (f, g) = (raw_element(d), raw_element(e));
    assert forall|j: int| 0 <= j < d.len() implies (#[trigger] f(j)).len() == w by {
        lemma_element_bytes(d[j].limbs@, d[j].limbs@);
    }
    assert forall|j: int| 0 <= j < d.len() implies (#[trigger] g(j)).len() == w by {
        lemma_element_bytes(e[j].limbs@, e[j].limbs@);
    }
    cat::lemma_even_equal(f, g, d.len(), w);
    assert forall|j: int| 0 <= j < d.len() implies (#[trigger] d[j]).limbs@ == e[j].limbs@ by {
        assert(f(j) == g(j));
        lemma_element_bytes(d[j].limbs@, e[j].limbs@);
    }
}

/// Two commitments of one shape hold the same.
pub open spec fn same_value(c: Commitment, o: Commitment) -> bool {
    match (c.value, o.value) {
        (CommitmentValue::Matrix(m), CommitmentValue::Matrix(n)) => m.data@.len() == n.data@.len()
            && forall|j: int|
            0 <= j < m.data@.len() ==> (#[trigger] m.data@[j]).limbs@ == n.data@[j].limbs@,
        (CommitmentValue::Recursive(t), CommitmentValue::Recursive(u)) => t.count == u.count
            && t.bytes@ == u.bytes@,
        (CommitmentValue::Dropped(x), CommitmentValue::Dropped(y)) => x.top@ == y.top@ && forall|
            k: int,
        |
            0 <= k < x.digits@.len() ==> (#[trigger] x.digits@[k])@ == y.digits@[k]@,
        _ => false,
    }
}

/// Tagged bytes read as one commitment at most, so that what is read back of a commitment's own
/// bytes is the commitment.
pub proof fn tagged_unique(b: Seq<u8>, params: Params, c: Commitment, o: Commitment)
    requires
        params.bits() <= 31,
        reads_tagged(b, params, c),
        reads_tagged(b, params, o),
    ensures
        same_value(c, o),
{
    match (c.value, o.value) {
        (CommitmentValue::Matrix(m), CommitmentValue::Matrix(n)) => {
            matrix_bytes_injective(m.data@, n.data@, c.primes@.len());
        },
        (CommitmentValue::Dropped(x), CommitmentValue::Dropped(y)) => {
            dropped::lemma_reads_once(params, b.skip(5), held(x), held(y));
        },
        _ => {},
    }
}

/// Bytes that are read are the bytes of what is read: reading is the inverse of packing on everything
/// it accepts.
pub proof fn tagged_inverse(b: Seq<u8>, params: Params, c: Commitment)
    requires
        reads_tagged(b, params, c),
    ensures
        tagged(c) == b,
{
    let head = b.subrange(1, 5);
    bytes::lemma_le_of_le(head);
    assert(b =~= seq![b[0]] + head + b.skip(5));
    if let CommitmentValue::Dropped(d) = c.value {
        dropped::lemma_reads_packed(params, b.skip(5), held(d));
    }
}

} // verus!
