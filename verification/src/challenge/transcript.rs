//! The blake3 transcript: absorb, then derive.
use crate::bytes;
use crate::fields::linear;
use crate::fields::scalar::{B128, F162, M34};
use crate::hash;
use crate::ring::PowerOfThreeRingElementWithLimbs;
use crate::wire::tagged;
use blake3::Hasher;
use vstd::prelude::*;

verus! {

/// What a transcript stands for: the bytes absorbed so far and the number of derivations made.
pub struct Script {
    pub key: Seq<u8>,
    pub absorbed: Seq<u8>,
    pub counter: u64,
}

impl Script {
    /// The script once the bytes `b` are absorbed as they are.
    pub open spec fn absorb(self, b: Seq<u8>) -> Script {
        Script { absorbed: self.absorbed + b, ..self }
    }

    /// The script once the byte string `b` is absorbed behind its length.
    pub open spec fn absorb_bytes(self, b: Seq<u8>) -> Script {
        self.absorb(bytes::le(b.len(), 8) + b)
    }

    pub open spec fn absorb_u64(self, x: u64) -> Script {
        self.absorb(bytes::le(x as nat, 8))
    }

    /// There is room for `n` more bytes.
    pub open spec fn room(self, n: nat) -> bool {
        self.absorbed.len() + n <= u64::MAX
    }

    /// The hash input of the next derivation under `label`.
    pub open spec fn seed(self, label: Seq<u8>) -> Seq<u8> {
        self.absorbed + bytes::le(self.counter as nat, 8) + bytes::le(label.len(), 8) + label
    }

    /// The first `n` bytes of the next derivation under `label`.
    pub open spec fn output(self, label: Seq<u8>, n: nat) -> Seq<u8> {
        Seq::new(n, |i: int| hash::xof_byte(self.key, self.seed(label), i))
    }

    /// The script once one more derivation is made.
    pub open spec fn next(self) -> Script {
        Script { counter: (self.counter + 1) as u64, ..self }
    }

    /// A derivation under a label of `n` bytes can be made.
    pub open spec fn can_derive(self, n: nat) -> bool {
        self.room(n + 16) && self.counter < u64::MAX
    }
}

/// A Fiat-Shamir transcript.
///
/// Every derivation takes a copy of the absorbing state, appends a per-transcript counter and a
/// label, and reads the extendable output of the result.
pub struct Transcript {
    state: Hasher,
    counter: u64,
}

impl View for Transcript {
    type V = Script;

    closed spec fn view(&self) -> Script {
        Script {
            key: hash::hasher_key(self.state),
            absorbed: hash::hasher_input(self.state),
            counter: self.counter,
        }
    }
}

impl Clone for Transcript {
    fn clone(&self) -> (t: Transcript)
        ensures
            t@ == self@,
    {
        Transcript { state: hash::copy_hasher(&self.state), counter: self.counter }
    }
}

impl Transcript {
    /// A fresh transcript whose state starts at the domain string `domain`.
    pub fn new(domain: &[u8]) -> (t: Transcript)
        requires
            domain@.len() + 8 <= u64::MAX,
        ensures
            t@.key == Seq::<u8>::empty(),
            t@.absorbed == bytes::le(domain@.len(), 8) + domain@,
            t@.counter == 0,
    {
        let mut t = Transcript { state: hash::new_hasher(), counter: 0 };
        t.absorb_bytes(domain);
        assert(t@.absorbed =~= bytes::le(domain@.len(), 8) + domain@);
        t
    }

    fn absorb_raw(&mut self, b: &[u8])
        requires
            old(self)@.room(b@.len()),
        ensures
            final(self)@ == old(self)@.absorb(b@),
    {
        hash::update(&mut self.state, b);
    }

    /// Absorb raw bytes, length-prefixed so that concatenations cannot collide.
    pub fn absorb_bytes(&mut self, b: &[u8])
        requires
            old(self)@.room(b@.len() + 8),
        ensures
            final(self)@ == old(self)@.absorb_bytes(b@),
    {
        let ghost before = self@;
        let n: usize = b.len();
        self.absorb_u64(n as u64);
        proof {
            bytes::lemma_le_len(n as nat, 8);
        }
        self.absorb_raw(b);
        assert(self@.absorbed =~= before.absorb_bytes(b@).absorbed);
    }

    /// Absorb an integer, little-endian.
    pub fn absorb_u64(&mut self, x: u64)
        requires
            old(self)@.room(8),
        ensures
            final(self)@ == old(self)@.absorb_u64(x),
    {
        let mut b: Vec<u8> = Vec::with_capacity(8);
        bytes::push_le(&mut b, x as u128, 8);
        proof {
            bytes::lemma_le_len(x as nat, 8);
            assert(b@ =~= bytes::le(x as nat, 8));
        }
        self.absorb_raw(b.as_slice());
    }

    /// Absorb a list of words: their number, then 16 little-endian bytes each.
    pub fn absorb_b128(&mut self, v: &[B128])
        requires
            old(self)@.room(8 + 16 * v@.len()),
        ensures
            final(self)@ == old(self)@.absorb(bytes::le(v@.len(), 8) + b128_bytes(v@)),
    {
        let mut b: Vec<u8> = Vec::new();
        let n: usize = v.len();
        bytes::push_le(&mut b, n as u128, 8);
        let ghost head = b@;
        let mut i: usize = 0;
        assert(v@.take(0) =~= Seq::<B128>::empty());
        assert(b@ =~= head + b128_bytes(v@.take(0)));
        while i < n
            invariant
                i <= n == v@.len(),
                b@ == head + b128_bytes(v@.take(i as int)),
            decreases n - i,
        {
            bytes::push_le(&mut b, v[i].0, 16);
            proof {
                assert(v@.take(i + 1).drop_last() =~= v@.take(i as int));
                assert(b@ =~= head + b128_bytes(v@.take(i + 1)));
            }
            i += 1;
        }
        proof {
            assert(v@.take(n as int) =~= v@);
            lemma_b128_bytes_len(v@);
            bytes::lemma_le_len(v@.len(), 8);
            assert(head =~= bytes::le(v@.len(), 8));
        }
        self.absorb_raw(b.as_slice());
    }

    /// Absorb a list of field elements: their number, then the three limbs of each,
    /// little-endian.
    pub fn absorb_f162(&mut self, v: &[F162])
        requires
            old(self)@.room(8 + 24 * v@.len()),
        ensures
            final(self)@ == old(self)@.absorb(bytes::le(v@.len(), 8) + f162_bytes(v@)),
    {
        let mut b: Vec<u8> = Vec::new();
        let n: usize = v.len();
        bytes::push_le(&mut b, n as u128, 8);
        let ghost head = b@;
        push_f162s(&mut b, v);
        proof {
            lemma_f162_bytes_len(v@);
            bytes::lemma_le_len(v@.len(), 8);
            assert(head =~= bytes::le(v@.len(), 8));
        }
        self.absorb_raw(b.as_slice());
    }

    /// Absorb ring elements: their number, then their raw little-endian `i16` slots, limb after
    /// limb.
    pub fn absorb_elements(&mut self, elements: &[PowerOfThreeRingElementWithLimbs])
        requires
            forall|j: int|
                0 <= j < elements@.len() ==> (#[trigger] elements@[j]).limbs@.len()
                    == elements@[0].limbs@.len(),
            old(self)@.room(8 + tagged::matrix_bytes(elements@).len()),
        ensures
            final(self)@ == old(self)@.absorb(
                bytes::le(elements@.len(), 8) + tagged::matrix_bytes(elements@),
            ),
    {
        let mut b: Vec<u8> = Vec::new();
        let n: usize = elements.len();
        bytes::push_le(&mut b, n as u128, 8);
        let ghost head = b@;
        tagged::push_matrix(&mut b, elements);
        proof {
            bytes::lemma_le_len(elements@.len(), 8);
            assert(head =~= bytes::le(elements@.len(), 8));
        }
        self.absorb_raw(b.as_slice());
    }

    /// The state of the next derivation under `label`; the counter moves on.
    pub(crate) fn derive(&mut self, label: &[u8]) -> (h: Hasher)
        requires
            old(self)@.can_derive(label@.len()),
        ensures
            hash::hasher_key(h) == old(self)@.key,
            hash::hasher_input(h) == old(self)@.seed(label@),
            final(self)@ == old(self)@.next(),
    {
        let mut t = self.clone();
        let c: u64 = self.counter;
        proof {
            bytes::lemma_le_len(c as nat, 8);
            bytes::lemma_le_len(label@.len(), 8);
        }
        t.absorb_u64(c);
        t.absorb_bytes(label);
        self.counter = c + 1;
        let r = t.state;
        assert(hash::hasher_input(r) =~= old(self)@.seed(label@));
        r
    }

    /// Fill `out` with the output of the current state under `label`, then advance the counter,
    /// so that the next derivation is independent.
    pub fn fill(&mut self, label: &[u8], out: &mut [u8])
        requires
            old(self)@.can_derive(label@.len()),
        ensures
            final(self)@ == old(self)@.next(),
            final(out)@ == old(self)@.output(label@, old(out)@.len()),
    {
        let n: usize = out.len();
        let h = self.derive(label);
        hash::xof_fill(&h, 0, out);
        assert(out@ =~= old(self)@.output(label@, n as nat));
    }

    fn output_vec(&mut self, label: &[u8], n: usize) -> (b: Vec<u8>)
        requires
            old(self)@.can_derive(label@.len()),
        ensures
            final(self)@ == old(self)@.next(),
            b@ == old(self)@.output(label@, n as nat),
    {
        let mut b: Vec<u8> = vec![0u8; n];
        self.fill(label, b.as_mut_slice());
        b
    }

    /// `n` uniform words.
    pub fn sample_b128(&mut self, label: &[u8], n: usize) -> (v: Vec<B128>)
        requires
            old(self)@.can_derive(label@.len()),
            16 * n <= usize::MAX,
        ensures
            final(self)@ == old(self)@.next(),
            v@ == b128s_of(old(self)@.output(label@, (16 * n) as nat), n as nat),
    {
        let b = self.output_vec(label, 16 * n);
        let mut v: Vec<B128> = Vec::with_capacity(n);
        let mut i: usize = 0;
        while i < n
            invariant
                i <= n,
                16 * n <= usize::MAX,
                b@.len() == 16 * n,
                v@ == b128s_of(b@, n as nat).take(i as int),
            decreases n - i,
        {
            v.push(B128(bytes::read_le(b.as_slice(), 16 * i, 16)));
            proof {
                bytes::lemma_radix_values();
                let all = b128s_of(b@, n as nat);
                assert(v@ =~= all.take(i + 1));
            }
            i += 1;
        }
        assert(b128s_of(b@, n as nat).take(n as int) =~= b128s_of(b@, n as nat));
        v
    }

    /// `n` uniform field elements: 24 bytes each, the top 30 bits cleared.
    pub fn sample_f162(&mut self, label: &[u8], n: usize) -> (v: Vec<F162>)
        requires
            old(self)@.can_derive(label@.len()),
            24 * n <= usize::MAX,
        ensures
            final(self)@ == old(self)@.next(),
            linear::all_wf(v@),
            v@ == f162s_of(old(self)@.output(label@, (24 * n) as nat), n as nat),
    {
        let b = self.output_vec(label, 24 * n);
        read_f162s(b.as_slice(), n)
    }
}

/// The words' bytes, 16 each.
pub open spec fn b128_bytes(v: Seq<B128>) -> Seq<u8>
    decreases v.len(),
{
    if v.len() == 0 {
        Seq::empty()
    } else {
        b128_bytes(v.drop_last()) + bytes::le(v.last().0 as nat, 16)
    }
}

/// The bytes of the three limbs.
pub open spec fn limb_bytes(x: F162) -> Seq<u8> {
    bytes::le(x.0[0] as nat, 8) + bytes::le(x.0[1] as nat, 8) + bytes::le(x.0[2] as nat, 8)
}

/// The elements' bytes, 24 each.
pub open spec fn f162_bytes(v: Seq<F162>) -> Seq<u8>
    decreases v.len(),
{
    if v.len() == 0 {
        Seq::empty()
    } else {
        f162_bytes(v.drop_last()) + limb_bytes(v.last())
    }
}

pub proof fn lemma_b128_bytes_len(v: Seq<B128>)
    ensures
        b128_bytes(v).len() == 16 * v.len(),
    decreases v.len(),
{
    if v.len() > 0 {
        lemma_b128_bytes_len(v.drop_last());
        bytes::lemma_le_len(v.last().0 as nat, 16);
    }
}

pub proof fn lemma_f162_bytes_len(v: Seq<F162>)
    ensures
        f162_bytes(v).len() == 24 * v.len(),
    decreases v.len(),
{
    if v.len() > 0 {
        lemma_f162_bytes_len(v.drop_last());
        let x = v.last();
        bytes::lemma_le_len(x.0[0] as nat, 8);
        bytes::lemma_le_len(x.0[1] as nat, 8);
        bytes::lemma_le_len(x.0[2] as nat, 8);
    }
}

/// Append the elements' bytes, 24 each.
pub(crate) fn push_f162s(b: &mut Vec<u8>, v: &[F162])
    ensures
        final(b)@ == old(b)@ + f162_bytes(v@),
{
    let ghost head = b@;
    let n: usize = v.len();
    let mut i: usize = 0;
    assert(v@.take(0) =~= Seq::<F162>::empty());
    assert(b@ =~= head + f162_bytes(v@.take(0)));
    while i < n
        invariant
            i <= n == v@.len(),
            b@ == head + f162_bytes(v@.take(i as int)),
        decreases n - i,
    {
        bytes::push_le(b, v[i].0[0] as u128, 8);
        bytes::push_le(b, v[i].0[1] as u128, 8);
        bytes::push_le(b, v[i].0[2] as u128, 8);
        proof {
            assert(v@.take(i + 1).drop_last() =~= v@.take(i as int));
            assert(v@.take(i + 1).last() == v@[i as int]);
            assert(b@ =~= head + f162_bytes(v@.take(i + 1)));
        }
        i += 1;
    }
    assert(v@.take(n as int) =~= v@);
}

/// Word `i` is the integer at byte `16 i`.
pub open spec fn b128s_of(b: Seq<u8>, n: nat) -> Seq<B128> {
    Seq::new(n, |i: int| B128(bytes::of_le(b.subrange(16 * i, 16 * i + 16)) as u128))
}

/// The `u64` at byte `o`.
pub open spec fn u64_at(b: Seq<u8>, o: int) -> u64 {
    bytes::of_le(b.subrange(o, o + 8)) as u64
}

/// The element whose limbs are the three `u64` at byte `o`, the top 30 bits cleared.
pub open spec fn f162_at(b: Seq<u8>, o: int) -> F162 {
    F162([u64_at(b, o), u64_at(b, o + 8), (u64_at(b, o + 16) % 0x4_0000_0000) as u64])
}

/// Element `i` is the one at byte `24 i`.
pub open spec fn f162s_of(b: Seq<u8>, n: nat) -> Seq<F162> {
    Seq::new(n, |i: int| f162_at(b, 24 * i))
}

/// The elements of a byte string, 24 bytes each.
pub(crate) fn read_f162s(b: &[u8], n: usize) -> (v: Vec<F162>)
    requires
        b@.len() >= 24 * n,
    ensures
        linear::all_wf(v@),
        v@ == f162s_of(b@, n as nat),
{
    let len: usize = b.len();
    let mut v: Vec<F162> = Vec::with_capacity(n);
    let mut i: usize = 0;
    while i < n
        invariant
            i <= n,
            len == b@.len() >= 24 * n,
            linear::all_wf(v@),
            v@ == f162s_of(b@, n as nat).take(i as int),
        decreases n - i,
    {
        let o: usize = 24 * i;
        let x0: u64 = bytes::read_u64(b, o);
        let x1: u64 = bytes::read_u64(b, o + 8);
        let x2: u64 = bytes::read_u64(b, o + 16) % (M34 + 1);
        let x = F162([x0, x1, x2]);
        proof {
            F162::lemma_limbs(x, f162_at(b@, 24 * i));
        }
        v.push(x);
        assert(v@ =~= f162s_of(b@, n as nat).take(i + 1));
        i += 1;
    }
    assert(f162s_of(b@, n as nat).take(n as int) =~= f162s_of(b@, n as nat));
    v
}

// ---------------------------------------------------------------------------------------------
// laws
// ---------------------------------------------------------------------------------------------

/// The script once every byte string of the list is absorbed behind its length.
pub open spec fn absorb_all(s: Script, list: Seq<Seq<u8>>) -> Script
    decreases list.len(),
{
    if list.len() == 0 {
        s
    } else {
        absorb_all(s.absorb_bytes(list[0]), list.skip(1))
    }
}

/// Byte strings behind their lengths, end to end.
spec fn frames(list: Seq<Seq<u8>>) -> Seq<u8>
    decreases list.len(),
{
    if list.len() == 0 {
        Seq::empty()
    } else {
        bytes::le(list[0].len(), 8) + list[0] + frames(list.skip(1))
    }
}

proof fn lemma_frames(s: Script, list: Seq<Seq<u8>>)
    ensures
        absorb_all(s, list).absorbed == s.absorbed + frames(list),
    decreases list.len(),
{
    if list.len() == 0 {
        assert(s.absorbed + frames(list) =~= s.absorbed);
    } else {
        let next = s.absorb_bytes(list[0]);
        lemma_frames(next, list.skip(1));
        assert(next.absorbed + frames(list.skip(1)) =~= s.absorbed + frames(list));
    }
}

/// Two numbers of eight bytes at the front of the same bytes.
pub proof fn lemma_front(x: nat, y: nat, a: Seq<u8>, b: Seq<u8>)
    requires
        bytes::le(x, 8) + a == bytes::le(y, 8) + b,
        x <= u64::MAX,
        y <= u64::MAX,
    ensures
        x == y,
        a == b,
{
    bytes::lemma_le_len(x, 8);
    bytes::lemma_le_len(y, 8);
    let (l, r) = (bytes::le(x, 8) + a, bytes::le(y, 8) + b);
    assert(l.take(8) =~= bytes::le(x, 8));
    assert(r.take(8) =~= bytes::le(y, 8));
    assert(l.skip(8) =~= a);
    assert(r.skip(8) =~= b);
    bytes::lemma_radix_values();
    bytes::lemma_of_le_le(x, 8);
    bytes::lemma_of_le_le(y, 8);
}

proof fn lemma_frames_unique(a: Seq<Seq<u8>>, b: Seq<Seq<u8>>)
    requires
        frames(a) == frames(b),
        forall|i: int| 0 <= i < a.len() ==> (#[trigger] a[i]).len() <= u64::MAX,
        forall|i: int| 0 <= i < b.len() ==> (#[trigger] b[i]).len() <= u64::MAX,
    ensures
        a == b,
    decreases a.len(),
{
    if a.len() > 0 {
        bytes::lemma_le_len(a[0].len(), 8);
    }
    if b.len() > 0 {
        bytes::lemma_le_len(b[0].len(), 8);
    }
    if a.len() == 0 || b.len() == 0 {
        assert(a =~= b);
    } else {
        let (x, y) = (a[0] + frames(a.skip(1)), b[0] + frames(b.skip(1)));
        assert(frames(a) =~= bytes::le(a[0].len(), 8) + x);
        assert(frames(b) =~= bytes::le(b[0].len(), 8) + y);
        lemma_front(a[0].len(), b[0].len(), x, y);
        let n = a[0].len() as int;
        assert(x.take(n) =~= a[0]);
        assert(y.take(n) =~= b[0]);
        assert(x.skip(n) =~= frames(a.skip(1)));
        assert(y.skip(n) =~= frames(b.skip(1)));
        assert forall|i: int| 0 <= i < a.skip(1).len() implies (#[trigger] a.skip(1)[i]).len()
            <= u64::MAX by {
            assert(a.skip(1)[i] == a[i + 1]);
        }
        assert forall|i: int| 0 <= i < b.skip(1).len() implies (#[trigger] b.skip(1)[i]).len()
            <= u64::MAX by {
            assert(b.skip(1)[i] == b[i + 1]);
        }
        lemma_frames_unique(a.skip(1), b.skip(1));
        assert(a =~= seq![a[0]] + a.skip(1));
        assert(b =~= seq![b[0]] + b.skip(1));
    }
}

/// Concatenations cannot collide: lists of byte strings that leave a transcript with the same bytes
/// are the same list.
pub proof fn absorbing_binds(s: Script, a: Seq<Seq<u8>>, b: Seq<Seq<u8>>)
    requires
        absorb_all(s, a).absorbed == absorb_all(s, b).absorbed,
        forall|i: int| 0 <= i < a.len() ==> (#[trigger] a[i]).len() <= u64::MAX,
        forall|i: int| 0 <= i < b.len() ==> (#[trigger] b[i]).len() <= u64::MAX,
    ensures
        a == b,
{
    lemma_frames(s, a);
    lemma_frames(s, b);
    let n = s.absorbed.len() as int;
    assert((s.absorbed + frames(a)).skip(n) =~= frames(a));
    assert((s.absorbed + frames(b)).skip(n) =~= frames(b));
    lemma_frames_unique(a, b);
}

/// No two derivations from one absorbed state hash the same bytes: the input of a derivation
/// determines its number and its label.
pub proof fn derivations_differ(s: Script, t: Script, l: Seq<u8>, m: Seq<u8>)
    requires
        s.absorbed == t.absorbed,
        s.seed(l) == t.seed(m),
        l.len() <= u64::MAX,
        m.len() <= u64::MAX,
    ensures
        s.counter == t.counter,
        l == m,
{
    let n = s.absorbed.len() as int;
    let (x, y) = (bytes::le(l.len(), 8) + l, bytes::le(m.len(), 8) + m);
    assert(s.seed(l).skip(n) =~= bytes::le(s.counter as nat, 8) + x);
    assert(t.seed(m).skip(n) =~= bytes::le(t.counter as nat, 8) + y);
    lemma_front(s.counter as nat, t.counter as nat, x, y);
    lemma_front(l.len(), m.len(), l, m);
}

/// Two byte strings behind their lengths at the front of the same bytes.
pub proof fn lemma_framed(b: Seq<u8>, c: Seq<u8>, x: Seq<u8>, y: Seq<u8>)
    requires
        bytes::le(b.len(), 8) + b + x == bytes::le(c.len(), 8) + c + y,
        b.len() <= u64::MAX,
        c.len() <= u64::MAX,
    ensures
        b == c,
        x == y,
{
    assert(bytes::le(b.len(), 8) + b + x =~= bytes::le(b.len(), 8) + (b + x));
    assert(bytes::le(c.len(), 8) + c + y =~= bytes::le(c.len(), 8) + (c + y));
    lemma_front(b.len(), c.len(), b + x, c + y);
    let n = b.len() as int;
    assert((b + x).take(n) =~= b);
    assert((c + y).take(n) =~= c);
    assert((b + x).skip(n) =~= x);
    assert((c + y).skip(n) =~= y);
}

/// Lists of elements of `GF(2^162)` with the same bytes are the same list, limb by limb.
pub proof fn f162_bytes_injective(v: Seq<F162>, w: Seq<F162>)
    requires
        f162_bytes(v) == f162_bytes(w),
    ensures
        v == w,
    decreases v.len(),
{
    lemma_f162_bytes_len(v);
    lemma_f162_bytes_len(w);
    if v.len() > 0 {
        let (x, y) = (v.last(), w.last());
        let (a, b) = (f162_bytes(v.drop_last()), f162_bytes(w.drop_last()));
        lemma_f162_bytes_len(v.drop_last());
        lemma_f162_bytes_len(w.drop_last());
        let n = a.len() as int;
        assert(f162_bytes(v).take(n) =~= a);
        assert(f162_bytes(w).take(n) =~= b);
        assert(f162_bytes(v).skip(n) =~= limb_bytes(x));
        assert(f162_bytes(w).skip(n) =~= limb_bytes(y));
        f162_bytes_injective(v.drop_last(), w.drop_last());
        let (p, q) = (
            bytes::le(x.0[1] as nat, 8) + bytes::le(x.0[2] as nat, 8),
            bytes::le(y.0[1] as nat, 8) + bytes::le(y.0[2] as nat, 8),
        );
        assert(limb_bytes(x) =~= bytes::le(x.0[0] as nat, 8) + p);
        assert(limb_bytes(y) =~= bytes::le(y.0[0] as nat, 8) + q);
        lemma_front(x.0[0] as nat, y.0[0] as nat, p, q);
        let (r, s) = (bytes::le(x.0[2] as nat, 8), bytes::le(y.0[2] as nat, 8));
        lemma_front(x.0[1] as nat, y.0[1] as nat, r, s);
        assert(r =~= r + Seq::<u8>::empty());
        assert(s =~= s + Seq::<u8>::empty());
        lemma_front(x.0[2] as nat, y.0[2] as nat, Seq::empty(), Seq::empty());
        assert(x.0@ =~= y.0@);
        assert(x.0 =~= y.0);
        assert(v =~= v.drop_last().push(x));
        assert(w =~= w.drop_last().push(y));
    } else {
        assert(v =~= w);
    }
}

/// Lists of elements of `GF(2^128)` with the same bytes are the same list.
pub proof fn b128_bytes_injective(v: Seq<B128>, w: Seq<B128>)
    requires
        b128_bytes(v) == b128_bytes(w),
    ensures
        v == w,
    decreases v.len(),
{
    lemma_b128_bytes_len(v);
    lemma_b128_bytes_len(w);
    if v.len() > 0 {
        let (x, y) = (v.last(), w.last());
        let (a, b) = (b128_bytes(v.drop_last()), b128_bytes(w.drop_last()));
        lemma_b128_bytes_len(v.drop_last());
        lemma_b128_bytes_len(w.drop_last());
        let n = a.len() as int;
        assert(b128_bytes(v).take(n) =~= a);
        assert(b128_bytes(w).take(n) =~= b);
        assert(b128_bytes(v).skip(n) =~= bytes::le(x.0 as nat, 16));
        assert(b128_bytes(w).skip(n) =~= bytes::le(y.0 as nat, 16));
        b128_bytes_injective(v.drop_last(), w.drop_last());
        bytes::lemma_radix_values();
        bytes::lemma_of_le_le(x.0 as nat, 16);
        bytes::lemma_of_le_le(y.0 as nat, 16);
        assert(v =~= v.drop_last().push(x));
        assert(w =~= w.drop_last().push(y));
    } else {
        assert(v =~= w);
    }
}

proof fn lemma_f162_slice(v: Seq<F162>, i: int)
    requires
        0 <= i < v.len(),
    ensures
        f162_bytes(v).len() == 24 * v.len(),
        f162_bytes(v).subrange(24 * i, 24 * i + 24) == limb_bytes(v[i]),
    decreases v.len(),
{
    let w = v.drop_last();
    lemma_f162_bytes_len(v);
    lemma_f162_bytes_len(w);
    if i < v.len() - 1 {
        lemma_f162_slice(w, i);
        assert(f162_bytes(v).subrange(24 * i, 24 * i + 24) =~= f162_bytes(w).subrange(
            24 * i,
            24 * i + 24,
        ));
    } else {
        assert(f162_bytes(v).subrange(24 * i, 24 * i + 24) =~= limb_bytes(v[i]));
    }
}

proof fn lemma_b128_slice(v: Seq<B128>, i: int)
    requires
        0 <= i < v.len(),
    ensures
        b128_bytes(v).len() == 16 * v.len(),
        b128_bytes(v).subrange(16 * i, 16 * i + 16) == bytes::le(v[i].0 as nat, 16),
    decreases v.len(),
{
    let w = v.drop_last();
    lemma_b128_bytes_len(v);
    lemma_b128_bytes_len(w);
    if i < v.len() - 1 {
        lemma_b128_slice(w, i);
        assert(b128_bytes(v).subrange(16 * i, 16 * i + 16) =~= b128_bytes(w).subrange(
            16 * i,
            16 * i + 16,
        ));
    } else {
        assert(b128_bytes(v).subrange(16 * i, 16 * i + 16) =~= bytes::le(v[i].0 as nat, 16));
    }
}

/// What is sampled reaches every list: the bytes of a list of field elements read back as that list.
pub proof fn f162s_read_back(v: Seq<F162>)
    requires
        linear::all_wf(v),
    ensures
        f162s_of(f162_bytes(v), v.len()) == v,
{
    let b = f162_bytes(v);
    assert forall|i: int| 0 <= i < v.len() implies f162s_of(b, v.len())[i] == v[i] by {
        let x = v[i];
        assert(x.wf());
        lemma_f162_slice(v, i);
        bytes::lemma_radix_values();
        bytes::lemma_le_len(x.0[0] as nat, 8);
        bytes::lemma_le_len(x.0[1] as nat, 8);
        bytes::lemma_le_len(x.0[2] as nat, 8);
        let l = limb_bytes(x);
        let o = 24 * i;
        assert(b.subrange(o, o + 8) =~= b.subrange(o, o + 24).subrange(0, 8));
        assert(b.subrange(o + 8, o + 16) =~= b.subrange(o, o + 24).subrange(8, 16));
        assert(b.subrange(o + 16, o + 24) =~= b.subrange(o, o + 24).subrange(16, 24));
        assert(l.subrange(0, 8) =~= bytes::le(x.0[0] as nat, 8));
        assert(l.subrange(8, 16) =~= bytes::le(x.0[1] as nat, 8));
        assert(l.subrange(16, 24) =~= bytes::le(x.0[2] as nat, 8));
        bytes::lemma_of_le_le(x.0[0] as nat, 8);
        bytes::lemma_of_le_le(x.0[1] as nat, 8);
        bytes::lemma_of_le_le(x.0[2] as nat, 8);
        assert(o + 8 + 8 == o + 16 && o + 16 + 8 == o + 24);
        let y = f162_at(b, o);
        assert(y.0@ =~= x.0@);
        assert(y.0 =~= x.0);
    }
    assert(f162s_of(b, v.len()) =~= v);
}

/// The bytes of a list of words read back as that list.
pub proof fn b128s_read_back(v: Seq<B128>)
    ensures
        b128s_of(b128_bytes(v), v.len()) == v,
{
    let b = b128_bytes(v);
    assert forall|i: int| 0 <= i < v.len() implies b128s_of(b, v.len())[i] == v[i] by {
        lemma_b128_slice(v, i);
        bytes::lemma_radix_values();
        bytes::lemma_of_le_le(v[i].0 as nat, 16);
    }
    assert(b128s_of(b, v.len()) =~= v);
}

/// Every element of a sampled list comes from bytes of its own: changing no byte of `24 i .. 24 i + 24`
/// changes nothing of element `i`, and elements from bytes that agree up to the 30 unused bits are equal.
pub proof fn f162s_from_own_bytes(b: Seq<u8>, c: Seq<u8>, n: nat, i: int)
    requires
        b.len() == 24 * n,
        c.len() == 24 * n,
        0 <= i < n,
        forall|k: int| 24 * i <= k < 24 * i + 20 ==> b[k] == c[k],
        b[24 * i + 20] % 4 == c[24 * i + 20] % 4,
    ensures
        f162s_of(b, n)[i] == f162s_of(c, n)[i],
{
    let o = 24 * i;
    assert(b.subrange(o, o + 8) =~= c.subrange(o, o + 8));
    assert(b.subrange(o + 8, o + 16) =~= c.subrange(o + 8, o + 16));
    assert(o + 8 + 8 == o + 16);
    let (x, y) = (b.subrange(o + 16, o + 24), c.subrange(o + 16, o + 24));
    lemma_low_bits(x);
    lemma_low_bits(y);
    bytes::lemma_le_of_le(x);
    bytes::lemma_le_of_le(y);
    bytes::lemma_radix_values();
    assert(x[0] == y[0] && x[1] == y[1] && x[2] == y[2] && x[3] == y[3]);
    assert(x[4] == b[o + 20] && y[4] == c[o + 20]);
    let (p, q) = (f162_at(b, o), f162_at(c, o));
    assert(p.0@ =~= q.0@);
    assert(p.0 =~= q.0);
}

/// The low 34 bits of eight bytes.
proof fn lemma_low_bits(x: Seq<u8>)
    requires
        x.len() == 8,
    ensures
        bytes::of_le(x) as int % 0x4_0000_0000 == x[0] + 0x100 * x[1] + 0x1_0000 * x[2]
            + 0x100_0000 * x[3] + 0x1_0000_0000 * (x[4] as int % 4),
{
    reveal_with_fuel(bytes::of_le, 6);
    let t = x.skip(1).skip(1).skip(1).skip(1).skip(1);
    let h = bytes::of_le(t) as int;
    assert(x.skip(1).skip(1)[0] == x[2]);
    assert(x.skip(1).skip(1).skip(1)[0] == x[3]);
    assert(x.skip(1).skip(1).skip(1).skip(1)[0] == x[4]);
    let low = x[0] + 0x100 * x[1] + 0x1_0000 * x[2] + 0x100_0000 * x[3];
    assert(bytes::of_le(x) == low + 0x1_0000_0000 * (x[4] + 256 * h));
    let k = x[4] as int / 4 + 64 * h;
    assert(bytes::of_le(x) == low + 0x1_0000_0000 * (x[4] as int % 4) + 0x4_0000_0000 * k);
    vstd::arithmetic::div_mod::lemma_fundamental_div_mod_converse(
        bytes::of_le(x) as int,
        0x4_0000_0000,
        k,
        low + 0x1_0000_0000 * (x[4] as int % 4),
    );
}

} // verus!
