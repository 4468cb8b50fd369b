//! Short challenges over `R_162 = Z[Z]/Phi_243(Z)`, `Phi_243(Z) = Z^162 + Z^81 + 1`.
//!
//! A challenge is a weight-`w` signed element: `w` of the 162 coefficients are `+-1` and the rest
//! are zero, stored as the sorted positions and a sign per position. A candidate is a uniform
//! position set, drawn by a partial Fisher-Yates from one output stream of the transcript, and
//! signed by a hash of its own positions; the first candidate that the caller accepts is the
//! challenge.
use super::transcript;
use super::transcript::Transcript;
use crate::bytes;
use crate::fields::scalar;
use crate::fields::scalar::F162;
use crate::hash;
use blake3::Hasher;
use vstd::arithmetic::power2::*;
use vstd::bits::*;
use vstd::prelude::*;
use vstd::string::*;

verus! {

/// Conductor of the small ring.
pub const CONDUCTOR243: usize = 243;

/// Degree of the small ring.
pub const DEGREE: usize = 162;

/// Largest weight a [`ShortChallenge`] can hold.
pub const MAX_WEIGHT: usize = 32;

/// The weight the crate samples at unless told otherwise.
pub const DEFAULT_WEIGHT: usize = 28;

/// A weight-`w` signed element of `R_162`: coefficient `positions[i]` is `-1` when bit `i` of
/// `signs` is set and `+1` otherwise, every other coefficient zero. Positions are sorted and
/// distinct; bits and entries beyond `weight` are unused and zero.
#[derive(Clone, Copy, Debug)]
pub struct ShortChallenge {
    pub positions: [u8; 32],
    pub signs: u32,
    pub weight: usize,
}

/// Bit `i` of the signs.
pub open spec fn sign(signs: u32, i: int) -> bool {
    scalar::bit128(signs as u128, i)
}

impl ShortChallenge {
    pub open spec fn wf(&self) -> bool {
        &&& self.weight <= 32
        &&& forall|i: int| 0 <= i < self.weight ==> (#[trigger] self.positions[i]) < 162
        &&& forall|i: int, j: int|
            0 <= i < j < self.weight ==> #[trigger] self.positions[i] < #[trigger] self.positions[j]
        &&& forall|i: int| self.weight <= i < 32 ==> (#[trigger] self.positions[i]) == 0
        &&& forall|i: int| self.weight <= i < 32 ==> !(#[trigger] sign(self.signs, i))
    }

    /// `p` is one of the positions.
    pub open spec fn has(&self, p: int) -> bool {
        exists|i: int| 0 <= i < self.weight && #[trigger] self.positions[i] == p
    }

    /// `c` is the coefficient vector of the challenge.
    pub open spec fn is(&self, c: Seq<i8>) -> bool {
        &&& c.len() == 162
        &&& forall|i: int|
            0 <= i < self.weight ==> c[(#[trigger] self.positions[i]) as int] == (if sign(
                self.signs,
                i,
            ) {
                -1i8
            } else {
                1i8
            })
        &&& forall|p: int| 0 <= p < 162 && !self.has(p) ==> #[trigger] c[p] == 0
    }

    /// The coefficient vector.
    pub open spec fn coefficients(&self) -> Seq<i8> {
        Seq::new(
            162,
            |p: int|
                if self.has(p) {
                    let i = choose|i: int| 0 <= i < self.weight && #[trigger] self.positions[i] == p;
                    if sign(self.signs, i) {
                        -1i8
                    } else {
                        1i8
                    }
                } else {
                    0i8
                },
        )
    }

    /// The coefficient vector is the only one.
    pub proof fn lemma_coefficients(&self, c: Seq<i8>)
        requires
            self.wf(),
            self.is(c),
        ensures
            c == self.coefficients(),
    {
        assert forall|p: int| 0 <= p < 162 implies c[p] == self.coefficients()[p] by {
            if self.has(p) {
                let i = choose|i: int| 0 <= i < self.weight && #[trigger] self.positions[i] == p;
                assert(c[self.positions[i] as int] == (if sign(self.signs, i) {
                    -1i8
                } else {
                    1i8
                }));
            }
        }
        assert(c =~= self.coefficients());
    }

    /// The zero element (weight 0).
    pub fn zero() -> (r: ShortChallenge)
        ensures
            r.wf(),
            r.weight == 0,
            r.signs == 0,
            r.positions@ == Seq::new(32, |i: int| 0u8),
            r.is(Seq::new(162, |i: int| 0i8)),
    {
        let r = ShortChallenge { positions: [0u8; 32], signs: 0, weight: 0 };
        proof {
            scalar::lemma_zero_bits();
            assert(r.positions@ =~= Seq::new(32, |i: int| 0u8));
        }
        r
    }

    /// The dense coefficient vector: coefficient of `Z^p` at index `p`.
    pub fn coeffs(&self) -> (c: [i8; 162])
        requires
            self.wf(),
        ensures
            self.is(c@),
    {
        let mut c = [0i8; 162];
        let mut i: usize = 0;
        while i < self.weight
            invariant
                i <= self.weight,
                self.wf(),
                forall|k: int|
                    0 <= k < i ==> c@[(#[trigger] self.positions[k]) as int] == (if sign(
                        self.signs,
                        k,
                    ) {
                        -1i8
                    } else {
                        1i8
                    }),
                forall|p: int|
                    0 <= p < 162 && (forall|k: int|
                        0 <= k < i ==> (#[trigger] self.positions[k]) != p) ==> #[trigger] c@[p]
                        == 0,
            decreases self.weight - i,
        {
            let p: usize = self.positions[i] as usize;
            let s: bool = ((self.signs as u128) >> (i as u128)) & 1 == 1;
            let ghost before = c@;
            c[p] = if s {
                -1
            } else {
                1
            };
            assert forall|k: int| 0 <= k < i + 1 implies c@[(
            #[trigger] self.positions[k]) as int] == (if sign(self.signs, k) {
                -1i8
            } else {
                1i8
            }) by {
                if k < i {
                    assert(self.positions[k] < self.positions[i as int]);
                }
            }
            assert forall|q: int|
                0 <= q < 162 && (forall|k: int|
                    0 <= k < i + 1 ==> (#[trigger] self.positions[k]) != q) implies #[trigger] c@[q]
                == 0 by {
                assert(self.positions[i as int] != q);
                assert(before[q] == 0);
            }
            i += 1;
        }
        c
    }

    /// The challenge modulo 2, as an element of `F162`: a bit at each of its positions.
    pub fn to_f162(&self) -> (r: F162)
        requires
            self.wf(),
        ensures
            r.wf(),
            forall|p: int| 0 <= p < 162 ==> #[trigger] r@[p] == self.has(p),
    {
        let mut x = F162::zero();
        let mut i: usize = 0;
        while i < self.weight
            invariant
                i <= self.weight,
                self.wf(),
                x.wf(),
                forall|p: int|
                    0 <= p < 162 ==> #[trigger] x@[p] == (exists|k: int|
                        0 <= k < i && #[trigger] self.positions[k] == p),
            decreases self.weight - i,
        {
            let p: usize = self.positions[i] as usize;
            let ghost before = x@;
            x = x.with_bit(p);
            proof {
                assert forall|q: int| 0 <= q < 162 implies #[trigger] x@[q] == (exists|k: int|
                    0 <= k < i + 1 && #[trigger] self.positions[k] == q) by {
                    if x@[q] {
                        if q == p {
                            assert(self.positions[i as int] == q);
                        } else {
                            assert(before[q]);
                        }
                    }
                    if exists|k: int| 0 <= k < i + 1 && #[trigger] self.positions[k] == q {
                        let k = choose|k: int| 0 <= k < i + 1 && #[trigger] self.positions[k] == q;
                        if k < i {
                            assert(before[q]);
                        }
                    }
                }
            }
            i += 1;
        }
        x
    }

    /// The sparse form of a signed coefficient vector with at most [`MAX_WEIGHT`] nonzero
    /// entries.
    pub fn from_coeffs(c: &[i8; 162]) -> (r: ShortChallenge)
        requires
            forall|p: int| 0 <= p < 162 ==> -1 <= #[trigger] c@[p] <= 1,
            nonzeros(c@, 162) <= 32,
        ensures
            r.wf(),
            r.weight == nonzeros(c@, 162),
            r.is(c@),
    {
        let mut out = ShortChallenge::zero();
        let mut p: usize = 0;
        proof {
            scalar::lemma_zero_bits();
        }
        while p < 162
            invariant
                p <= 162,
                forall|p: int| 0 <= p < 162 ==> -1 <= #[trigger] c@[p] <= 1,
                nonzeros(c@, 162) <= 32,
                out.wf(),
                out.weight == nonzeros(c@, p as nat),
                forall|i: int| 0 <= i < out.weight ==> (#[trigger] out.positions[i]) < p,
                forall|i: int|
                    0 <= i < out.weight ==> c@[(#[trigger] out.positions[i]) as int] == (if sign(
                        out.signs,
                        i,
                    ) {
                        -1i8
                    } else {
                        1i8
                    }),
                forall|q: int| 0 <= q < p && !out.has(q) ==> #[trigger] c@[q] == 0,
            decreases 162 - p,
        {
            let x: i8 = c[p];
            proof {
                lemma_nonzeros_mono(c@, (p + 1) as nat, 162);
            }
            if x != 0 {
                let w: usize = out.weight;
                let ghost before = out;
                out.positions[w] = p as u8;
                if x < 0 {
                    let s: u32 = out.signs;
                    out.signs = s | (1u32 << (w as u32));
                    proof {
                        lemma_set_sign(s, w as u32);
                    }
                }
                out.weight = w + 1;
                proof {
                    assert(out.positions@ =~= before.positions@.update(w as int, p as u8));
                    assert forall|q: int| 0 <= q < p + 1 && !out.has(q) implies #[trigger] c@[q]
                        == 0 by {
                        if q == p {
                            assert(out.positions[w as int] == q);
                        } else if before.has(q) {
                            let i = choose|i: int|
                                0 <= i < before.weight && #[trigger] before.positions[i] == q;
                            assert(out.positions[i] == q);
                        }
                    }
                }
            }
            p += 1;
        }
        out
    }
}

/// The number of nonzero entries among the first `n`.
pub open spec fn nonzeros(c: Seq<i8>, n: nat) -> nat
    decreases n,
{
    if n == 0 {
        0
    } else {
        nonzeros(c, (n - 1) as nat) + (if c[n - 1] != 0 {
            1nat
        } else {
            0nat
        })
    }
}

proof fn lemma_nonzeros_mono(c: Seq<i8>, m: nat, n: nat)
    requires
        m <= n,
    ensures
        nonzeros(c, m) <= nonzeros(c, n),
    decreases n,
{
    if m < n {
        lemma_nonzeros_mono(c, m, (n - 1) as nat);
    }
}

proof fn lemma_set_sign(s: u32, w: u32)
    requires
        w < 32,
    ensures
        forall|i: int|
            0 <= i < 32 ==> #[trigger] sign(s | (1u32 << w), i) == (i == w || sign(s, i)),
{
    assert forall|i: int| 0 <= i < 32 implies #[trigger] sign(s | (1u32 << w), i) == (i == w
        || sign(s, i)) by {
        let k = i as u128;
        let t = s | (1u32 << w);
        assert((((t as u128) >> k) & 1 == 1) == (k == w || ((s as u128) >> k) & 1 == 1)) by (bit_vector)
            requires
                w < 32,
                k < 32,
                t == s | (1u32 << w),
        ;
    }
}

// ---------------------------------------------------------------------------------------------
// the two forms name the same element
// ---------------------------------------------------------------------------------------------

proof fn lemma_nonzero_has(a: ShortChallenge, c: Seq<i8>, p: int)
    requires
        a.wf(),
        a.is(c),
        0 <= p < 162,
    ensures
        a.has(p) == (c[p] != 0),
{
    if a.has(p) {
        let i = choose|i: int| 0 <= i < a.weight && #[trigger] a.positions[i] == p;
        assert(c[a.positions[i] as int] != 0);
    }
}

proof fn lemma_same_positions(a: ShortChallenge, b: ShortChallenge, i: nat)
    requires
        a.wf(),
        b.wf(),
        forall|p: int| 0 <= p < 162 ==> #[trigger] a.has(p) == b.has(p),
        i <= a.weight,
    ensures
        i <= b.weight,
        forall|k: int| 0 <= k < i ==> #[trigger] a.positions[k] == b.positions[k],
    decreases i,
{
    if i > 0 {
        let m = (i - 1) as nat;
        lemma_same_positions(a, b, m);
        let p = a.positions[m as int] as int;
        assert(a.has(p));
        assert(b.has(p));
        let j = choose|j: int| 0 <= j < b.weight && #[trigger] b.positions[j] == p;
        if j < m {
            assert(a.positions[j] == b.positions[j]);
            assert(a.positions[j] < a.positions[m as int]);
        }
        let q = b.positions[m as int] as int;
        assert(b.has(q));
        assert(a.has(q));
        let l = choose|l: int| 0 <= l < a.weight && #[trigger] a.positions[l] == q;
        if l < m {
            assert(a.positions[l] == b.positions[l]);
            assert(b.positions[l] < b.positions[m as int]);
        }
        if j > m {
            assert(b.positions[m as int] < b.positions[j]);
        }
        if l > m {
            assert(a.positions[m as int] < a.positions[l]);
        }
    }
}

/// A coefficient vector has one sparse form: `from_coeffs` undoes `coeffs`.
pub proof fn sparse_unique(a: ShortChallenge, b: ShortChallenge, c: Seq<i8>)
    requires
        a.wf(),
        b.wf(),
        a.is(c),
        b.is(c),
    ensures
        a == b,
{
    assert forall|p: int| 0 <= p < 162 implies #[trigger] a.has(p) == b.has(p) by {
        lemma_nonzero_has(a, c, p);
        lemma_nonzero_has(b, c, p);
    }
    lemma_same_positions(a, b, a.weight as nat);
    lemma_same_positions(b, a, b.weight as nat);
    assert forall|i: int| 0 <= i < 32 implies a.positions[i] == b.positions[i] by {}
    assert(a.positions@ =~= b.positions@);
    assert(a.positions =~= b.positions);
    let (x, y) = (a.signs as u128, b.signs as u128);
    assert forall|i: int| 0 <= i < 128 implies scalar::bit128(x, i) == scalar::bit128(y, i) by {
        if i < 32 {
            assert(sign(a.signs, i) == sign(b.signs, i)) by {
                if i < a.weight {
                    assert(a.positions[i] == b.positions[i]);
                    assert(c[a.positions[i] as int] == c[b.positions[i] as int]);
                }
            }
        } else {
            lemma_high_bits(a.signs, i);
            lemma_high_bits(b.signs, i);
        }
    }
    scalar::lemma_ext128(x, y);
}

proof fn lemma_high_bits(s: u32, i: int)
    requires
        32 <= i < 128,
    ensures
        !scalar::bit128(s as u128, i),
{
    scalar::lemma_widen(s as u64, i);
    if i < 64 {
        let (w, k) = (s as u64, i as u64);
        lemma_u64_shr_is_div(w, k);
        lemma2_to64();
        if k > 32 {
            lemma_pow2_strictly_increases(32, k as nat);
        }
        vstd::arithmetic::div_mod::lemma_basic_div(w as int, pow2(k as nat) as int);
        assert(w >> k == 0);
        scalar::lemma_zero_bits();
        assert((0u64 >> 0u64) & 1 == 1 <==> scalar::bit64(0, 0));
        assert(0u64 >> 0u64 == 0u64) by {
            lemma_u64_shr_is_div(0, 0);
        }
    }
}

// ---------------------------------------------------------------------------------------------
// the output stream
// ---------------------------------------------------------------------------------------------

/// The last byte of an output stream that is read, rounded down to a whole buffer.
pub const STREAM_END: u64 = 0xFFFF_FFFF_FFFF_FF00;

/// Where a reader stands in an output stream.
pub struct Stream {
    pub key: Seq<u8>,
    pub input: Seq<u8>,
    pub pos: nat,
}

impl Stream {
    /// The next byte.
    pub open spec fn byte(self) -> u8 {
        hash::xof_byte(self.key, self.input, self.pos as int)
    }

    pub open spec fn skip(self, n: nat) -> Stream {
        Stream { pos: self.pos + n, ..self }
    }

    /// The next two bytes, little-endian.
    pub open spec fn u16(self) -> int {
        self.byte() + 256 * self.skip(1).byte()
    }

    /// The first `u16` below the largest multiple of `n`, modulo `n`, and the stream behind it;
    /// `None` where the stream ends first.
    pub open spec fn below(self, n: int) -> Option<(int, Stream)>
        decreases STREAM_END - self.pos,
    {
        if self.pos + 2 > STREAM_END {
            None
        } else if self.u16() < 65536int / n * n {
            Some((self.u16() % n, self.skip(2)))
        } else {
            self.skip(2).below(n)
        }
    }

    /// The permutation of `0..162` and the stream after `i` steps of the partial Fisher-Yates.
    pub open spec fn shuffled(self, i: nat) -> Option<(Seq<u8>, Stream)>
        decreases i,
    {
        if i == 0 {
            Some((Seq::new(162, |p: int| p as u8), self))
        } else {
            match self.shuffled((i - 1) as nat) {
                None => None,
                Some((perm, s)) => match s.below(163 - i) {
                    None => None,
                    Some((r, rest)) => Some((swapped(perm, i - 1, i - 1 + r), rest)),
                },
            }
        }
    }
}

/// The sequence with entries `i` and `j` exchanged.
pub open spec fn swapped(s: Seq<u8>, i: int, j: int) -> Seq<u8> {
    s.update(i, s[j]).update(j, s[i])
}

/// A buffered reader of one output stream.
pub struct Xof {
    state: Hasher,
    buf: [u8; 256],
    pos: usize,
    next: u64,
}

impl View for Xof {
    type V = Stream;

    closed spec fn view(&self) -> Stream {
        Stream {
            key: hash::hasher_key(self.state),
            input: hash::hasher_input(self.state),
            pos: (self.next - (256 - self.pos)) as nat,
        }
    }
}

impl Xof {
    /// The buffer holds the 256 bytes before the next ones to fetch.
    pub closed spec fn wf(&self) -> bool {
        &&& self.pos <= 256
        &&& self.next <= STREAM_END
        &&& self.next % 256 == 0
        &&& self.pos < 256 ==> self.next >= 256
        &&& self.pos < 256 ==> self.buf@ == Seq::new(
            256,
            |i: int|
                hash::xof_byte(
                    hash::hasher_key(self.state),
                    hash::hasher_input(self.state),
                    self.next - 256 + i,
                ),
        )
    }

    pub(crate) fn new(state: Hasher) -> (x: Xof)
        ensures
            x.wf(),
            x@.key == hash::hasher_key(state),
            x@.input == hash::hasher_input(state),
            x@.pos == 0,
    {
        Xof { state, buf: [0u8; 256], pos: 256, next: 0 }
    }

    /// The next byte; `None` at the end of the stream.
    pub fn byte(&mut self) -> (r: Option<u8>)
        requires
            old(self).wf(),
        ensures
            final(self).wf(),
            r == (if old(self)@.pos < STREAM_END {
                Some(old(self)@.byte())
            } else {
                None
            }),
            r is Some ==> final(self)@ == old(self)@.skip(1),
            r is None ==> final(self)@ == old(self)@,
    {
        if self.pos == 256 {
            if self.next >= STREAM_END {
                return None;
            }
            hash::xof_fill(&self.state, self.next, &mut self.buf);
            self.pos = 0;
            self.next = self.next + 256;
            assert(self.buf@ =~= Seq::new(
                256,
                |i: int|
                    hash::xof_byte(
                        hash::hasher_key(self.state),
                        hash::hasher_input(self.state),
                        self.next - 256 + i,
                    ),
            ));
        }
        let b: u8 = self.buf[self.pos];
        self.pos = self.pos + 1;
        Some(b)
    }

    /// The next two bytes, little-endian; `None` at the end of the stream.
    pub fn u16(&mut self) -> (r: Option<u16>)
        requires
            old(self).wf(),
        ensures
            final(self).wf(),
            r is Some <==> old(self)@.pos + 2 <= STREAM_END,
            r matches Some(x) ==> x == old(self)@.u16() && final(self)@ == old(self)@.skip(2),
    {
        let lo: u8 = match self.byte() {
            Some(b) => b,
            None => return None,
        };
        let hi: u8 = match self.byte() {
            Some(b) => b,
            None => return None,
        };
        Some(lo as u16 + 256 * (hi as u16))
    }

    /// A uniform integer below `n`, by rejection; `None` at the end of the stream.
    pub fn below(&mut self, n: u16) -> (r: Option<u16>)
        requires
            old(self).wf(),
            n > 0,
        ensures
            final(self).wf(),
            match (r, old(self)@.below(n as int)) {
                (Some(x), Some((y, s))) => x == y && x < n && final(self)@ == s,
                (None, None) => true,
                _ => false,
            },
    {
        proof {
            vstd::arithmetic::div_mod::lemma_fundamental_div_mod(65536, n as int);
            vstd::arithmetic::mul::lemma_mul_is_commutative(n as int, 65536int / (n as int));
        }
        let limit: u32 = 65536u32 / (n as u32) * (n as u32);
        let ghost start = self@;
        loop
            invariant
                self.wf(),
                start == old(self)@,
                n > 0,
                limit == 65536int / (n as int) * (n as int),
                start.below(n as int) == self@.below(n as int),
            decreases STREAM_END - self@.pos,
        {
            let ghost here = self@;
            let r: u16 = match self.u16() {
                Some(r) => r,
                None => return None,
            };
            assert(here.below(n as int) == (if here.u16() < limit {
                Some((here.u16() % (n as int), here.skip(2)))
            } else {
                here.skip(2).below(n as int)
            }));
            if (r as u32) < limit {
                return Some(r % n);
            }
        }
    }
}

// ---------------------------------------------------------------------------------------------
// candidates
// ---------------------------------------------------------------------------------------------

/// The context string of the sign hash.
pub open spec fn sign_context() -> Seq<char> {
    "bin-ntt 2026 challenge signs v1"@
}

/// What the sign hash of a position set takes in.
pub open spec fn sign_material(c: ShortChallenge) -> Seq<u8> {
    bytes::le(c.weight as nat, 8) + c.positions@.take(c.weight as int)
}

/// The sign word that a 32-byte digest gives a weight-`w` position set: its first four bytes,
/// little-endian, cut to `w` bits.
pub open spec fn sign_word(digest: Seq<u8>, w: nat) -> nat {
    bytes::of_le(digest.take(4)) % pow2(w)
}

impl ShortChallenge {
    /// The same positions under the signs that `digest` gives.
    pub fn signed_by(&self, digest: &[u8; 32]) -> (r: ShortChallenge)
        requires
            self.wf(),
        ensures
            r.wf(),
            r.positions == self.positions,
            r.weight == self.weight,
            r.signs == sign_word(digest@, self.weight as nat),
    {
        let b: u64 = bytes::read_le(digest.as_slice(), 0, 4) as u64;
        let w: u64 = self.weight as u64;
        proof {
            bytes::lemma_radix_values();
            assert(digest@.subrange(0, 4) =~= digest@.take(4));
            lemma2_to64();
            lemma_pow2_pos(w as nat);
            if w < 32 {
                lemma_pow2_strictly_increases(w as nat, 32);
            }
            lemma_u64_shl_is_mul(1, w);
        }
        let m: u64 = 1u64 << w;
        let s: u64 = b % m;
        let r = ShortChallenge { positions: self.positions, signs: s as u32, weight: self.weight };
        proof {
            assert forall|i: int| self.weight <= i < 32 implies !(#[trigger] sign(r.signs, i)) by {
                lemma_small_bits(s as u32, w as nat, i);
            }
        }
        r
    }

    /// The positions under the signs of their own keyed hash: a public map, so that signing
    /// takes nothing from the transcript.
    pub fn signed(&self) -> (r: ShortChallenge)
        requires
            self.wf(),
        ensures
            r.wf(),
            r.positions == self.positions,
            r.weight == self.weight,
            r.signs == sign_word(
                hash::derived_key(sign_context(), sign_material(*self)),
                self.weight as nat,
            ),
    {
        let mut b: Vec<u8> = Vec::with_capacity(40);
        bytes::push_le(&mut b, self.weight as u128, 8);
        let ghost head = b@;
        let mut i: usize = 0;
        assert(b@ =~= head + self.positions@.take(0));
        while i < self.weight
            invariant
                i <= self.weight <= 32,
                b@ == head + self.positions@.take(i as int),
            decreases self.weight - i,
        {
            b.push(self.positions[i]);
            i += 1;
            assert(b@ =~= head + self.positions@.take(i as int));
        }
        assert(b@ =~= sign_material(*self));
        let d = hash::derive_key("bin-ntt 2026 challenge signs v1", b.as_slice());
        self.signed_by(&d)
    }
}

proof fn lemma_small_bits(s: u32, w: nat, i: int)
    requires
        s < pow2(w),
        w <= i < 32,
    ensures
        !sign(s, i),
{
    let (x, k) = (s as u128, i as u128);
    lemma_u128_shr_is_div(x, k);
    if w < i {
        lemma_pow2_strictly_increases(w, i as nat);
    }
    lemma_pow2_pos(i as nat);
    vstd::arithmetic::div_mod::lemma_basic_div(x as int, pow2(k as nat) as int);
    assert(x >> k == 0);
    scalar::lemma_zero_bits();
    lemma_u128_shr_is_div(0, 0);
    lemma2_to64();
    assert(0u128 >> 0u128 == 0u128);
    assert(!scalar::bit128(0, 0));
}

/// The entries are distinct positions.
pub open spec fn is_perm(s: Seq<u8>) -> bool {
    &&& s.len() == 162
    &&& forall|i: int| 0 <= i < 162 ==> (#[trigger] s[i]) < 162
    &&& forall|i: int, j: int| 0 <= i < j < 162 ==> #[trigger] s[i] != #[trigger] s[j]
}

/// The number of marks among the first `n`.
spec fn marks(s: Seq<bool>, n: nat) -> nat
    decreases n,
{
    if n == 0 {
        0
    } else {
        marks(s, (n - 1) as nat) + (if s[n - 1] {
            1nat
        } else {
            0nat
        })
    }
}

proof fn lemma_marks_set(s: Seq<bool>, p: int, n: nat)
    requires
        0 <= p < s.len(),
        n <= s.len(),
        !s[p],
    ensures
        marks(s.update(p, true), n) == marks(s, n) + (if p < n {
            1nat
        } else {
            0nat
        }),
    decreases n,
{
    if n > 0 {
        lemma_marks_set(s, p, (n - 1) as nat);
    }
}

proof fn lemma_marks_mono(s: Seq<bool>, m: nat, n: nat)
    requires
        m <= n,
    ensures
        marks(s, m) <= marks(s, n),
    decreases n,
{
    if m < n {
        lemma_marks_mono(s, m, (n - 1) as nat);
    }
}

proof fn lemma_marks_none(s: Seq<bool>, n: nat)
    requires
        n <= s.len(),
        forall|i: int| 0 <= i < s.len() ==> !(#[trigger] s[i]),
    ensures
        marks(s, n) == 0,
    decreases n,
{
    if n > 0 {
        lemma_marks_none(s, (n - 1) as nat);
    }
}

/// `c` holds the first `weight` entries of `perm`.
pub open spec fn holds(c: ShortChallenge, perm: Seq<u8>, weight: nat) -> bool {
    &&& c.wf()
    &&& c.weight == weight
    &&& forall|p: int|
        0 <= p < 162 ==> #[trigger] c.has(p) == (exists|i: int|
            0 <= i < weight && #[trigger] perm[i] == p)
}

/// The first `weight` entries of a permutation, sorted, without signs.
fn sorted(perm: &[u8; 162], weight: usize) -> (c: ShortChallenge)
    requires
        is_perm(perm@),
        weight <= 32,
    ensures
        holds(c, perm@, weight as nat),
        c.signs == 0,
{
    let mut seen = [false; 162];
    let mut i: usize = 0;
    proof {
        lemma_marks_none(seen@, 162);
    }
    while i < weight
        invariant
            i <= weight <= 32,
            is_perm(perm@),
            marks(seen@, 162) == i,
            forall|p: int|
                0 <= p < 162 ==> #[trigger] seen@[p] == (exists|k: int|
                    0 <= k < i && #[trigger] perm@[k] == p),
        decreases weight - i,
    {
        let p: usize = perm[i] as usize;
        let ghost before = seen@;
        proof {
            if before[p as int] {
                let k = choose|k: int| 0 <= k < i && #[trigger] perm@[k] == p;
                assert(perm@[k] != perm@[i as int]);
            }
            lemma_marks_set(before, p as int, 162);
        }
        seen[p] = true;
        proof {
            assert(seen@ =~= before.update(p as int, true));
            assert forall|q: int| 0 <= q < 162 implies #[trigger] seen@[q] == (exists|k: int|
                0 <= k < i + 1 && #[trigger] perm@[k] == q) by {
                if seen@[q] {
                    if q == p {
                        assert(perm@[i as int] == q);
                    } else {
                        assert(before[q]);
                    }
                }
                if exists|k: int| 0 <= k < i + 1 && #[trigger] perm@[k] == q {
                    let k = choose|k: int| 0 <= k < i + 1 && #[trigger] perm@[k] == q;
                    if k < i {
                        assert(before[q]);
                    }
                }
            }
        }
        i += 1;
    }
    let mut out = ShortChallenge::zero();
    let mut p: usize = 0;
    proof {
        scalar::lemma_zero_bits();
    }
    while p < 162
        invariant
            p <= 162,
            weight <= 32,
            marks(seen@, 162) == weight,
            out.wf(),
            out.signs == 0,
            out.weight == marks(seen@, p as nat),
            forall|i: int|
                0 <= i < out.weight ==> (#[trigger] out.positions[i]) < p
                    && seen@[out.positions[i] as int],
            forall|q: int| 0 <= q < p && #[trigger] seen@[q] ==> out.has(q),
        decreases 162 - p,
    {
        proof {
            lemma_marks_mono(seen@, (p + 1) as nat, 162);
        }
        if seen[p] {
            let w: usize = out.weight;
            let ghost before = out;
            out.positions[w] = p as u8;
            out.weight = w + 1;
            proof {
                scalar::lemma_zero_bits();
                assert(out.positions@ =~= before.positions@.update(w as int, p as u8));
                assert forall|q: int| 0 <= q < p + 1 && #[trigger] seen@[q] implies out.has(q) by {
                    if q == p {
                        assert(out.positions[w as int] == q);
                    } else {
                        assert(before.has(q));
                        let i = choose|i: int|
                            0 <= i < before.weight && #[trigger] before.positions[i] == q;
                        assert(out.positions[i] == q);
                    }
                }
            }
        }
        p += 1;
    }
    proof {
        assert forall|q: int| 0 <= q < 162 implies #[trigger] out.has(q) == (exists|i: int|
            0 <= i < weight && #[trigger] perm@[i] == q) by {
            if out.has(q) {
                let i = choose|i: int| 0 <= i < out.weight && #[trigger] out.positions[i] == q;
                assert(seen@[out.positions[i] as int]);
            }
            assert(seen@[q] == (exists|i: int| 0 <= i < weight && #[trigger] perm@[i] == q));
        }
    }
    out
}

/// One uniform weight-`w` position set, unsigned; `None` at the end of the stream.
pub fn attempt(x: &mut Xof, weight: usize) -> (r: Option<ShortChallenge>)
    requires
        old(x).wf(),
        weight <= 32,
    ensures
        final(x).wf(),
        match (r, old(x)@.shuffled(weight as nat)) {
            (Some(c), Some((perm, s))) => {
                &&& holds(c, perm, weight as nat)
                &&& c.signs == 0
                &&& final(x)@ == s
            },
            (None, None) => true,
            _ => false,
        },
{
    let mut perm = [0u8; 162];
    let mut p: usize = 0;
    while p < 162
        invariant
            p <= 162,
            forall|i: int| 0 <= i < p ==> #[trigger] perm@[i] == i,
        decreases 162 - p,
    {
        perm[p] = p as u8;
        p += 1;
    }
    let ghost start = x@;
    let mut i: usize = 0;
    assert(perm@ =~= Seq::new(162, |p: int| p as u8));
    while i < weight
        invariant
            i <= weight <= 32,
            x.wf(),
            start == old(x)@,
            is_perm(perm@),
            start.shuffled(i as nat) == Some((perm@, x@)),
        decreases weight - i,
    {
        let ghost here = x@;
        let ghost before = perm@;
        let n: u16 = (162 - i) as u16;
        match x.below(n) {
            None => {
                proof {
                    assert(start.shuffled((i + 1) as nat) is None);
                    lemma_shuffled_none(start, (i + 1) as nat, weight as nat);
                }
                return None;
            },
            Some(r) => {
                let j: usize = i + r as usize;
                let (a, b): (u8, u8) = (perm[i], perm[j]);
                perm[i] = b;
                perm[j] = a;
                proof {
                    assert(here.below(163 - (i + 1)) == Some((r as int, x@)));
                    assert(perm@ =~= swapped(before, i as int, j as int));
                    assert(is_perm(perm@)) by {
                        assert forall|k: int, l: int| 0 <= k < l < 162 implies perm@[k] != perm@[l] by {
                            let k0 = if k == i {
                                j as int
                            } else if k == j {
                                i as int
                            } else {
                                k
                            };
                            let l0 = if l == i {
                                j as int
                            } else if l == j {
                                i as int
                            } else {
                                l
                            };
                            assert(perm@[k] == before[k0] && perm@[l] == before[l0]);
                            if k0 < l0 {
                                assert(before[k0] != before[l0]);
                            } else {
                                assert(before[l0] != before[k0]);
                            }
                        }
                    }
                }
            },
        }
        i += 1;
    }
    Some(sorted(&perm, weight))
}

proof fn lemma_shuffled_none(s: Stream, i: nat, n: nat)
    requires
        s.shuffled(i) is None,
        i <= n,
    ensures
        s.shuffled(n) is None,
    decreases n,
{
    if i < n {
        lemma_shuffled_none(s, i, (n - 1) as nat);
    }
}

/// The label of the challenge derivations.
pub open spec fn challenge_label() -> Seq<u8> {
    "short-challenge".spec_bytes()
}

pub proof fn lemma_challenge_label()
    ensures
        challenge_label().len() == 15,
{
    reveal_strlit("short-challenge");
    assert("short-challenge".is_ascii());
    vstd::string::is_ascii_spec_bytes("short-challenge");
}

/// The stream that the challenges of a transcript are read from.
pub open spec fn challenge_stream(t: transcript::Script) -> Stream {
    Stream { key: t.key, input: t.seed(challenge_label()), pos: 0 }
}

/// One uniform weight-`w` position set, unsigned: a partial Fisher-Yates over the 162 positions
/// driven by one derivation of the transcript, then sorted; `None` at the end of the stream.
pub fn sample_attempt(t: &mut Transcript, weight: usize) -> (r: Option<ShortChallenge>)
    requires
        old(t)@.can_derive(15),
        weight <= 32,
    ensures
        final(t)@ == old(t)@.next(),
        match (r, challenge_stream(old(t)@).shuffled(weight as nat)) {
            (Some(c), Some((perm, _))) => holds(c, perm, weight as nat) && c.signs == 0,
            (None, None) => true,
            _ => false,
        },
{
    proof {
        lemma_challenge_label();
    }
    let mut x = Xof::new(t.derive("short-challenge".as_bytes()));
    assert(x@ == challenge_stream(old(t)@));
    attempt(&mut x, weight)
}

/// The stream behind `k` candidates.
pub open spec fn after(s: Stream, weight: nat, k: nat) -> Option<Stream>
    decreases k,
{
    if k == 0 {
        Some(s)
    } else {
        match after(s, weight, (k - 1) as nat) {
            None => None,
            Some(t) => match t.shuffled(weight) {
                None => None,
                Some((_, rest)) => Some(rest),
            },
        }
    }
}

/// `c` is the signed candidate that the stream `s` gives.
pub open spec fn is_candidate(c: ShortChallenge, s: Stream, weight: nat) -> bool {
    &&& s.shuffled(weight) matches Some((perm, _)) && holds(c, perm, weight)
    &&& c.signs == sign_word(hash::derived_key(sign_context(), sign_material(c)), weight)
}

/// What sampling a weight-`weight` challenge from the script `t` gives: the first candidate that
/// `within` accepts and its number, or `None` where every candidate before the end of the stream is
/// refused.
pub open spec fn sampled<F: Fn(&ShortChallenge) -> bool>(
    within: F,
    t: transcript::Script,
    weight: nat,
    r: Option<(ShortChallenge, u64)>,
) -> bool {
    let s = challenge_stream(t);
    match r {
        Some((c, n)) => {
            &&& n >= 1
            &&& after(s, weight, (n - 1) as nat) matches Some(u) && is_candidate(c, u, weight)
            &&& within.ensures((&c,), true)
            &&& forall|k: nat| k < n - 1 ==> #[trigger] refused(within, s, weight, k)
        },
        None => exists|n: nat|
            {
                &&& forall|k: nat| k < n ==> #[trigger] refused(within, s, weight, k)
                &&& (#[trigger] after(s, weight, n) matches Some(u) && (weight == 0 && n == 1
                    || u.shuffled(weight) is None))
            },
    }
}

/// The first weight-`w` candidate that `within` accepts, with the number of candidates it took.
///
/// All candidates read one derivation of the transcript, each is signed before it is tested, and
/// the norm bound is the caller's test. `None` where the stream ends first, or where the weight
/// is zero and the one candidate there is refused.
pub fn sample_short_challenge<F: Fn(&ShortChallenge) -> bool>(
    t: &mut Transcript,
    weight: usize,
    within: &F,
) -> (r: Option<(ShortChallenge, u64)>)
    requires
        old(t)@.can_derive(15),
        weight <= 32,
        forall|c: &ShortChallenge| c.wf() ==> within.requires((c,)),
    ensures
        final(t)@ == old(t)@.next(),
        sampled(*within, old(t)@, weight as nat, r),
{
    proof {
        lemma_challenge_label();
    }
    let mut x = Xof::new(t.derive("short-challenge".as_bytes()));
    let ghost s = challenge_stream(old(t)@);
    let mut attempts: u64 = 0;
    let ghost w = weight as nat;
    while attempts < u64::MAX
        invariant
            t@ == old(t)@.next(),
            s == challenge_stream(old(t)@),
            w == weight <= 32,
            weight == 0 ==> attempts == 0,
            x.wf(),
            forall|c: &ShortChallenge| c.wf() ==> within.requires((c,)),
            after(s, w, attempts as nat) == Some(x@),
            2 * attempts <= x@.pos,
            forall|k: nat| k < attempts ==> #[trigger] refused(*within, s, w, k),
        decreases u64::MAX - attempts,
    {
        let ghost here = x@;
        proof {
            lemma_shuffled_pos(here, w);
        }
        let c = match attempt(&mut x, weight) {
            None => {
                assert(after(s, w, attempts as nat) == Some(here));
                return None;
            },
            Some(c0) => {
                let c = c0.signed();
                assert forall|p: int| 0 <= p < 162 implies #[trigger] c.has(p) == c0.has(p) by {}
                c
            },
        };
        proof {
            assert(is_candidate(c, here, w));
            assert(after(s, w, (attempts + 1) as nat) == Some(x@));
        }
        if (*within)(&c) {
            return Some((c, attempts + 1));
        }
        assert(refused(*within, s, w, attempts as nat));
        attempts = attempts + 1;
        if weight == 0 {
            assert(after(s, w, attempts as nat) == Some(x@));
            return None;
        }
    }
    assert(x@.pos <= STREAM_END);
    None
}

proof fn lemma_below_pos(s: Stream, n: int)
    ensures
        s.below(n) matches Some((_, r)) ==> s.pos + 2 <= r.pos,
    decreases STREAM_END - s.pos,
{
    if s.pos + 2 <= STREAM_END && !(s.u16() < 65536int / n * n) {
        lemma_below_pos(s.skip(2), n);
    }
}

proof fn lemma_shuffled_pos(s: Stream, i: nat)
    ensures
        s.shuffled(i) matches Some((_, r)) ==> s.pos + 2 * i <= r.pos,
    decreases i,
{
    if i > 0 {
        lemma_shuffled_pos(s, (i - 1) as nat);
        if let Some((_, r)) = s.shuffled((i - 1) as nat) {
            lemma_below_pos(r, 163 - i);
        }
    }
}

/// The candidate behind `k` others is refused.
pub open spec fn refused<F: Fn(&ShortChallenge) -> bool>(
    within: F,
    s: Stream,
    weight: nat,
    k: nat,
) -> bool {
    match after(s, weight, k) {
        None => false,
        Some(u) => exists|c: ShortChallenge| #[trigger]
            is_candidate(c, u, weight) && within.ensures((&c,), false),
    }
}

/// A sampled challenge is well formed.
pub proof fn lemma_sampled_wf<F: Fn(&ShortChallenge) -> bool>(
    within: F,
    t: transcript::Script,
    weight: nat,
    c: ShortChallenge,
    n: u64,
)
    requires
        sampled(within, t, weight, Some((c, n))),
    ensures
        c.wf(),
{
}

// ---------------------------------------------------------------------------------------------
// laws
// ---------------------------------------------------------------------------------------------

/// Drawing below `n` favours no value: what is drawn is `r` exactly where the first word that is not
/// refused is `r + n k` for one of the same `65536 / n` numbers `k`, whatever `r` is, and the words
/// before it are those above all of them.
pub proof fn below_is_uniform(s: Stream, n: int)
    requires
        0 < n <= 65535,
    ensures
        s.below(n) matches Some((r, rest)) ==> {
            &&& 0 <= r < n
            &&& s.pos + 2 <= rest.pos <= STREAM_END
            &&& (rest.pos - s.pos) % 2 == 0
            &&& rest == s.skip((rest.pos - s.pos) as nat)
            &&& exists|k: int|
                0 <= k < 65536int / n && s.skip((rest.pos - s.pos - 2) as nat).u16() == r
                    + #[trigger] (n * k)
            &&& forall|t: nat|
                2 * t + 2 < rest.pos - s.pos ==> (#[trigger] s.skip(2 * t)).u16() >= n * (65536int
                    / n)
        },
        forall|r: int, k: int|
            #![trigger r + n * k]
            0 <= r < n && 0 <= k < 65536int / n && s.u16() == r + n * k && s.pos + 2 <= STREAM_END
                ==> s.below(n) == Some((r, s.skip(2))),
    decreases STREAM_END - s.pos,
{
    let m = 65536int / n;
    vstd::arithmetic::mul::lemma_mul_is_commutative(m, n);
    assert forall|r: int, k: int|
        #![trigger r + n * k]
        0 <= r < n && 0 <= k < m && s.u16() == r + n * k && s.pos + 2 <= STREAM_END implies s.below(
        n,
    ) == Some((r, s.skip(2))) by {
        assert(n * k + n <= n * m) by (nonlinear_arith)
            requires
                k + 1 <= m,
                0 < n,
        ;
        vstd::arithmetic::div_mod::lemma_fundamental_div_mod_converse(s.u16(), n, k, r);
    }
    assert(s.skip(0) == s);
    if s.pos + 2 <= STREAM_END {
        let x = s.u16();
        if x < m * n {
            vstd::arithmetic::div_mod::lemma_fundamental_div_mod(x, n);
            vstd::arithmetic::div_mod::lemma_mod_bound(x, n);
            let k = x / n;
            assert(0 <= k < m) by (nonlinear_arith)
                requires
                    x == n * k + x % n,
                    0 <= x % n < n,
                    0 <= x < m * n,
            ;
            assert(x == x % n + n * k);
        } else {
            let t = s.skip(2);
            below_is_uniform(t, n);
            if let Some((r, rest)) = t.below(n) {
                assert(rest == s.skip((rest.pos - s.pos) as nat));
                let last = t.skip((rest.pos - t.pos - 2) as nat);
                assert(last == s.skip((rest.pos - s.pos - 2) as nat));
                let k = choose|k: int|
                    0 <= k < m && last.u16() == r + #[trigger] (n * k);
                assert(last.u16() == r + n * k);
                assert forall|i: nat| 2 * i + 2 < rest.pos - s.pos implies (#[trigger] s.skip(
                    2 * i,
                )).u16() >= n * m by {
                    if i > 0 {
                        let j = (i - 1) as nat;
                        assert(t.skip(2 * j) == s.skip(2 * i));
                        assert(t.skip(2 * j).u16() >= n * m);
                    }
                }
            }
        }
    }
}

/// A step of the shuffle keeps what was drawn before and takes any of the positions that are left: they
/// stay distinct throughout, the entries before the step stay, and the draw `r` puts there the entry
/// that stood `r` places further on.
pub proof fn shuffle_steps(s: Stream, i: nat)
    requires
        i <= 162,
    ensures
        s.shuffled(i) matches Some((perm, _)) ==> is_perm(perm),
        i > 0 ==> (s.shuffled(i) matches Some((perm, _)) ==> {
            &&& s.shuffled((i - 1) as nat) is Some
            &&& ({
                let (before, t) = s.shuffled((i - 1) as nat)->Some_0;
                &&& t.below(163 - i) is Some
                &&& 0 <= t.below(163 - i)->Some_0.0 < 163 - i
                &&& perm[i - 1] == before[i - 1 + t.below(163 - i)->Some_0.0]
                &&& forall|k: int| 0 <= k < i - 1 ==> #[trigger] perm[k] == before[k]
            })
        }),
    decreases i,
{
    if i > 0 {
        shuffle_steps(s, (i - 1) as nat);
        if let Some((before, t)) = s.shuffled((i - 1) as nat) {
            below_is_uniform(t, 163 - i);
            if let Some((r, _)) = t.below(163 - i) {
                let (a, b) = (i - 1, i - 1 + r);
                let perm = swapped(before, a, b);
                assert forall|k: int, l: int| 0 <= k < l < 162 implies #[trigger] perm[k]
                    != #[trigger] perm[l] by {
                    let k0 = if k == a {
                        b
                    } else if k == b {
                        a
                    } else {
                        k
                    };
                    let l0 = if l == a {
                        b
                    } else if l == b {
                        a
                    } else {
                        l
                    };
                    assert(perm[k] == before[k0] && perm[l] == before[l0]);
                    if k0 < l0 {
                        assert(before[k0] != before[l0]);
                    } else {
                        assert(before[l0] != before[k0]);
                    }
                }
            }
        }
    } else {
        assert(is_perm(Seq::new(162, |p: int| p as u8)));
    }
}

/// A stream gives one candidate.
pub proof fn candidate_unique(a: ShortChallenge, b: ShortChallenge, s: Stream, weight: nat)
    requires
        is_candidate(a, s, weight),
        is_candidate(b, s, weight),
    ensures
        a == b,
{
    assert forall|p: int| 0 <= p < 162 implies #[trigger] a.has(p) == b.has(p) by {}
    lemma_same_positions(a, b, weight);
    assert forall|i: int| 0 <= i < 32 implies a.positions[i] == b.positions[i] by {}
    assert(a.positions@ =~= b.positions@);
    assert(a.positions =~= b.positions);
    assert(sign_material(a) =~= sign_material(b));
}

/// What is sampled is determined: a script gives one challenge after one number of candidates, of the
/// weight asked for, as long as the test does not answer both ways.
pub proof fn sampled_unique<F: Fn(&ShortChallenge) -> bool>(
    within: F,
    t: transcript::Script,
    weight: nat,
    c: ShortChallenge,
    n: u64,
    d: ShortChallenge,
    m: u64,
)
    requires
        sampled(within, t, weight, Some((c, n))),
        sampled(within, t, weight, Some((d, m))),
        forall|x: ShortChallenge|
            !(#[trigger] within.ensures((&x,), true) && within.ensures((&x,), false)),
    ensures
        c == d,
        n == m,
        c.weight == weight,
        within.ensures((&c,), true),
{
    let s = challenge_stream(t);
    if n < m {
        assert(refused(within, s, weight, (n - 1) as nat));
        let u = after(s, weight, (n - 1) as nat)->Some_0;
        let x = choose|x: ShortChallenge| #[trigger]
            is_candidate(x, u, weight) && within.ensures((&x,), false);
        candidate_unique(c, x, u, weight);
    } else if m < n {
        assert(refused(within, s, weight, (m - 1) as nat));
        let u = after(s, weight, (m - 1) as nat)->Some_0;
        let x = choose|x: ShortChallenge| #[trigger]
            is_candidate(x, u, weight) && within.ensures((&x,), false);
        candidate_unique(d, x, u, weight);
    } else {
        candidate_unique(c, d, after(s, weight, (n - 1) as nat)->Some_0, weight);
    }
}

/// The sign hash takes in the whole position set: two sets with the same material are the same.
pub proof fn sign_material_binds(a: ShortChallenge, b: ShortChallenge)
    requires
        a.wf(),
        b.wf(),
        sign_material(a) == sign_material(b),
    ensures
        a.weight == b.weight,
        a.positions == b.positions,
{
    let (x, y) = (a.positions@.take(a.weight as int), b.positions@.take(b.weight as int));
    transcript::lemma_front(a.weight as nat, b.weight as nat, x, y);
    assert forall|i: int| 0 <= i < 32 implies a.positions[i] == b.positions[i] by {
        if i < a.weight {
            assert(x[i] == y[i]);
        }
    }
    assert(a.positions@ =~= b.positions@);
    assert(a.positions =~= b.positions);
}

/// The signs are bits of the digest, one per position and all of them free: every sign word below
/// `2^w` is that of some digest, and digests that differ in their low `w` bits give different words.
pub proof fn sign_words(x: nat, y: nat, w: nat, tail: Seq<u8>)
    requires
        w <= 32,
        x < pow2(32),
        y < pow2(32),
    ensures
        sign_word(bytes::le(x, 4) + tail, w) < pow2(w),
        x < pow2(w) ==> sign_word(bytes::le(x, 4) + tail, w) == x,
        sign_word(bytes::le(x, 4) + tail, w) == sign_word(bytes::le(y, 4) + tail, w) <==> x % pow2(w)
            == y % pow2(w),
{
    lemma2_to64();
    lemma_pow2_pos(w);
    bytes::lemma_radix_values();
    bytes::lemma_le_len(x, 4);
    bytes::lemma_le_len(y, 4);
    bytes::lemma_of_le_le(x, 4);
    bytes::lemma_of_le_le(y, 4);
    assert((bytes::le(x, 4) + tail).take(4) =~= bytes::le(x, 4));
    assert((bytes::le(y, 4) + tail).take(4) =~= bytes::le(y, 4));
    vstd::arithmetic::div_mod::lemma_mod_bound(x as int, pow2(w) as int);
    if x < pow2(w) {
        vstd::arithmetic::div_mod::lemma_small_mod(x, pow2(w));
    }
}

/// The number of the first `n` positions that are below `p`.
spec fn below_count(c: ShortChallenge, p: int, n: nat) -> nat
    decreases n,
{
    if n == 0 {
        0
    } else {
        below_count(c, p, (n - 1) as nat) + (if c.positions[n - 1] < p {
            1nat
        } else {
            0nat
        })
    }
}

proof fn lemma_below_count(c: ShortChallenge, p: int, n: nat)
    requires
        c.wf(),
        0 <= p < 162,
        n <= c.weight,
    ensures
        below_count(c, p + 1, n) == below_count(c, p, n) + (if exists|i: int|
            0 <= i < n && #[trigger] c.positions[i] == p {
            1nat
        } else {
            0nat
        }),
        below_count(c, 0, n) == 0,
        below_count(c, 162, n) == n,
    decreases n,
{
    if n > 0 {
        let m = (n - 1) as nat;
        lemma_below_count(c, p, m);
        if c.positions[n - 1] == p {
            if exists|i: int| 0 <= i < m && #[trigger] c.positions[i] == p {
                let i = choose|i: int| 0 <= i < m && #[trigger] c.positions[i] == p;
                assert(c.positions[i] < c.positions[n - 1]);
            }
            assert(c.positions[n - 1] == p);
        } else if exists|i: int| 0 <= i < n && #[trigger] c.positions[i] == p {
            let i = choose|i: int| 0 <= i < n && #[trigger] c.positions[i] == p;
            assert(i < m);
        }
    }
}

/// The weight of a challenge is the number of its coefficients that are not zero.
pub proof fn weight_counts(c: ShortChallenge, v: Seq<i8>)
    requires
        c.wf(),
        c.is(v),
    ensures
        nonzeros(v, 162) == c.weight,
        forall|p: int| 0 <= p < 162 ==> -1 <= (#[trigger] v[p]) <= 1,
{
    lemma_nonzeros_counted(c, v, 162);
    lemma_below_count(c, 0, c.weight as nat);
    assert forall|p: int| 0 <= p < 162 implies -1 <= (#[trigger] v[p]) <= 1 by {
        if c.has(p) {
            let i = choose|i: int| 0 <= i < c.weight && #[trigger] c.positions[i] == p;
            assert(v[c.positions[i] as int] == (if sign(c.signs, i) {
                -1i8
            } else {
                1i8
            }));
        }
    }
}

proof fn lemma_nonzeros_counted(c: ShortChallenge, v: Seq<i8>, p: nat)
    requires
        c.wf(),
        c.is(v),
        p <= 162,
    ensures
        nonzeros(v, p) == below_count(c, p as int, c.weight as nat),
    decreases p,
{
    if p > 0 {
        lemma_nonzeros_counted(c, v, (p - 1) as nat);
        lemma_below_count(c, p - 1, c.weight as nat);
        lemma_nonzero_has(c, v, p - 1);
    } else {
        lemma_below_count(c, 0, c.weight as nat);
    }
}

} // verus!
