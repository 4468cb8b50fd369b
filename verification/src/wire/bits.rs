//! Bit strings, least significant bit first, and their packing into bytes.
use super::WireError;
use vstd::arithmetic::div_mod::*;
use vstd::arithmetic::mul::*;
use vstd::arithmetic::power2::*;
use vstd::bits::*;
use vstd::prelude::*;

verus! {

/// The `n` low bits of `x`.
pub open spec fn bits_of(x: nat, n: nat) -> Seq<bool>
    decreases n,
{
    if n == 0 {
        Seq::empty()
    } else {
        seq![x % 2 == 1] + bits_of(x / 2, (n - 1) as nat)
    }
}

/// The integer with the bits `b`.
pub open spec fn of_bits(b: Seq<bool>) -> nat
    decreases b.len(),
{
    if b.len() == 0 {
        0
    } else {
        (if b[0] {
            1nat
        } else {
            0nat
        }) + 2 * of_bits(b.skip(1))
    }
}

/// The bits of a byte string.
pub open spec fn bit_string(b: Seq<u8>) -> Seq<bool>
    decreases b.len(),
{
    if b.len() == 0 {
        Seq::empty()
    } else {
        bit_string(b.drop_last()) + bits_of(b.last() as nat, 8)
    }
}

/// The bits of `s` in bytes, the last one padded with zeros.
pub open spec fn packed(s: Seq<bool>) -> Seq<u8>
    decreases s.len(),
{
    if s.len() == 0 {
        Seq::empty()
    } else if s.len() <= 8 {
        seq![of_bits(s) as u8]
    } else {
        seq![of_bits(s.take(8)) as u8] + packed(s.skip(8))
    }
}

// ---------------------------------------------------------------------------------------------
// integers and bits
// ---------------------------------------------------------------------------------------------

pub proof fn lemma_bits_len(x: nat, n: nat)
    ensures
        bits_of(x, n).len() == n,
    decreases n,
{
    if n > 0 {
        lemma_bits_len(x / 2, (n - 1) as nat);
    }
}

/// The bits of an integer that fits read back as the integer.
pub proof fn lemma_of_bits(x: nat, n: nat)
    requires
        x < pow2(n),
    ensures
        of_bits(bits_of(x, n)) == x,
    decreases n,
{
    lemma_bits_len(x, n);
    if n == 0 {
        lemma2_to64();
    } else {
        let m = (n - 1) as nat;
        lemma_pow2_unfold(n);
        lemma_of_bits(x / 2, m);
        assert(bits_of(x, n).skip(1) =~= bits_of(x / 2, m));
    }
}

/// A bit string is the bits of the integer it reads as.
pub proof fn lemma_bits_of(b: Seq<bool>)
    ensures
        bits_of(of_bits(b), b.len()) == b,
        of_bits(b) < pow2(b.len()),
    decreases b.len(),
{
    if b.len() == 0 {
        lemma2_to64();
        assert(bits_of(0, 0) =~= b);
    } else {
        let r = b.skip(1);
        lemma_bits_of(r);
        lemma_pow2_unfold(b.len());
        let x = of_bits(b);
        assert(x % 2 == 1 <==> b[0]);
        assert(x / 2 == of_bits(r));
        assert(seq![b[0]] + r =~= b);
    }
}

/// The low bits of an integer, and then the bits of its quotient.
pub proof fn lemma_bits_split(x: nat, a: nat, b: nat)
    ensures
        bits_of(x, a + b) == bits_of(x, a) + bits_of(x / pow2(a), b),
    decreases a,
{
    if a == 0 {
        lemma2_to64();
        assert(x / 1 == x);
        assert(bits_of(x, 0) + bits_of(x / pow2(0), b) =~= bits_of(x, b));
    } else {
        let c = (a - 1) as nat;
        lemma_bits_split(x / 2, c, b);
        lemma_pow2_unfold(a);
        lemma_pow2_pos(c);
        lemma_div_denominator(x as int, 2, pow2(c) as int);
        assert(bits_of(x, a + b) =~= bits_of(x, a) + bits_of(x / pow2(a), b));
    }
}

/// The `n` low bits depend on the integer modulo `2^n` alone.
pub proof fn lemma_bits_mod(x: nat, y: nat, n: nat)
    requires
        x % pow2(n) == y % pow2(n),
    ensures
        bits_of(x, n) == bits_of(y, n),
    decreases n,
{
    if n > 0 {
        let m = (n - 1) as nat;
        lemma_pow2_unfold(n);
        lemma_pow2_pos(m);
        let (p, q) = (pow2(m) as int, pow2(n) as int);
        lemma_mod_breakdown(x as int, 2, p);
        lemma_mod_breakdown(y as int, 2, p);
        lemma_bits_mod(x / 2, y / 2, m);
    }
}

/// The bits of two integers placed one behind the other.
pub proof fn lemma_bits_join(x: nat, a: nat, y: nat, b: nat)
    requires
        x < pow2(a),
    ensures
        bits_of(x + y * pow2(a), a + b) == bits_of(x, a) + bits_of(y, b),
        y < pow2(b) ==> x + y * pow2(a) < pow2(a + b),
{
    let p = pow2(a) as int;
    let z = (x + y * pow2(a)) as nat;
    lemma_pow2_pos(a);
    lemma_bits_split(z, a, b);
    lemma_fundamental_div_mod_converse(z as int, p, y as int, x as int);
    lemma_small_mod(x, pow2(a));
    lemma_bits_mod(z, x, a);
    if y < pow2(b) {
        lemma_pow2_adds(a, b);
        let q = pow2(b) as int;
        assert(x + y * p < p * q) by (nonlinear_arith)
            requires
                0 <= x < p,
                0 <= y < q,
        ;
    }
}

pub proof fn lemma_bit_string_len(b: Seq<u8>)
    ensures
        bit_string(b).len() == 8 * b.len(),
    decreases b.len(),
{
    if b.len() > 0 {
        lemma_bit_string_len(b.drop_last());
        lemma_bits_len(b.last() as nat, 8);
    }
}

pub proof fn lemma_bit_string_push(b: Seq<u8>, x: u8)
    ensures
        bit_string(b.push(x)) == bit_string(b) + bits_of(x as nat, 8),
{
    assert(b.push(x).drop_last() =~= b);
}

pub proof fn lemma_bit_string_one(x: u8)
    ensures
        bit_string(seq![x]) == bits_of(x as nat, 8),
{
    let e = Seq::<u8>::empty();
    lemma_bit_string_push(e, x);
    assert(seq![x] =~= e.push(x));
    assert(bit_string(e) + bits_of(x as nat, 8) =~= bits_of(x as nat, 8));
}

pub proof fn lemma_bit_string_add(a: Seq<u8>, b: Seq<u8>)
    ensures
        bit_string(a + b) == bit_string(a) + bit_string(b),
    decreases b.len(),
{
    if b.len() == 0 {
        assert(a + b =~= a);
        assert(bit_string(a) + bit_string(b) =~= bit_string(a));
    } else {
        let c = b.drop_last();
        lemma_bit_string_add(a, c);
        assert((a + b).drop_last() =~= a + c);
        assert(bit_string(a + b) =~= bit_string(a) + bit_string(b));
    }
}

/// Packing keeps the bits and pads with zeros.
pub proof fn lemma_packed(s: Seq<bool>)
    ensures
        packed(s).len() == (s.len() + 7) / 8,
        bit_string(packed(s)).len() == 8 * packed(s).len(),
        bit_string(packed(s)).take(s.len() as int) == s,
        forall|i: int|
            s.len() <= i < 8 * packed(s).len() ==> !(#[trigger] bit_string(packed(s))[i]),
    decreases s.len(),
{
    lemma_bit_string_len(packed(s));
    lemma2_to64();
    if s.len() == 0 {
        assert(bit_string(packed(s)).take(0) =~= s);
    } else if s.len() <= 8 {
        let x = of_bits(s);
        lemma_bits_of(s);
        if s.len() < 8 {
            lemma_pow2_strictly_increases(s.len(), 8);
        }
        let k = (8 - s.len()) as nat;
        lemma_bits_split(x, s.len(), k);
        lemma_basic_div(x as int, pow2(s.len()) as int);
        lemma_zero_bits(k);
        lemma_bit_string_one(x as u8);
        assert(s.len() + k == 8);
        assert(bits_of(x, 8) == s + bits_of(0, k));
        assert(bit_string(packed(s)).take(s.len() as int) =~= s);
    } else {
        let (h, t) = (s.take(8), s.skip(8));
        lemma_packed(t);
        lemma_bits_of(h);
        let x = of_bits(h);
        lemma_bit_string_add(seq![x as u8], packed(t));
        lemma_bit_string_one(x as u8);
        let whole = bit_string(packed(s));
        assert(whole =~= h + bit_string(packed(t)));
        assert forall|i: int| 0 <= i < s.len() implies whole.take(s.len() as int)[i] == s[i] by {
            if i >= 8 {
                assert(bit_string(packed(t)).take(t.len() as int)[i - 8] == t[i - 8]);
            }
        }
        assert(whole.take(s.len() as int) =~= s);
        assert forall|i: int| s.len() <= i < 8 * packed(s).len() implies !(#[trigger] whole[i]) by {
            assert(!bit_string(packed(t))[i - 8]);
        }
    }
}

pub proof fn lemma_zero_bits(n: nat)
    ensures
        bits_of(0, n).len() == n,
        forall|i: int| 0 <= i < n ==> !(#[trigger] bits_of(0, n)[i]),
    decreases n,
{
    if n > 0 {
        lemma_zero_bits((n - 1) as nat);
    }
}

/// `2^n` by a shift.
pub(crate) fn two_to(n: u32) -> (r: u64)
    requires
        n < 64,
    ensures
        r == pow2(n as nat),
        r > 0,
{
    proof {
        lemma_u64_pow2_no_overflow(n as nat);
        lemma_u64_shl_is_mul(1, n as u64);
        lemma_pow2_pos(n as nat);
    }
    1u64 << (n as u64)
}

// ---------------------------------------------------------------------------------------------
// writing
// ---------------------------------------------------------------------------------------------

/// Writes bits into bytes.
pub struct BitWriter {
    bytes: Vec<u8>,
    acc: u64,
    n: u32,
}

impl View for BitWriter {
    type V = Seq<bool>;

    closed spec fn view(&self) -> Seq<bool> {
        bit_string(self.bytes@) + bits_of(self.acc as nat, self.n as nat)
    }
}

impl BitWriter {
    /// The accumulator holds less than a byte.
    pub closed spec fn wf(&self) -> bool {
        self.n < 8 && self.acc < pow2(self.n as nat)
    }

    pub fn with_capacity(bytes: usize) -> (w: BitWriter)
        ensures
            w.wf(),
            w@ == Seq::<bool>::empty(),
    {
        proof {
            lemma2_to64();
        }
        let w = BitWriter { bytes: Vec::with_capacity(bytes), acc: 0, n: 0 };
        assert(w@ =~= Seq::<bool>::empty());
        w
    }

    /// The `bits` low bits of `value`, least significant first, `bits <= 32`.
    pub fn put(&mut self, value: u64, bits: u32)
        requires
            old(self).wf(),
            bits <= 32,
        ensures
            final(self).wf(),
            final(self)@ == old(self)@ + bits_of(value as nat, bits as nat),
    {
        let m: u64 = two_to(bits);
        let v: u64 = value % m;
        let p: u64 = two_to(self.n);
        let ghost before = self@;
        proof {
            let (a, b) = (self.n as nat, bits as nat);
            lemma_bits_join(self.acc as nat, a, v as nat, b);
            lemma_mod_twice(value as int, m as int);
            lemma_bits_mod(value as nat, v as nat, b);
            if a + b < 40 {
                lemma_pow2_strictly_increases(a + b, 40);
            }
            lemma2_to64_rest();
            assert(v * p >= 0 && v * p <= self.acc + v * p) by (nonlinear_arith)
                requires
                    v >= 0,
                    p >= 0,
                    self.acc >= 0,
            ;
        }
        self.acc = self.acc + v * p;
        self.n = self.n + bits;
        let ghost all = before + bits_of(value as nat, bits as nat);
        assert(self@ =~= all);
        while self.n >= 8
            invariant
                self.n < 40,
                self.acc < pow2(self.n as nat),
                self@ == all,
            decreases self.n,
        {
            let ghost (x, k) = (self.acc as nat, self.n as nat);
            let ghost b0 = self.bytes@;
            let byte: u8 = (self.acc % 256) as u8;
            self.bytes.push(byte);
            self.acc = self.acc / 256;
            self.n = self.n - 8;
            proof {
                lemma2_to64();
                let j = (k - 8) as nat;
                lemma_bits_split(x, 8, j);
                lemma_mod_twice(x as int, 256);
                lemma_bits_mod(x, byte as nat, 8);
                lemma_bit_string_push(b0, byte);
                assert(8 + j == k);
                assert(self@ =~= bit_string(b0) + bits_of(x, k));
                lemma_pow2_adds(8, j);
                assert(x / 256 < pow2(j)) by (nonlinear_arith)
                    requires
                        x < 256 * pow2(j),
                ;
            }
        }
    }

    /// The same for `bits <= 64`.
    pub fn put_wide(&mut self, value: u64, bits: u32)
        requires
            old(self).wf(),
            bits <= 64,
        ensures
            final(self).wf(),
            final(self)@ == old(self)@ + bits_of(value as nat, bits as nat),
    {
        if bits <= 32 {
            self.put(value, bits);
        } else {
            let ghost before = self@;
            self.put(value, 32);
            self.put(value / 0x1_0000_0000, bits - 32);
            proof {
                lemma2_to64();
                lemma_bits_split(value as nat, 32, (bits - 32) as nat);
                assert(self@ =~= before + bits_of(value as nat, bits as nat));
            }
        }
    }

    /// Elias gamma of `value >= 1`: `k` zeros, the leading one, then the `k` bits below it.
    pub fn put_gamma(&mut self, value: u64)
        requires
            old(self).wf(),
            1 <= value,
            value < 0x1_0000_0000,
        ensures
            final(self).wf(),
            final(self)@ == old(self)@ + gamma(value as nat),
    {
        let mut k: u32 = 0;
        let mut x: u64 = value;
        proof {
            lemma2_to64();
        }
        while x >= 2
            invariant
                1 <= x,
                x < pow2((32 - k) as nat),
                k < 32,
                k + log2(x as nat) == log2(value as nat),
            decreases x,
        {
            x = x / 2;
            proof {
                lemma_pow2_unfold((32 - k) as nat);
                if k == 31 {
                    lemma2_to64();
                }
            }
            k += 1;
        }
        let ghost before = self@;
        let p: u64 = two_to(k);
        proof {
            lemma_log2(value as nat);
        }
        self.put(0, k);
        self.put(1, 1);
        self.put(value - p, k);
        proof {
            lemma_zero_bits(k as nat);
            assert(bits_of(1, 1) =~= seq![true]) by {
                reveal_with_fuel(bits_of, 2);
            }
            assert(bits_of(0, k as nat) =~= Seq::new(k as nat, |i: int| false));
            assert(self@ =~= before + gamma(value as nat));
        }
    }

    /// The bytes, the last one zero-padded.
    pub fn finish(self) -> (b: Vec<u8>)
        requires
            self.wf(),
        ensures
            b@ == packed(self@),
    {
        let ghost s = self@;
        let mut bytes = self.bytes;
        let ghost full = bytes@;
        proof {
            lemma_bits_len(self.acc as nat, self.n as nat);
            lemma_packed_bytes(full, bits_of(self.acc as nat, self.n as nat));
            lemma_of_bits(self.acc as nat, self.n as nat);
            lemma2_to64();
            if self.n > 0 {
                lemma_pow2_strictly_increases(self.n as nat, 8);
            }
        }
        if self.n > 0 {
            bytes.push(self.acc as u8);
        }
        assert(bytes@ =~= packed(s));
        bytes
    }
}

proof fn lemma_packed_bytes(b: Seq<u8>, t: Seq<bool>)
    requires
        t.len() < 8,
    ensures
        packed(bit_string(b) + t) == b + packed(t),
    decreases b.len(),
{
    if b.len() == 0 {
        assert(bit_string(b) + t =~= t);
        assert(b + packed(t) =~= packed(t));
    } else {
        let x = b[0];
        let c = b.skip(1);
        lemma_packed_bytes(c, t);
        assert(b =~= seq![x] + c);
        lemma_bit_string_add(seq![x], c);
        lemma_bit_string_one(x);
        lemma_bits_len(x as nat, 8);
        lemma2_to64();
        lemma_of_bits(x as nat, 8);
        let s = bit_string(b) + t;
        assert(s.take(8) =~= bits_of(x as nat, 8));
        assert(s.skip(8) =~= bit_string(c) + t);
        lemma_bit_string_len(b);
        if s.len() == 8 {
            assert(s =~= s.take(8));
            assert(c.len() == 0 && t.len() == 0);
            assert(packed(s.skip(8)) =~= Seq::<u8>::empty());
            assert(b + packed(t) =~= seq![x]);
        } else {
            assert(packed(s) =~= b + packed(t));
        }
    }
}

// ---------------------------------------------------------------------------------------------
// Elias gamma
// ---------------------------------------------------------------------------------------------

/// The position of the leading bit of `x >= 1`.
pub open spec fn log2(x: nat) -> nat
    decreases x,
{
    if x < 2 {
        0
    } else {
        1 + log2(x / 2)
    }
}

pub proof fn lemma_log2(x: nat)
    requires
        x >= 1,
    ensures
        pow2(log2(x)) <= x < 2 * pow2(log2(x)),
    decreases x,
{
    if x < 2 {
        lemma2_to64();
    } else {
        lemma_log2(x / 2);
        lemma_pow2_unfold(log2(x));
    }
}

/// The Elias gamma code of `x >= 1`.
pub open spec fn gamma(x: nat) -> Seq<bool> {
    let k = log2(x);
    Seq::new(k, |i: int| false) + seq![true] + bits_of((x - pow2(k)) as nat, k)
}

/// The number of zeros from `at` on, up to `33`.
pub open spec fn zeros(s: Seq<bool>, at: nat, k: nat) -> nat
    decreases 33 - k,
{
    if k >= 33 || at + k >= s.len() || s[(at + k) as int] {
        k
    } else {
        zeros(s, at, k + 1)
    }
}

/// The gamma code at bit `at`: its value and where it ends. More than 32 zeros are refused, and
/// so is a code that the string ends in.
pub open spec fn gamma_at(s: Seq<bool>, at: nat) -> Result<(nat, nat), WireError> {
    let k = zeros(s, at, 0);
    if k > 32 {
        Err(WireError::Malformed)
    } else if at + 2 * k + 1 > s.len() {
        Err(WireError::Truncated)
    } else {
        Ok(
            (
                pow2(k) + of_bits(s.subrange((at + k + 1) as int, (at + 2 * k + 1) as int)),
                at + 2 * k + 1,
            ),
        )
    }
}

proof fn lemma_zeros(s: Seq<bool>, at: nat, j: nat, k: nat)
    requires
        j <= k <= 32,
        at + k < s.len(),
        forall|i: int| at + j <= i < at + k ==> !(#[trigger] s[i]),
        s[(at + k) as int],
    ensures
        zeros(s, at, j) == k,
    decreases k - j,
{
    if j < k {
        assert(!s[(at + j) as int]);
        lemma_zeros(s, at, j + 1, k);
    }
}

proof fn lemma_zeros_extended(s: Seq<bool>, t: Seq<bool>, at: nat, j: nat)
    requires
        at + zeros(s, at, j) < s.len(),
    ensures
        zeros(s + t, at, j) == zeros(s, at, j),
        zeros(s, at, j) >= j,
    decreases s.len() - at - j,
{
    if at + j < s.len() && j <= 32 && !s[(at + j) as int] {
        lemma_zeros_extended(s, t, at, j + 1);
    }
}

/// A gamma code that a bit string holds is read in the same way where more bits follow.
pub proof fn lemma_gamma_extended(s: Seq<bool>, t: Seq<bool>, at: nat)
    requires
        gamma_at(s, at) is Ok,
    ensures
        gamma_at(s + t, at) == gamma_at(s, at),
        at < gamma_at(s, at)->Ok_0.1 <= s.len(),
{
    let k = zeros(s, at, 0);
    lemma_zeros_extended(s, t, at, 0);
    assert((s + t).subrange((at + k + 1) as int, (at + 2 * k + 1) as int) =~= s.subrange(
        (at + k + 1) as int,
        (at + 2 * k + 1) as int,
    ));
}

/// A gamma code is read back.
pub proof fn lemma_gamma_at(s: Seq<bool>, at: nat, x: nat)
    requires
        1 <= x < 0x1_0000_0000,
        at + gamma(x).len() <= s.len(),
        s.subrange(at as int, (at + gamma(x).len()) as int) == gamma(x),
    ensures
        gamma_at(s, at) == Ok::<(nat, nat), WireError>((x, at + gamma(x).len())),
{
    let k = log2(x);
    lemma_log2(x);
    lemma2_to64();
    if k >= 32 {
        if k > 32 {
            lemma_pow2_strictly_increases(32, k);
        }
    }
    let r = (x - pow2(k)) as nat;
    lemma_bits_len(r, k);
    lemma_of_bits(r, k);
    let g = gamma(x);
    assert forall|i: int| at <= i < at + k implies !(#[trigger] s[i]) by {
        assert(s.subrange(at as int, (at + g.len()) as int)[i - at] == g[i - at]);
    }
    assert(s[(at + k) as int]) by {
        assert(s.subrange(at as int, (at + g.len()) as int)[k as int] == g[k as int]);
    }
    lemma_zeros(s, at, 0, k);
    assert(s.subrange((at + k + 1) as int, (at + 2 * k + 1) as int) =~= bits_of(r, k)) by {
        assert forall|i: int| 0 <= i < k implies s[(at + k + 1 + i) as int] == bits_of(r, k)[i] by {
            assert(s.subrange(at as int, (at + g.len()) as int)[k + 1 + i] == g[k + 1 + i]);
        }
    }
}

// ---------------------------------------------------------------------------------------------
// reading
// ---------------------------------------------------------------------------------------------

/// Reads bits out of bytes.
pub struct BitReader<'a> {
    bytes: &'a [u8],
    pos: usize,
    acc: u64,
    n: u32,
}

impl<'a> BitReader<'a> {
    /// The bits of the byte string.
    pub closed spec fn stream(&self) -> Seq<bool> {
        bit_string(self.bytes@)
    }

    /// The number of bits read.
    pub closed spec fn at(&self) -> nat {
        (8 * self.pos - self.n) as nat
    }

    /// The accumulator holds the bits between those read and those fetched.
    pub closed spec fn wf(&self) -> bool {
        &&& self.pos <= self.bytes@.len()
        &&& self.n < 8
        &&& self.n <= 8 * self.pos
        &&& self.acc < pow2(self.n as nat)
        &&& bits_of(self.acc as nat, self.n as nat) == bit_string(self.bytes@).subrange(
            8 * self.pos - self.n,
            8 * self.pos as int,
        )
    }

    pub fn new(bytes: &'a [u8]) -> (r: BitReader<'a>)
        ensures
            r.wf(),
            r.stream() == bit_string(bytes@),
            r.at() == 0,
    {
        proof {
            lemma2_to64();
            lemma_bit_string_len(bytes@);
            assert(bits_of(0, 0) =~= bit_string(bytes@).subrange(0, 0));
        }
        BitReader { bytes, pos: 0, acc: 0, n: 0 }
    }

    /// The next `bits` bits, `bits <= 32`.
    pub fn get(&mut self, bits: u32) -> (r: Result<u64, WireError>)
        requires
            old(self).wf(),
            bits <= 32,
        ensures
            final(self).stream() == old(self).stream(),
            match r {
                Ok(x) => {
                    &&& final(self).wf()
                    &&& old(self).at() + bits <= old(self).stream().len()
                    &&& x == of_bits(
                        old(self).stream().subrange(
                            old(self).at() as int,
                            (old(self).at() + bits) as int,
                        ),
                    )
                    &&& x < pow2(bits as nat)
                    &&& final(self).at() == old(self).at() + bits
                },
                Err(e) => old(self).at() + bits > old(self).stream().len() && e
                    == WireError::Truncated,
            },
    {
        let ghost s = self.stream();
        let ghost at = self.at();
        proof {
            lemma_bit_string_len(self.bytes@);
        }
        while self.n < bits
            invariant
                bits <= 32,
                s == old(self).stream(),
                at == old(self).at(),
                s == bit_string(self.bytes@),
                s.len() == 8 * self.bytes@.len(),
                self.bytes@ == old(self).bytes@,
                self.pos <= self.bytes@.len(),
                self.n < 40,
                self.n <= 8 * self.pos,
                at == 8 * self.pos - self.n,
                self.acc < pow2(self.n as nat),
                self.n >= bits ==> self.n < bits + 8,
                bits_of(self.acc as nat, self.n as nat) == s.subrange(
                    at as int,
                    8 * self.pos as int,
                ),
            decreases bits + 8 - self.n,
        {
            if self.pos >= self.bytes.len() {
                return Err(WireError::Truncated);
            }
            let byte: u8 = self.bytes[self.pos];
            let p: u64 = two_to(self.n);
            let ghost (x, k) = (self.acc as nat, self.n as nat);
            proof {
                lemma2_to64();
                lemma2_to64_rest();
                lemma_bits_join(x, k, byte as nat, 8);
                if k + 8 < 40 {
                    lemma_pow2_strictly_increases(k + 8, 40);
                }
                lemma_bit_string_byte(self.bytes@, self.pos as int);
                assert(byte * p >= 0) by (nonlinear_arith)
                    requires
                        byte >= 0,
                        p >= 0,
                ;
            }
            self.acc = self.acc + (byte as u64) * p;
            self.n = self.n + 8;
            self.pos = self.pos + 1;
            assert(bits_of(self.acc as nat, self.n as nat) =~= s.subrange(
                at as int,
                8 * self.pos as int,
            ));
        }
        let m: u64 = two_to(bits);
        let value: u64 = self.acc % m;
        proof {
            let (x, k, b) = (self.acc as nat, self.n as nat, bits as nat);
            let j = (k - b) as nat;
            lemma_bits_split(x, b, j);
            lemma_bits_len(x, b);
            lemma_mod_twice(x as int, m as int);
            lemma_bits_mod(x, value as nat, b);
            lemma_of_bits(value as nat, b);
            assert(b + j == k);
            assert(s.subrange(at as int, (at + b) as int) =~= bits_of(x, b));
            lemma_bits_len(x / pow2(b), j);
            let whole = s.subrange(at as int, 8 * self.pos as int);
            assert(whole.skip(b as int) =~= bits_of(x / pow2(b), j));
            assert(s.subrange((at + b) as int, 8 * self.pos as int) =~= whole.skip(b as int));
            assert(s.subrange((at + b) as int, 8 * self.pos as int) =~= bits_of(x / pow2(b), j));
            lemma_pow2_adds(b, j);
            assert(x / pow2(b) < pow2(j)) by (nonlinear_arith)
                requires
                    x < pow2(b) * pow2(j),
                    pow2(b) > 0,
            ;
        }
        self.acc = self.acc / m;
        self.n = self.n - bits;
        Ok(value)
    }

    /// The next `bits` bits, `bits <= 64`.
    pub fn get_wide(&mut self, bits: u32) -> (r: Result<u64, WireError>)
        requires
            old(self).wf(),
            bits <= 64,
        ensures
            final(self).stream() == old(self).stream(),
            match r {
                Ok(x) => {
                    &&& final(self).wf()
                    &&& old(self).at() + bits <= old(self).stream().len()
                    &&& x == of_bits(
                        old(self).stream().subrange(
                            old(self).at() as int,
                            (old(self).at() + bits) as int,
                        ),
                    )
                    &&& final(self).at() == old(self).at() + bits
                },
                Err(e) => old(self).at() + bits > old(self).stream().len() && e
                    == WireError::Truncated,
            },
    {
        if bits <= 32 {
            return self.get(bits);
        }
        let ghost s = self.stream();
        let ghost at = self.at();
        let low: u64 = match self.get(32) {
            Ok(x) => x,
            Err(e) => return Err(e),
        };
        let high: u64 = match self.get(bits - 32) {
            Ok(x) => x,
            Err(e) => return Err(e),
        };
        proof {
            lemma2_to64();
            let h = (bits - 32) as nat;
            if h < 32 {
                lemma_pow2_strictly_increases(h, 32);
            }
            let (a, b) = (
                s.subrange(at as int, at as int + 32),
                s.subrange(at as int + 32, at as int + 32 + h),
            );
            lemma_bits_of(a);
            lemma_bits_of(b);
            lemma_bits_join(low as nat, 32, high as nat, h);
            assert(s.subrange(at as int, at + bits) =~= a + b);
            lemma_of_bits((low + high * 0x1_0000_0000) as nat, 32 + h);
        }
        Ok(low + high * 0x1_0000_0000)
    }

    pub fn get_gamma(&mut self) -> (r: Result<u64, WireError>)
        requires
            old(self).wf(),
        ensures
            final(self).stream() == old(self).stream(),
            match r {
                Ok(x) => {
                    &&& final(self).wf()
                    &&& gamma_at(old(self).stream(), old(self).at()) == Ok::<
                        (nat, nat),
                        WireError,
                    >((x as nat, final(self).at()))
                    &&& 1 <= x < 0x2_0000_0000
                },
                Err(e) => gamma_at(old(self).stream(), old(self).at()) == Err::<
                    (nat, nat),
                    WireError,
                >(e),
            },
    {
        let ghost s = self.stream();
        let ghost at = self.at();
        let mut k: u32 = 0;
        loop
            invariant_except_break
                self.at() == at + k,
                zeros(s, at, 0) == zeros(s, at, k as nat),
            invariant
                self.wf(),
                s == self.stream(),
                s == old(self).stream(),
                at == old(self).at(),
                k <= 32,
            ensures
                self.wf(),
                s == self.stream(),
                k <= 32,
                self.at() == at + k + 1,
                at + k < s.len(),
                zeros(s, at, 0) == k,
            decreases 33 - k,
        {
            let bit: u64 = match self.get(1) {
                Ok(x) => x,
                Err(e) => {
                    assert(zeros(s, at, k as nat) == k);
                    return Err(e);
                },
            };
            proof {
                lemma_one_bit(s.subrange((at + k) as int, (at + k + 1) as int));
            }
            if bit != 0 {
                assert(s[(at + k) as int]);
                break ;
            }
            assert(!s[(at + k) as int]);
            k += 1;
            if k > 32 {
                assert(zeros(s, at, k as nat) == k);
                return Err(WireError::Malformed);
            }
        }
        let low: u64 = match self.get(k) {
            Ok(x) => x,
            Err(e) => return Err(e),
        };
        let p: u64 = two_to(k);
        proof {
            lemma2_to64();
            if k < 32 {
                lemma_pow2_strictly_increases(k as nat, 32);
            }
        }
        Ok(p + low)
    }

    /// Bytes consumed, the current partial byte included.
    pub fn consumed(&self) -> (n: usize)
        requires
            self.wf(),
        ensures
            n == (self.at() + 7) / 8,
            8 * n <= self.stream().len(),
    {
        proof {
            lemma_bit_string_len(self.bytes@);
        }
        self.pos
    }
}

proof fn lemma_one_bit(s: Seq<bool>)
    requires
        s.len() == 1,
    ensures
        of_bits(s) == (if s[0] {
            1nat
        } else {
            0nat
        }),
{
    reveal_with_fuel(of_bits, 2);
}

/// The bits of byte `i`.
pub proof fn lemma_bit_string_byte(b: Seq<u8>, i: int)
    requires
        0 <= i < b.len(),
    ensures
        bit_string(b).len() == 8 * b.len(),
        bit_string(b).subrange(8 * i, 8 * i + 8) == bits_of(b[i] as nat, 8),
{
    let (x, y) = (b.take(i), b.skip(i + 1));
    lemma_bit_string_len(b);
    lemma_bit_string_len(x);
    lemma_bit_string_len(y);
    lemma_bits_len(b[i] as nat, 8);
    assert(b =~= x.push(b[i]) + y);
    lemma_bit_string_add(x.push(b[i]), y);
    lemma_bit_string_push(x, b[i]);
    assert(bit_string(b).subrange(8 * i, 8 * i + 8) =~= bits_of(b[i] as nat, 8));
}

/// Bytes are determined by their bits.
pub proof fn lemma_bit_string_unique(a: Seq<u8>, b: Seq<u8>)
    requires
        a.len() == b.len(),
        bit_string(a) == bit_string(b),
    ensures
        a == b,
{
    lemma2_to64();
    assert forall|i: int| 0 <= i < a.len() implies (#[trigger] a[i]) == b[i] by {
        lemma_bit_string_byte(a, i);
        lemma_bit_string_byte(b, i);
        lemma_of_bits(a[i] as nat, 8);
        lemma_of_bits(b[i] as nat, 8);
    }
    assert(a =~= b);
}

} // verus!
