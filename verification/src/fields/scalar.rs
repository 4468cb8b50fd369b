//! The two scalar types: `B128 = GF(2)[X]/(X^128 + X^7 + X^2 + X + 1)`, the GHASH field, and
//! `F162 = GF(2)[X]/(X^162 + X^81 + 1)`, three `u64` limbs with the top one 34 bits wide.
use super::gf2::Gf;
use std::ops::{Add, Mul};
use vstd::arithmetic::div_mod::*;
use vstd::arithmetic::power2::*;
use vstd::bits::*;
use vstd::prelude::*;
use vstd::std_specs::ops::{AddSpecImpl, MulSpecImpl};

verus! {

/// The ring of [`B128`].
pub open spec fn ghash() -> Gf {
    Gf { deg: 128, taps: set![0, 1, 2, 7] }
}

/// The ring of [`F162`].
pub open spec fn f162() -> Gf {
    Gf { deg: 162, taps: set![0, 81] }
}

/// Bit `i` of `x`.
pub open spec fn bit64(x: u64, i: int) -> bool {
    (x >> (i as u64)) & 1 == 1
}

/// Bit `i` of `x`.
pub open spec fn bit128(x: u128, i: int) -> bool {
    (x >> (i as u128)) & 1 == 1
}

pub proof fn lemma_xor64(x: u64, y: u64, i: int)
    requires
        0 <= i < 64,
    ensures
        bit64(x ^ y, i) == (bit64(x, i) != bit64(y, i)),
{
    let k = i as u64;
    assert((((x ^ y) >> k) & 1 == 1) == (((x >> k) & 1 == 1) != ((y >> k) & 1 == 1))) by (bit_vector);
}

pub proof fn lemma_xor128(x: u128, y: u128, i: int)
    requires
        0 <= i < 128,
    ensures
        bit128(x ^ y, i) == (bit128(x, i) != bit128(y, i)),
{
    let k = i as u128;
    assert((((x ^ y) >> k) & 1 == 1) == (((x >> k) & 1 == 1) != ((y >> k) & 1 == 1))) by (bit_vector);
}

pub proof fn lemma_zero_bits()
    ensures
        forall|i: int| !(#[trigger] bit64(0, i)),
        forall|i: int| !(#[trigger] bit128(0, i)),
{
    assert forall|i: int| !(#[trigger] bit64(0, i)) by {
        let k = i as u64;
        assert((0u64 >> k) & 1 == 0) by (bit_vector);
    }
    assert forall|i: int| !(#[trigger] bit128(0, i)) by {
        let k = i as u128;
        assert((0u128 >> k) & 1 == 0) by (bit_vector);
    }
}

proof fn lemma_shr_shr(x: u128, k: u128)
    requires
        k < 127,
    ensures
        (x >> 1u128) >> k == x >> ((k + 1) as u128),
{
    lemma_u128_shr_is_div(x, 1);
    lemma_u128_shr_is_div(x >> 1u128, k);
    lemma_u128_shr_is_div(x, (k + 1) as u128);
    lemma_pow2_pos(1);
    lemma_pow2_pos(k as nat);
    lemma_pow2_adds(1, k as nat);
    lemma_div_denominator(x as int, pow2(1) as int, pow2(k as nat) as int);
}

proof fn lemma_ext128_step(x: u128, y: u128, n: u128)
    requires
        n <= 128,
        forall|i: int| 0 <= i < n ==> bit128(x, i) == bit128(y, i),
        n < 128 ==> x >> n == 0 && y >> n == 0,
    ensures
        x == y,
    decreases n,
{
    if n == 0 {
        assert(x >> 0u128 == x && y >> 0u128 == y) by (bit_vector);
    } else {
        let (x1, y1) = (x >> 1u128, y >> 1u128);
        let m = (n - 1) as u128;
        assert forall|i: int| 0 <= i < m implies bit128(x1, i) == bit128(y1, i) by {
            let k = i as u128;
            let k1 = (i + 1) as u128;
            lemma_shr_shr(x, k);
            lemma_shr_shr(y, k);
            assert(bit128(x, i + 1) == bit128(y, i + 1));
        }
        assert((x >> 1u128) >> m == 0 && (y >> 1u128) >> m == 0) by (bit_vector)
            requires
                1 <= n <= 128,
                m == n - 1,
                n < 128 ==> x >> n == 0 && y >> n == 0,
        ;
        lemma_ext128_step(x1, y1, m);
        assert(bit128(x, 0) == bit128(y, 0));
        assert(x == y) by (bit_vector)
            requires
                x >> 1u128 == y >> 1u128,
                ((x >> 0u128) & 1 == 1) == ((y >> 0u128) & 1 == 1),
        ;
    }
}

/// The word `2^s` has bit `s` alone.
pub proof fn lemma_one_bit(s: u128, i: int)
    requires
        s < 128,
        0 <= i < 128,
    ensures
        bit128(1u128 << s, i) == (i == s),
        s == 0 ==> 1u128 << s == 1,
{
    let k = i as u128;
    assert((((1u128 << s) >> k) & 1 == 1) == (k == s) && (s == 0 ==> 1u128 << s == 1)) by (bit_vector)
        requires
            s < 128,
            k < 128,
    ;
}

/// Two words with the same bits are equal.
pub proof fn lemma_ext128(x: u128, y: u128)
    requires
        forall|i: int| 0 <= i < 128 ==> bit128(x, i) == bit128(y, i),
    ensures
        x == y,
{
    lemma_ext128_step(x, y, 128);
}

/// A word and its 128-bit extension have the same bits.
pub proof fn lemma_widen(x: u64, i: int)
    requires
        0 <= i < 128,
    ensures
        bit128(x as u128, i) == (i < 64 && bit64(x, i)),
{
    let k = i as u128;
    let kk = i as u64;
    assert((((x as u128) >> k) & 1 == 1) == (k < 64 && (x >> kk) & 1 == 1)) by (bit_vector)
        requires
            k == kk,
            k < 128,
    ;
}

/// Two limbs with the same bits are equal.
pub proof fn lemma_ext64(x: u64, y: u64)
    requires
        forall|i: int| 0 <= i < 64 ==> bit64(x, i) == bit64(y, i),
    ensures
        x == y,
{
    let (u, v) = (x as u128, y as u128);
    assert forall|i: int| 0 <= i < 128 implies bit128(u, i) == bit128(v, i) by {
        lemma_widen(x, i);
        lemma_widen(y, i);
    }
    lemma_ext128(u, v);
}

/// An element of the GHASH field: bit `i` of the word is the coefficient of `X^i`.
#[derive(Clone, Copy, Debug, PartialEq, Eq, Structural)]
pub struct B128(pub u128);

/// An element of `GF(2^162)`: bit `i` of limb `k` is the coefficient of `X^(64 k + i)`.
#[derive(Clone, Copy, Debug)]
pub struct F162(pub [u64; 3]);

impl View for B128 {
    type V = Seq<bool>;

    open spec fn view(&self) -> Seq<bool> {
        Seq::new(128, |i: int| bit128(self.0, i))
    }
}

impl View for F162 {
    type V = Seq<bool>;

    open spec fn view(&self) -> Seq<bool> {
        Seq::new(162, |i: int| bit64(self.0[i / 64], i % 64))
    }
}

/// The largest value of the top limb of an `F162`.
pub const M34: u64 = 0x3_FFFF_FFFF;

impl B128 {
    pub fn zero() -> (r: B128)
        ensures
            r@ == ghash().zero(),
            r == B128(0),
    {
        proof {
            B128::lemma_consts();
        }
        B128(0)
    }

    pub fn one() -> (r: B128)
        ensures
            r@ == ghash().one(),
            r == B128(1),
    {
        proof {
            B128::lemma_consts();
        }
        B128(1)
    }

    /// Two elements with the same coefficients are the same.
    pub proof fn ext(a: B128, b: B128)
        requires
            a@ == b@,
        ensures
            a == b,
    {
        assert forall|i: int| 0 <= i < 128 implies bit128(a.0, i) == bit128(b.0, i) by {
            assert(a@[i] == bit128(a.0, i) && b@[i] == bit128(b.0, i));
        }
        lemma_ext128(a.0, b.0);
    }

    pub proof fn lemma_consts()
        ensures
            B128(0)@ == ghash().zero(),
            B128(1)@ == ghash().one(),
    {
        lemma_zero_bits();
        assert(B128(0)@ =~= ghash().zero());
        assert forall|i: int| 0 <= i < 128 implies B128(1)@[i] == ghash().one()[i] by {
            lemma_one_bit(0, i);
        }
        assert(B128(1)@ =~= ghash().one());
    }

    /// The coefficient of `X^i`.
    pub fn bit(self, i: usize) -> (r: bool)
        requires
            i < 128,
        ensures
            r == self@[i as int],
    {
        (self.0 >> (i as u128)) & 1 == 1
    }

    /// `X x`.
    fn xtime(self) -> (r: B128)
        ensures
            r@ == ghash().xtime(self@),
    {
        let x: u128 = self.0;
        let m: u128 = if x >> 127 == 1 {
            0x87
        } else {
            0
        };
        let r: u128 = (x << 1) ^ m;
        proof {
            assert forall|i: int| 0 <= i < 128 implies bit128(r, i) == ghash().xtime(self@)[i] by {
                let k = i as u128;
                let j = (i - 1) as u128;
                assert(((((x << 1) ^ m) >> k) & 1 == 1) == ((k > 0 && (x >> j) & 1 == 1) != ((x
                    >> 127u128) & 1 == 1 && (k == 0 || k == 1 || k == 2 || k == 7))))
                    by (bit_vector)
                    requires
                        k < 128,
                        k > 0 ==> j == k - 1,
                        x >> 127 == 1 ==> m == 0x87,
                        x >> 127 != 1 ==> m == 0,
                ;
            }
            assert(B128(r)@ =~= ghash().xtime(self@));
        }
        B128(r)
    }
}

impl AddSpecImpl<B128> for B128 {
    open spec fn obeys_add_spec() -> bool {
        false
    }

    open spec fn add_req(self, rhs: B128) -> bool {
        true
    }

    open spec fn add_spec(self, rhs: B128) -> B128 {
        arbitrary()
    }
}

impl Add<B128> for B128 {
    type Output = B128;

    fn add(self, o: B128) -> (r: B128)
        ensures
            r@ == ghash().sum(self@, o@),
    {
        let r = B128(self.0 ^ o.0);
        proof {
            assert forall|i: int| 0 <= i < 128 implies r@[i] == ghash().sum(self@, o@)[i] by {
                lemma_xor128(self.0, o.0, i);
            }
            assert(r@ =~= ghash().sum(self@, o@));
        }
        r
    }
}

impl MulSpecImpl<B128> for B128 {
    open spec fn obeys_mul_spec() -> bool {
        false
    }

    open spec fn mul_req(self, rhs: B128) -> bool {
        true
    }

    open spec fn mul_spec(self, rhs: B128) -> B128 {
        arbitrary()
    }
}

impl Mul<B128> for B128 {
    type Output = B128;

    fn mul(self, o: B128) -> (r: B128)
        ensures
            r@ == ghash().mul(self@, o@),
    {
        let mut acc = B128(0);
        let mut s = self;
        let mut k: usize = 0;
        proof {
            B128::lemma_consts();
        }
        while k < 128
            invariant
                k <= 128,
                s@ == ghash().shl(self@, k as nat),
                acc@ == ghash().mul_to(self@, o@, k as nat),
            decreases 128 - k,
        {
            proof {
                ghash().mul_to_elem(self@, o@, k as nat);
                ghash().sum_zero(acc@);
            }
            if o.bit(k) {
                acc = acc + s;
            }
            s = s.xtime();
            k += 1;
        }
        acc
    }
}

impl F162 {
    pub fn zero() -> (r: F162)
        ensures
            r@ == f162().zero(),
            r.wf(),
            r == F162([0, 0, 0]),
    {
        proof {
            F162::lemma_consts();
        }
        F162([0, 0, 0])
    }

    pub fn one() -> (r: F162)
        ensures
            r@ == f162().one(),
            r.wf(),
            r == F162([1, 0, 0]),
    {
        proof {
            F162::lemma_consts();
        }
        F162([1, 0, 0])
    }

    /// The top limb holds 34 bits.
    pub open spec fn wf(self) -> bool {
        self.0[2] <= M34
    }

    /// Two elements with the same coefficients are the same.
    pub proof fn ext(a: F162, b: F162)
        requires
            a@ == b@,
            a.wf(),
            b.wf(),
        ensures
            a == b,
    {
        assert forall|i: int| 0 <= i < 64 implies bit64(a.0[0], i) == bit64(b.0[0], i) by {
            assert(a@[i] == bit64(a.0[0], i) && b@[i] == bit64(b.0[0], i));
        }
        lemma_ext64(a.0[0], b.0[0]);
        assert forall|i: int| 0 <= i < 64 implies bit64(a.0[1], i) == bit64(b.0[1], i) by {
            assert(a@[64 + i] == bit64(a.0[1], i) && b@[64 + i] == bit64(b.0[1], i));
        }
        lemma_ext64(a.0[1], b.0[1]);
        assert forall|i: int| 0 <= i < 64 implies bit64(a.0[2], i) == bit64(b.0[2], i) by {
            if i < 34 {
                assert(a@[128 + i] == bit64(a.0[2], i) && b@[128 + i] == bit64(b.0[2], i));
            } else {
                lemma_top_bits(a.0[2], i);
                lemma_top_bits(b.0[2], i);
            }
        }
        lemma_ext64(a.0[2], b.0[2]);
        assert(a.0@ =~= b.0@);
        assert(a.0 =~= b.0);
    }

    /// Elements with equal limbs have equal coefficients.
    pub proof fn lemma_limbs(a: F162, b: F162)
        requires
            a.0[0] == b.0[0],
            a.0[1] == b.0[1],
            a.0[2] == b.0[2],
        ensures
            a == b,
    {
        assert(a.0@ =~= b.0@);
        assert(a.0 =~= b.0);
    }

    pub proof fn lemma_consts()
        ensures
            F162([0, 0, 0])@ == f162().zero(),
            F162([1, 0, 0])@ == f162().one(),
            F162([0, 0, 0]).wf(),
            F162([1, 0, 0]).wf(),
    {
        lemma_zero_bits();
        assert(F162([0, 0, 0])@ =~= f162().zero());
        assert forall|i: int| 0 <= i < 162 implies F162([1, 0, 0])@[i] == f162().one()[i] by {
            let k = i as u64;
            if i < 64 {
                assert(((1u64 >> k) & 1 == 1) == (k == 0)) by (bit_vector)
                    requires
                        k < 64,
                ;
            }
        }
        assert(F162([1, 0, 0])@ =~= f162().one());
    }

    /// The element with the 128 coefficients of `x`, the others zero.
    pub fn from_b128(x: B128) -> (r: F162)
        ensures
            r.wf(),
            r@ == lift(x@),
    {
        let lo: u64 = x.0 as u64;
        let hi: u64 = (x.0 >> 64) as u64;
        let r = F162([lo, hi, 0]);
        proof {
            let w = x.0;
            lemma_zero_bits();
            assert forall|i: int| 0 <= i < 162 implies r@[i] == lift(x@)[i] by {
                let k = i as u128;
                let j = (i % 64) as u64;
                if i < 128 {
                    assert((if k < 64 {
                        (lo >> j) & 1 == 1
                    } else {
                        (hi >> j) & 1 == 1
                    }) == ((w >> k) & 1 == 1)) by (bit_vector)
                        requires
                            k < 128,
                            j == k % 64,
                            lo == w as u64,
                            hi == (w >> 64) as u64,
                    ;
                }
            }
            assert(r@ =~= lift(x@));
        }
        r
    }

    /// The coefficient of `X^i`.
    pub fn bit(self, i: usize) -> (r: bool)
        requires
            i < 162,
        ensures
            r == self@[i as int],
    {
        (self.0[i / 64] >> ((i % 64) as u64)) & 1 == 1
    }

    /// The element with the coefficient of `X^p` set.
    pub fn with_bit(self, p: usize) -> (r: F162)
        requires
            self.wf(),
            p < 162,
        ensures
            r.wf(),
            r@ == self@.update(p as int, true),
    {
        let k: usize = p / 64;
        let s: u64 = (p % 64) as u64;
        let x: u64 = self.0[k];
        let y: u64 = x | (1u64 << s);
        let mut limbs: [u64; 3] = self.0;
        limbs[k] = y;
        let r = F162(limbs);
        proof {
            assert(s < 34 && x <= 0x3_FFFF_FFFF ==> x | (1u64 << s) <= 0x3_FFFF_FFFF)
                by (bit_vector);
            assert forall|i: int| 0 <= i < 162 implies r@[i] == self@.update(p as int, true)[i] by {
                let j = (i % 64) as u64;
                assert(((x | (1u64 << s)) >> j) & 1 == 1 <==> ((x >> j) & 1 == 1 || j == s)) by (bit_vector)
                    requires
                        s < 64,
                        j < 64,
                ;
            }
            assert(r@ =~= self@.update(p as int, true));
        }
        r
    }

    /// `X x`.
    fn xtime(self) -> (r: F162)
        requires
            self.wf(),
        ensures
            r.wf(),
            r@ == f162().xtime(self@),
    {
        let (a0, a1, a2): (u64, u64, u64) = (self.0[0], self.0[1], self.0[2]);
        let t: u64 = a2 >> 33;
        let r0: u64 = (a0 << 1) ^ t;
        let r1: u64 = ((a1 << 1) | (a0 >> 63)) ^ (t << 17);
        let r2: u64 = ((a2 << 1) | (a1 >> 63)) & M34;
        let r = F162([r0, r1, r2]);
        proof {
            assert(((a2 << 1) | (a1 >> 63)) & 0x3_FFFF_FFFF <= 0x3_FFFF_FFFF) by (bit_vector);
            assert forall|i: int| 0 <= i < 162 implies r@[i] == f162().xtime(self@)[i] by {
                lemma_xtime162(a0, a1, a2, t, i);
            }
            assert(r@ =~= f162().xtime(self@));
        }
        r
    }
}

/// The coefficients of a `B128` as those of an `F162`.
pub open spec fn lift(x: Seq<bool>) -> Seq<bool> {
    Seq::new(162, |i: int| i < 128 && x[i])
}

proof fn lemma_top_bits(x: u64, i: int)
    requires
        x <= M34,
        34 <= i < 64,
    ensures
        !bit64(x, i),
{
    let k = i as u64;
    assert((x >> k) & 1 == 0) by (bit_vector)
        requires
            x <= 0x3_FFFF_FFFF,
            34 <= k < 64,
    ;
}

proof fn lemma_xtime162(a0: u64, a1: u64, a2: u64, t: u64, i: int)
    requires
        0 <= i < 162,
        a2 <= M34,
        t == a2 >> 33,
    ensures
        ({
            let r0 = (a0 << 1) ^ t;
            let r1 = ((a1 << 1) | (a0 >> 63)) ^ (t << 17);
            let r2 = ((a2 << 1) | (a1 >> 63)) & M34;
            F162([r0, r1, r2])@[i] == f162().xtime(F162([a0, a1, a2])@)[i]
        }),
{
    let k = (i % 64) as u64;
    let j = ((i - 1) % 64) as u64;
    let top = bit64(a2, 33);
    assert(top == F162([a0, a1, a2])@[161]);
    if i < 64 {
        assert(((((a0 << 1) ^ t) >> k) & 1 == 1) == ((k > 0 && (a0 >> j) & 1 == 1) != ((a2
            >> 33u64) & 1 == 1 && k == 0))) by (bit_vector)
            requires
                k < 64,
                k > 0 ==> j == k - 1,
                a2 <= 0x3_FFFF_FFFF,
                t == a2 >> 33,
        ;
    } else if i < 128 {
        assert((((((a1 << 1) | (a0 >> 63)) ^ (t << 17)) >> k) & 1 == 1) == ((if k > 0 {
            (a1 >> j) & 1 == 1
        } else {
            (a0 >> 63u64) & 1 == 1
        }) != ((a2 >> 33u64) & 1 == 1 && k == 17))) by (bit_vector)
            requires
                k < 64,
                k > 0 ==> j == k - 1,
                a2 <= 0x3_FFFF_FFFF,
                t == a2 >> 33,
        ;
    } else {
        assert((((((a2 << 1) | (a1 >> 63)) & 0x3_FFFF_FFFF) >> k) & 1 == 1) == (if k > 0 {
            (a2 >> j) & 1 == 1
        } else {
            (a1 >> 63u64) & 1 == 1
        })) by (bit_vector)
            requires
                k < 34,
                k > 0 ==> j == k - 1,
        ;
    }
}

impl vstd::std_specs::cmp::PartialEqSpecImpl for F162 {
    open spec fn obeys_eq_spec() -> bool {
        true
    }

    open spec fn eq_spec(&self, other: &F162) -> bool {
        self.0[0] == other.0[0] && self.0[1] == other.0[1] && self.0[2] == other.0[2]
    }
}

impl PartialEq for F162 {
    fn eq(&self, other: &F162) -> (r: bool) {
        self.0[0] == other.0[0] && self.0[1] == other.0[1] && self.0[2] == other.0[2]
    }
}

impl Eq for F162 {

}

impl AddSpecImpl<F162> for F162 {
    open spec fn obeys_add_spec() -> bool {
        false
    }

    open spec fn add_req(self, rhs: F162) -> bool {
        true
    }

    open spec fn add_spec(self, rhs: F162) -> F162 {
        arbitrary()
    }
}

impl Add<F162> for F162 {
    type Output = F162;

    fn add(self, o: F162) -> (r: F162)
        ensures
            self.wf() && o.wf() ==> r.wf(),
            r@ == f162().sum(self@, o@),
    {
        let r = F162([self.0[0] ^ o.0[0], self.0[1] ^ o.0[1], self.0[2] ^ o.0[2]]);
        proof {
            let (x, y) = (self.0[2], o.0[2]);
            assert(x <= 0x3_FFFF_FFFF && y <= 0x3_FFFF_FFFF ==> x ^ y <= 0x3_FFFF_FFFF)
                by (bit_vector);
            assert forall|i: int| 0 <= i < 162 implies r@[i] == f162().sum(self@, o@)[i] by {
                lemma_xor64(self.0[i / 64], o.0[i / 64], i % 64);
            }
            assert(r@ =~= f162().sum(self@, o@));
        }
        r
    }
}

impl MulSpecImpl<F162> for F162 {
    open spec fn obeys_mul_spec() -> bool {
        false
    }

    open spec fn mul_req(self, rhs: F162) -> bool {
        self.wf() && rhs.wf()
    }

    open spec fn mul_spec(self, rhs: F162) -> F162 {
        arbitrary()
    }
}

impl Mul<F162> for F162 {
    type Output = F162;

    fn mul(self, o: F162) -> (r: F162)
        ensures
            r.wf(),
            r@ == f162().mul(self@, o@),
    {
        let mut acc = F162([0, 0, 0]);
        let mut s = self;
        let mut k: usize = 0;
        proof {
            F162::lemma_consts();
        }
        while k < 162
            invariant
                k <= 162,
                s.wf(),
                acc.wf(),
                s@ == f162().shl(self@, k as nat),
                acc@ == f162().mul_to(self@, o@, k as nat),
            decreases 162 - k,
        {
            proof {
                f162().mul_to_elem(self@, o@, k as nat);
                f162().sum_zero(acc@);
            }
            if (o.0[k / 64] >> ((k % 64) as u64)) & 1 == 1 {
                acc = acc + s;
            }
            s = s.xtime();
            k += 1;
        }
        acc
    }
}

} // verus!
