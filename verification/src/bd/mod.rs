//! Bit-dropped commitments: the base residue loses its low bits, the others are kept as the
//! digits of a mixed-radix expansion.
pub mod digits;
pub mod garner;
pub mod residual;

use crate::wire;
use crate::wire::bits;
use vstd::arithmetic::div_mod::*;
use vstd::arithmetic::mul::*;
use vstd::arithmetic::power2::*;
use vstd::prelude::*;

verus! {

/// A bit-dropped commitment of `columns` ring elements.
#[derive(Clone, PartialEq, Eq, Debug)]
pub struct Dropped {
    pub primes: Vec<u16>,
    pub columns: usize,
    pub dropped_bits: u32,
    pub top: Vec<u16>,
    pub digits: Vec<Vec<u16>>,
}

impl Dropped {
    /// One top part and one digit per prime beyond the first for each of the `648 columns`
    /// coefficients.
    pub open spec fn wf(&self) -> bool {
        &&& self.primes@.len() >= 1
        &&& 1 <= self.dropped_bits <= 31
        &&& wire::uniform::sound_primes(self.primes@)
        &&& self.top@.len() == 648 * self.columns
        &&& self.digits@.len() == self.primes@.len() - 1
        &&& forall|k: int|
            0 <= k < self.digits@.len() ==> (#[trigger] self.digits@[k])@.len() == 648
                * self.columns
    }

    /// The top parts and the digits are in their ranges.
    pub open spec fn in_range(&self) -> bool {
        &&& forall|i: int|
            0 <= i < self.top@.len() ==> (#[trigger] self.top@[i]) <= bound_of(
                self.primes@[0] as nat,
                self.dropped_bits as nat,
            )
        &&& forall|k: int, i: int|
            0 <= k < self.digits@.len() && 0 <= i < self.digits@[k]@.len() ==> (
            #[trigger] self.digits@[k]@[i]) < self.primes@[k + 1]
    }

    /// The parts of coefficient `i`: the top part, then the digits.
    pub open spec fn coefficient(&self, i: int) -> Seq<u16> {
        Seq::new(
            self.primes@.len(),
            |k: int|
                if k == 0 {
                    self.top@[i]
                } else {
                    self.digits@[k - 1]@[i]
                },
        )
    }

    pub fn of(
        primes: Vec<u16>,
        columns: usize,
        dropped_bits: u32,
        top: Vec<u16>,
        digits: Vec<Vec<u16>>,
    ) -> (r: Dropped)
        ensures
            r == (Dropped { primes, columns, dropped_bits, top, digits }),
    {
        Dropped { primes, columns, dropped_bits, top, digits }
    }

    pub fn primes(&self) -> (r: &[u16])
        ensures
            r@ == self.primes@,
    {
        self.primes.as_slice()
    }

    pub fn columns(&self) -> (r: usize)
        ensures
            r == self.columns,
    {
        self.columns
    }

    pub fn dropped_bits(&self) -> (r: u32)
        ensures
            r == self.dropped_bits,
    {
        self.dropped_bits
    }

    pub fn top(&self) -> (r: &[u16])
        ensures
            r@ == self.top@,
    {
        self.top.as_slice()
    }

    pub fn digits(&self) -> (r: &[Vec<u16>])
        ensures
            r@ == self.digits@,
    {
        self.digits.as_slice()
    }

    /// Bytes on the wire.
    pub fn wire_bytes(&self) -> (n: usize)
        requires
            self.primes@.len() >= 1,
            1 <= self.dropped_bits <= 31,
            self.primes@[0] >= 1,
            forall|k: int| 1 <= k < self.primes@.len() ==> (#[trigger] self.primes@[k]) >= 1,
            fits(self.primes@, self.columns as nat, self.dropped_bits as nat),
        ensures
            n == byte_count(self.primes@, self.columns as nat, self.dropped_bits as nat),
    {
        bytes(self.primes.as_slice(), self.columns, self.dropped_bits)
    }
}

/// The largest top part: `(q - 1 + 2^(d - 1)) / 2^d`.
pub open spec fn bound_of(q: nat, d: nat) -> nat {
    ((q - 1 + pow2((d - 1) as nat)) as nat) / pow2(d)
}

/// The bits of a top part.
pub open spec fn width_of(q: nat, d: nat) -> nat {
    wire::bit_len(bound_of(q, d))
}

pub fn top_bound(q: u16, dropped_bits: u32) -> (r: u32)
    requires
        q >= 1,
        1 <= dropped_bits <= 31,
    ensures
        r == bound_of(q as nat, dropped_bits as nat),
        r <= 0xFFFF,
{
    let h: u64 = bits::two_to(dropped_bits - 1);
    let p: u64 = bits::two_to(dropped_bits);
    proof {
        lemma2_to64();
        lemma_width(q, dropped_bits as nat);
        lemma_pow2_strictly_increases(dropped_bits as nat, 32);
        lemma_pow2_pos(dropped_bits as nat);
        lemma_pow2_strictly_increases((dropped_bits - 1) as nat, 32);
    }
    ((q as u64 - 1 + h) / p) as u32
}

pub fn top_bits(q: u16, dropped_bits: u32) -> (r: u32)
    requires
        q >= 1,
        1 <= dropped_bits <= 31,
    ensures
        r == width_of(q as nat, dropped_bits as nat),
        r <= 16,
{
    let b: u32 = top_bound(q, dropped_bits);
    wire::bit_length(b)
}

/// The bits of one coefficient over the first `n` primes.
pub open spec fn coefficient_width(primes: Seq<u16>, d: nat, n: nat) -> nat
    decreases n,
{
    if n == 0 {
        0
    } else if n == 1 {
        width_of(primes[0] as nat, d)
    } else {
        coefficient_width(primes, d, (n - 1) as nat) + wire::residue_width(primes[n - 1] as nat)
    }
}

pub proof fn lemma_coefficient_width(primes: Seq<u16>, d: nat, n: nat)
    requires
        1 <= n <= primes.len(),
        primes[0] >= 1,
        1 <= d <= 31,
        forall|k: int| 1 <= k < primes.len() ==> (#[trigger] primes[k]) >= 1,
    ensures
        coefficient_width(primes, d, n) <= 16 * n,
    decreases n,
{
    lemma_width(primes[0], d);
    if n > 1 {
        lemma_coefficient_width(primes, d, (n - 1) as nat);
        wire::lemma_residue_width(primes[n - 1]);
    }
}

pub proof fn lemma_width(q: u16, d: nat)
    requires
        q >= 1,
        1 <= d <= 31,
    ensures
        bound_of(q as nat, d) <= 0xFFFF,
        width_of(q as nat, d) <= 16,
        bound_of(q as nat, d) < pow2(width_of(q as nat, d)),
{
    lemma2_to64();
    lemma_pow2_unfold(d);
    lemma_pow2_pos((d - 1) as nat);
    let (x, y, h) = ((q - 1 + pow2((d - 1) as nat)) as int, pow2(d) as int, pow2((d - 1) as nat) as int);
    lemma_fundamental_div_mod(x, y);
    lemma_mod_bound(x, y);
    let b = x / y;
    lemma_div_pos_is_pos(x, y);
    assert(b <= 0xFFFF) by (nonlinear_arith)
        requires
            x == y * b + x % y,
            0 <= x % y,
            x <= 0xFFFE + h,
            y == 2 * h,
            h >= 1,
            b >= 0,
    ;
    wire::lemma_bit_len(b as nat, 16);
}

pub fn coefficient_bits(primes: &[u16], dropped_bits: u32) -> (r: u32)
    requires
        1 <= primes@.len() <= 0x0FFF_FFFF,
        primes@[0] >= 1,
        forall|k: int| 1 <= k < primes@.len() ==> (#[trigger] primes@[k]) >= 1,
        1 <= dropped_bits <= 31,
    ensures
        r == coefficient_width(primes@, dropped_bits as nat, primes@.len()),
{
    let mut r: u32 = top_bits(primes[0], dropped_bits);
    let mut k: usize = 1;
    while k < primes.len()
        invariant
            1 <= k <= primes@.len() <= 0x0FFF_FFFF,
            primes@[0] >= 1,
            forall|k: int| 1 <= k < primes@.len() ==> (#[trigger] primes@[k]) >= 1,
            1 <= dropped_bits <= 31,
            r == coefficient_width(primes@, dropped_bits as nat, k as nat),
        decreases primes@.len() - k,
    {
        proof {
            lemma_coefficient_width(primes@, dropped_bits as nat, (k + 1) as nat);
        }
        r = r + wire::residue_bits(primes[k]);
        k += 1;
    }
    r
}

/// The bits of `columns` ring elements.
pub open spec fn bit_count(primes: Seq<u16>, columns: nat, d: nat) -> nat {
    columns * 648 * coefficient_width(primes, d, primes.len())
}

/// The bytes of `columns` ring elements.
pub open spec fn byte_count(primes: Seq<u16>, columns: nat, d: nat) -> nat {
    (bit_count(primes, columns, d) + 7) / 8
}

/// The bits can be counted.
pub open spec fn fits(primes: Seq<u16>, columns: nat, d: nat) -> bool {
    primes.len() <= 0x0FFF_FFFF && bit_count(primes, columns, d) + 7 <= usize::MAX && columns * 648
        <= usize::MAX
}

pub fn bytes(primes: &[u16], columns: usize, dropped_bits: u32) -> (n: usize)
    requires
        primes@.len() >= 1,
        primes@[0] >= 1,
        forall|k: int| 1 <= k < primes@.len() ==> (#[trigger] primes@[k]) >= 1,
        1 <= dropped_bits <= 31,
        fits(primes@, columns as nat, dropped_bits as nat),
    ensures
        n == byte_count(primes@, columns as nat, dropped_bits as nat),
{
    let w: u32 = coefficient_bits(primes, dropped_bits);
    (columns * 648 * (w as usize) + 7) / 8
}

/// The cap on the squared norm of the error of a bit-dropped fold: four times the expected
/// value `648 columns 28 (4^d - 1) / 12`.
pub open spec fn cap_of(columns: nat, d: nat) -> nat {
    6048 * columns * ((pow2(2 * d) - 1) as nat)
}

pub fn cap(columns: usize, dropped_bits: u32) -> (c: u64)
    requires
        dropped_bits <= 26,
        cap_of(columns as nat, dropped_bits as nat) < 0x20_0000_0000_0000,
    ensures
        c == cap_of(columns as nat, dropped_bits as nat),
{
    let p: u64 = bits::two_to(2 * dropped_bits);
    let m: u64 = p - 1;
    if m == 0 {
        proof {
            assert(6048 * (columns as nat) * 0 == 0) by (nonlinear_arith);
        }
        return 0;
    }
    proof {
        let (a, b) = (6048 * columns as int, m as int);
        assert(a <= a * b) by (nonlinear_arith)
            requires
                a >= 0,
                b >= 1,
        ;
    }
    6048 * (columns as u64) * m
}


/// The bound on a top part is the largest one that rounding a residue gives: no residue rounds above
/// it, and the largest residue rounds to it.
pub proof fn top_bound_is_reached(q: nat, d: nat, c: nat)
    requires
        c < q,
        d >= 1,
    ensures
        (c + pow2((d - 1) as nat)) / pow2(d) <= bound_of(q, d),
        c == q - 1 ==> (c + pow2((d - 1) as nat)) / pow2(d) == bound_of(q, d),
{
    lemma_pow2_pos(d);
    let h = pow2((d - 1) as nat) as int;
    lemma_div_is_ordered(c + h, q - 1 + h, pow2(d) as int);
}

/// The bits of one more prime are added to those of the primes before it.
pub proof fn coefficient_width_adds(primes: Seq<u16>, p: u16, d: nat)
    requires
        primes.len() >= 1,
    ensures
        coefficient_width(primes.push(p), d, primes.len() + 1) == coefficient_width(
            primes,
            d,
            primes.len(),
        ) + wire::residue_width(p as nat),
        coefficient_width(seq![p], d, 1) == width_of(p as nat, d),
{
    lemma_width_prefix(primes, primes.push(p), d, primes.len());
}

proof fn lemma_width_prefix(a: Seq<u16>, b: Seq<u16>, d: nat, n: nat)
    requires
        n <= a.len(),
        n <= b.len(),
        forall|i: int| 0 <= i < n ==> (#[trigger] a[i]) == b[i],
    ensures
        coefficient_width(a, d, n) == coefficient_width(b, d, n),
    decreases n,
{
    if n > 1 {
        lemma_width_prefix(a, b, d, (n - 1) as nat);
    }
}

/// The bytes hold every bit of every coefficient, and one byte fewer would not.
pub proof fn byte_count_is_least(primes: Seq<u16>, columns: nat, d: nat)
    ensures
        columns * 648 * coefficient_width(primes, d, primes.len()) <= 8 * byte_count(
            primes,
            columns,
            d,
        ),
        8 * byte_count(primes, columns, d) < columns * 648 * coefficient_width(
            primes,
            d,
            primes.len(),
        ) + 8,
{
}

} // verus!
