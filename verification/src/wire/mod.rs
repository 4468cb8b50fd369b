//! The wire forms: what a verifier actually receives, and its exact inverse.
pub mod bits;
pub mod cat;
pub mod commitment;
pub mod dropped;
pub mod quantize;
pub mod rans;
pub mod tagged;
pub mod uniform;

pub use commitment::{commitment_bytes, pack_commitment, unpack_commitment};
pub use dropped::{pack_dropped, unpack_dropped};
pub use tagged::{pack_tagged_commitment, unpack_tagged_commitment};
pub use uniform::{f162_bytes, pack_f162, pack_row_evaluation, unpack_f162, unpack_row_evaluation, F162_BITS};

use vstd::arithmetic::power2::*;
use vstd::prelude::*;

verus! {

#[derive(Clone, Copy, PartialEq, Eq, Debug, Structural)]
pub enum WireError {
    /// The byte string ran out before the object did.
    Truncated,
    /// The byte string is not a coding of any object of the expected shape.
    Malformed,
}

/// The number of bits of `x`.
pub open spec fn bit_len(x: nat) -> nat {
    if x == 0 {
        0
    } else {
        bits::log2(x) + 1
    }
}

/// The bits one residue modulo `q` occupies: `ceil(log2 q)`.
pub open spec fn residue_width(q: nat) -> nat {
    bit_len((q - 1) as nat)
}

/// An integer below `2^n` has at most `n` bits, and is below the power of two of its bits.
pub proof fn lemma_bit_len(x: nat, n: nat)
    requires
        x < pow2(n),
    ensures
        bit_len(x) <= n,
        x < pow2(bit_len(x)),
{
    lemma2_to64();
    if x > 0 {
        bits::lemma_log2(x);
        let k = bits::log2(x);
        lemma_pow2_unfold(k + 1);
        if k >= n && k > n {
            lemma_pow2_strictly_increases(n, k);
        }
    } else {
        lemma_pow2_pos(n);
    }
}

pub proof fn lemma_residue_width(q: u16)
    requires
        q >= 1,
    ensures
        residue_width(q as nat) <= 16,
        q - 1 < pow2(residue_width(q as nat)),
{
    lemma2_to64();
    lemma_bit_len((q - 1) as nat, 16);
}

/// The number of bits of `x`.
pub(crate) fn bit_length(x: u32) -> (r: u32)
    ensures
        r == bit_len(x as nat),
        r <= 32,
        x <= 0xFFFF ==> r <= 16,
{
    proof {
        lemma2_to64();
        lemma_bit_len(x as nat, 32);
        if x <= 0xFFFF {
            lemma_bit_len(x as nat, 16);
        }
    }
    if x == 0 {
        return 0;
    }
    let mut y: u32 = x;
    let mut k: u32 = 0;
    while y >= 2
        invariant
            1 <= y,
            k + bits::log2(y as nat) == bits::log2(x as nat),
            bits::log2(x as nat) < 32,
        decreases y,
    {
        y = y / 2;
        k += 1;
    }
    k + 1
}

/// Bits one residue modulo `q` occupies: `ceil(log2 q)`.
pub fn residue_bits(q: u16) -> (r: u32)
    requires
        q >= 1,
    ensures
        r == residue_width(q as nat),
        r <= 16,
{
    bit_length(q as u32 - 1)
}

/// The width of a residue is the least that holds it: every residue fits, and with a bit less the
/// largest would not.
pub proof fn residue_width_is_least(q: u16)
    requires
        q >= 2,
    ensures
        residue_width(q as nat) >= 1,
        q <= pow2(residue_width(q as nat)),
        q > pow2((residue_width(q as nat) - 1) as nat),
{
    lemma_residue_width(q);
    lemma_bit_len_least((q - 1) as nat);
}

proof fn lemma_bit_len_least(x: nat)
    requires
        x >= 1,
    ensures
        bit_len(x) >= 1,
        pow2((bit_len(x) - 1) as nat) <= x,
    decreases x,
{
    lemma2_to64();
    if x >= 2 {
        lemma_bit_len_least(x / 2);
        lemma_pow2_unfold((bit_len(x) - 1) as nat);
    }
}

} // verus!
