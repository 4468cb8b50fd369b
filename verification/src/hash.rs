//! The blake3 calls of the library.
//!
//! A [`Hasher`] is opaque here. Two names say what it holds, the key it was made with and the
//! bytes it has taken in, and the output functions are named as functions of the two.
use blake3::Hasher;
use vstd::prelude::*;

verus! {

#[verifier::external_type_specification]
#[verifier::external_body]
pub struct ExHasher(Hasher);

/// The key of a hasher: empty for `Hasher::new`, the 32 bytes given to `Hasher::new_keyed`.
pub uninterp spec fn hasher_key(h: Hasher) -> Seq<u8>;

/// The bytes a hasher has taken in, in order.
pub uninterp spec fn hasher_input(h: Hasher) -> Seq<u8>;

/// The 32 bytes of `Hasher::finalize`.
pub uninterp spec fn hash_bytes(key: Seq<u8>, input: Seq<u8>) -> Seq<u8>;

/// Byte `i` of the extendable output of `Hasher::finalize_xof`.
pub uninterp spec fn xof_byte(key: Seq<u8>, input: Seq<u8>, i: int) -> u8;

/// The 32 bytes of `blake3::derive_key`.
pub uninterp spec fn derived_key(context: Seq<char>, material: Seq<u8>) -> Seq<u8>;

/// `blake3::Hasher::new`: no key, no input.
#[verifier::external_body]
pub(crate) fn new_hasher() -> (h: Hasher)
    ensures
        hasher_key(h) == Seq::<u8>::empty(),
        hasher_input(h) == Seq::<u8>::empty(),
{
    Hasher::new()
}

/// `blake3::Hasher::new_keyed`: the given key, no input.
#[verifier::external_body]
pub(crate) fn keyed_hasher(key: &[u8; 32]) -> (h: Hasher)
    ensures
        hasher_key(h) == key@,
        hasher_input(h) == Seq::<u8>::empty(),
{
    Hasher::new_keyed(key)
}

/// `Hasher::clone`: the same key and the same input.
#[verifier::external_body]
pub(crate) fn copy_hasher(h: &Hasher) -> (r: Hasher)
    ensures
        hasher_key(r) == hasher_key(*h),
        hasher_input(r) == hasher_input(*h),
{
    h.clone()
}

/// `Hasher::update`: the bytes are appended to the input, the key stays. The function takes in at
/// most `2^64 - 1` bytes over all calls.
#[verifier::external_body]
pub(crate) fn update(h: &mut Hasher, b: &[u8])
    requires
        hasher_input(*old(h)).len() + b@.len() <= u64::MAX,
    ensures
        hasher_key(*final(h)) == hasher_key(*old(h)),
        hasher_input(*final(h)) == hasher_input(*old(h)) + b@,
{
    h.update(b);
}

/// `Hasher::finalize`: 32 bytes that depend on the key and the input alone.
#[verifier::external_body]
pub(crate) fn digest(h: &Hasher) -> (r: [u8; 32])
    ensures
        r@ == hash_bytes(hasher_key(*h), hasher_input(*h)),
{
    *h.finalize().as_bytes()
}

/// `Hasher::finalize_xof` read from `position` on: the output stream depends on the key and the
/// input alone. It is `2^64 - 1` bytes long.
#[verifier::external_body]
pub(crate) fn xof_fill(h: &Hasher, position: u64, out: &mut [u8])
    requires
        position + old(out)@.len() <= u64::MAX,
    ensures
        final(out)@ == Seq::new(
            old(out)@.len(),
            |i: int| xof_byte(hasher_key(*h), hasher_input(*h), position + i),
        ),
{
    let mut reader = h.finalize_xof();
    reader.set_position(position);
    reader.fill(out);
}

/// `blake3::hash`: what `Hasher::new`, one `update` and `finalize` give.
#[verifier::external_body]
pub(crate) fn hash(b: &[u8]) -> (r: [u8; 32])
    ensures
        r@ == hash_bytes(Seq::<u8>::empty(), b@),
{
    *blake3::hash(b).as_bytes()
}

/// `blake3::derive_key`: 32 bytes that depend on the context string and the material alone.
#[verifier::external_body]
pub(crate) fn derive_key(context: &str, material: &[u8]) -> (r: [u8; 32])
    ensures
        r@ == derived_key(context@, material@),
{
    blake3::derive_key(context, material)
}

} // verus!
