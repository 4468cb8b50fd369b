//! The public matrix.
use super::params::Params;
use crate::bytes;
use crate::hash;
use crate::key;
use crate::key::CommitmentKey;
use std::sync::Arc;
use vstd::arithmetic::power2::*;
use vstd::prelude::*;

verus! {

/// `Arc::clone`: another handle on the same value.
#[verifier::external_body]
pub(crate) fn share<T>(a: &Arc<T>) -> (r: Arc<T>)
    ensures
        r == *a,
{
    Arc::clone(a)
}

/// [`Params`] together with the public matrix `A` expanded from a seed.
pub struct PublicParameters {
    pub params: Params,
    pub matrix_seed: [u8; 32],
    pub key: Arc<CommitmentKey>,
}

/// The key behind a handle.
pub open spec fn held(key: Arc<CommitmentKey>) -> CommitmentKey {
    *key
}

/// The key fits the parameters.
pub open spec fn fits(params: Params, key: CommitmentKey) -> bool {
    &&& params.wf()
    &&& key.wf()
    &&& key.prime_list() == params.prime_list()
    &&& key.len_f162 == pow2((params.witness_log_len - params.column_log_len) as nat)
}

/// The generator seed of a matrix seed: the first eight bytes of its hash.
pub open spec fn key_seed(matrix_seed: Seq<u8>) -> nat {
    bytes::of_le(hash::hash_bytes(Seq::<u8>::empty(), matrix_seed).subrange(0, 8))
}

/// A column of a power of two elements is whole batches.
pub proof fn lemma_batches(n: nat)
    requires
        n >= 7,
    ensures
        pow2(n) % 128 == 0,
        pow2(n) >= 128,
    decreases n,
{
    lemma2_to64();
    if n > 7 {
        lemma_batches((n - 1) as nat);
        lemma_pow2_unfold(n);
    }
}

impl PublicParameters {
    pub open spec fn wf(&self) -> bool {
        fits(self.params, *self.key)
    }

    /// Expand `A`, one uniform row of `R_648` per modulus in the transform domain, from the seed.
    pub fn from_seed(params: Params, matrix_seed: [u8; 32]) -> (pp: PublicParameters)
        requires
            params.wf(),
        ensures
            pp.wf(),
            pp.params == params,
            pp.matrix_seed == matrix_seed,
            key::expands(*pp.key, key_seed(matrix_seed@) as u64),
    {
        let digest = hash::hash(&matrix_seed);
        let seed: u64 = bytes::read_u64(&digest, 0);
        let n: usize = params.column_len();
        proof {
            lemma_batches((params.witness_log_len - params.column_log_len) as nat);
            params.lemma_distinct();
            params.lemma_few();
        }
        let key = CommitmentKey::random(n, seed, params.base, params.extra_moduli.as_slice());
        assert(key.prime_list() =~= params.prime_list());
        PublicParameters { params, matrix_seed, key: Arc::new(key) }
    }

    pub fn params(&self) -> (r: &Params)
        ensures
            *r == self.params,
    {
        &self.params
    }

    /// The expanded matrix.
    pub fn key(&self) -> (r: &CommitmentKey)
        ensures
            *r == *self.key,
    {
        &self.key
    }
}


/// The generator seed in bytes is the front of the hash of the matrix seed, so it tells apart any two
/// matrix seeds whose hashes differ there.
pub proof fn key_seed_is_front(a: Seq<u8>, b: Seq<u8>)
    requires
        hash::hash_bytes(Seq::<u8>::empty(), a).len() == 32,
        hash::hash_bytes(Seq::<u8>::empty(), b).len() == 32,
    ensures
        bytes::le(key_seed(a), 8) == hash::hash_bytes(Seq::<u8>::empty(), a).take(8),
        key_seed(a) <= u64::MAX,
        key_seed(a) == key_seed(b) <==> hash::hash_bytes(Seq::<u8>::empty(), a).take(8)
            == hash::hash_bytes(Seq::<u8>::empty(), b).take(8),
{
    let (x, y) = (
        hash::hash_bytes(Seq::<u8>::empty(), a),
        hash::hash_bytes(Seq::<u8>::empty(), b),
    );
    bytes::lemma_le_of_le(x.subrange(0, 8));
    bytes::lemma_le_of_le(y.subrange(0, 8));
    bytes::lemma_radix_values();
    assert(x.take(8) =~= x.subrange(0, 8));
    assert(y.take(8) =~= y.subrange(0, 8));
}

} // verus!
