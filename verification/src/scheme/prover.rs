//! The prover.
use super::commitment::{Commitment, CommitmentValue, FoldedWitness};
use super::messages::{CommitmentOpening, FoldingChallenges};
use super::params::Params;
use super::public;
use super::public::PublicParameters;
use super::witness::Witness;
use crate::bd::digits;
use crate::bd::garner;
use crate::fold;
use crate::key;
use crate::key::{AuxData, CommitmentKey};
use crate::params;
use crate::ring::{
    PowerOfThreeRingElementWithLimbs, Representation, RingElement, VerticallyAlignedMatrix,
};
use crate::scalar;
use crate::simd::norm;
use std::sync::Arc;
use vstd::arithmetic::power2::*;
use vstd::prelude::*;

verus! {

/// Why the prover could not open.
#[derive(Clone, Copy, PartialEq, Eq, Debug, Structural)]
pub enum OpeningError {
    /// `|v|^2` exceeded its cap; the caller retries the round with fresh challenges.
    FoldTooLong { normsq: u64, cap: u64 },
}

/// The prover: the public matrix and the workspace the commitment and the fold pass between them.
pub struct Prover {
    pub params: Params,
    pub key: Arc<CommitmentKey>,
    pub workspace: Option<AuxData>,
}

/// `|v|^2` over the first `n` ring elements.
pub open spec fn fold_normsq(v: Seq<RingElement>, n: nat) -> int
    decreases n,
{
    if n == 0 {
        0
    } else {
        fold_normsq(v, (n - 1) as nat) + garner::normsq(norm::signed(v[n - 1].v@), 648)
    }
}

/// The columns of a witness.
pub open spec fn columns_of(w: &Witness) -> Seq<Seq<Seq<int>>> {
    Seq::new(
        pow2(w.params.column_log_len as nat),
        |j: int|
            key::column(
                w.elements@,
                pow2((w.params.witness_log_len - w.params.column_log_len) as nat),
                j,
            ),
    )
}

/// What a commitment to `w` keeps: the raw commitments of the columns and their transforms modulo
/// the base prime.
pub open spec fn opens(key: CommitmentKey, w: &Witness, aux: AuxData) -> bool {
    let r = pow2(w.params.column_log_len as nat);
    &&& aux.matches(&key, r)
    &&& key::are_raw(key, w.elements@, aux.raw@, r)
    &&& fold::kept(aux.batches@, (key.len_f162 / 128) as nat, key.prime_at(0), columns_of(w))
}

/// The commitment matrix: entry `(t, j)` is component `t` of the commitment of column `j`.
pub open spec fn is_matrix(
    key: CommitmentKey,
    aux: AuxData,
    m: VerticallyAlignedMatrix<PowerOfThreeRingElementWithLimbs>,
) -> bool {
    &&& m.wf()
    &&& m.rows == 4
    &&& m.cols == aux.chunks
    &&& forall|t: int, j: int|
        0 <= t < 4 && 0 <= j < aux.chunks ==> key::is_entry(
            key,
            aux.raw@,
            #[trigger] m.at(t, j),
            t,
            j,
        )
}

/// The commitment in the mode the parameters name: the matrix, or its coefficients with their low
/// bits dropped.
pub open spec fn is_value(key: CommitmentKey, params: Params, aux: AuxData, v: CommitmentValue) -> bool {
    match v {
        CommitmentValue::Matrix(m) => params.bits() == 0 && is_matrix(key, aux, m),
        CommitmentValue::Dropped(d) => {
            &&& params.bits() > 0
            &&& d.wf()
            &&& d.in_range()
            &&& d.primes@ == key.prime_list()
            &&& d.columns == aux.chunks
            &&& d.dropped_bits == params.bits()
            &&& forall|j: int, c: Seq<[u32; 648]>|
                0 <= j < aux.chunks && #[trigger] digits::are_coefficients(
                    key.prime_list(),
                    aux.raw@,
                    j,
                    c,
                ) ==> digits::is_dropped(*d, c, j)
        },
        CommitmentValue::Recursive(_) => false,
    }
}

impl Prover {
    /// The key fits the parameters and the workspace, where there is one, fits both.
    pub open spec fn wf(&self) -> bool {
        &&& public::fits(self.params, *self.key)
        &&& self.workspace matches Some(aux) ==> aux.matches(
            &*self.key,
            pow2(self.params.column_log_len as nat),
        )
    }

    pub fn new(pp: &PublicParameters) -> (p: Prover)
        requires
            pp.wf(),
        ensures
            p.wf(),
            p.params.same(&pp.params),
            p.key == pp.key,
            p.workspace is None,
    {
        let params = pp.params.copy();
        assert(params.prime_list() =~= pp.params.prime_list());
        Prover { params, key: public::share(&pp.key), workspace: None }
    }

    proof fn lemma_sizes(&self)
        requires
            self.wf(),
        ensures
            pow2(self.params.witness_log_len as nat) == pow2(self.params.column_log_len as nat)
                * self.key.len_f162,
            pow2(self.params.column_log_len as nat) <= usize::MAX,
            pow2(self.params.witness_log_len as nat) <= usize::MAX,
            pow2(self.params.column_log_len as nat) > 0,
            self.params.column_log_len < usize::BITS,
    {
        let (w, c) = (self.params.witness_log_len as nat, self.params.column_log_len as nat);
        self.params.lemma_distinct();
        lemma_pow2_adds(c, (w - c) as nat);
        lemma_pow2_pos(c);
        if usize::BITS == 64 {
            lemma2_to64_rest();
            lemma_pow2_strictly_increases(w, 64);
        } else {
            lemma2_to64();
            lemma_pow2_strictly_increases(w, 32);
        }
        if c < w {
            lemma_pow2_strictly_increases(c, w);
        }
    }

    /// The commitment matrix, and what the fold will need.
    pub fn commit_matrix(&mut self, witness: &Witness) -> (r: (
        VerticallyAlignedMatrix<PowerOfThreeRingElementWithLimbs>,
        CommitmentOpening,
    ))
        requires
            old(self).wf(),
            witness.wf(),
            witness.params.same(&old(self).params),
        ensures
            final(self).wf(),
            final(self).params == old(self).params,
            final(self).key == old(self).key,
            opens(*old(self).key, witness, r.1.aux),
            is_matrix(*old(self).key, r.1.aux, r.0),
            r.1.residues is None,
    {
        proof {
            self.lemma_sizes();
        }
        let n: usize = self.params.columns();
        let ghost len = self.key.len_f162 as nat;
        proof {
            let (r, l, m) = (n as int, len as int, (len / 4) as int);
            assert(0 <= r * m <= r * l) by (nonlinear_arith)
                requires
                    0 <= m <= l,
                    0 <= r,
            ;
        }
        let workspace = self.workspace.take();
        let mut aux = match workspace {
            Some(a) => a,
            None => AuxData::new(self.key.len_ring(), n, self.key.limbs()),
        };
        assert(aux.matches(&*self.key, n as nat));
        assert(exists|e: nat| n == #[trigger] pow2(e));
        let m = self.key.commit_into_aux(witness.elements.as_slice(), n, &mut aux);
        proof {
            let (key, per) = (public::held(self.key), (self.key.len_f162 / 128) as nat);
            let cols = columns_of(witness);
            assert forall|j: int| 0 <= j < cols.len() implies key::held(
                aux.batches@,
                j * per,
                key.prime_at(0),
                #[trigger] cols[j],
            ) by {
                assert(cols[j] == key::column(witness.elements@, len, j));
            }
        }
        (m, CommitmentOpening { aux, residues: None })
    }

    /// The commitment in the clear or bit-dropped mode.
    pub fn commit(&mut self, witness: &Witness) -> (r: (Commitment, CommitmentOpening))
        requires
            old(self).wf(),
            witness.wf(),
            witness.params.same(&old(self).params),
            !(old(self).params.opening is Recursive),
            old(self).params.bits() <= 31,
            648 * pow2(old(self).params.column_log_len as nat) <= usize::MAX,
        ensures
            final(self).wf(),
            final(self).params == old(self).params,
            final(self).key == old(self).key,
            r.0.wf(),
            r.0.primes@ == old(self).params.prime_list(),
            r.0.columns == pow2(old(self).params.column_log_len as nat),
            opens(*old(self).key, witness, r.1.aux),
            is_value(*old(self).key, old(self).params, r.1.aux, r.0.value),
            r.1.residues is None,
    {
        proof {
            self.lemma_sizes();
        }
        let primes = self.params.primes();
        let columns: usize = self.params.columns();
        let bits: u32 = self.params.dropped_bits();
        let (m, opening) = self.commit_matrix(witness);
        let ghost key = public::held(self.key);
        proof {
            assert forall|k: int| 0 <= k < primes@.len() implies 2 <= (#[trigger] primes@[k]) <= 0x7FFF by {
                assert(params::limb_prime(key.prime_list()[k]));
            }
        }
        let value = if bits > 0 {
            proof {
                assert forall|k: int, j: int|
                    0 <= k < opening.aux.raw@.len() && 0 <= j < columns implies scalar::in_range(
                    (#[trigger] opening.aux.raw@[k]@[j])@,
                    primes@[k],
                ) by {
                    assert(key.prime_list()[k] == key.prime_at(k));
                }
            }
            let d = digits::drop_bits(
                opening.aux.raw.as_slice(),
                primes.as_slice(),
                columns,
                bits,
            );
            CommitmentValue::Dropped(Arc::new(d))
        } else {
            CommitmentValue::Matrix(m)
        };
        proof {
            if bits == 0 {
                assert forall|j: int| 0 <= j < m.data@.len() implies (#[trigger] m.data@[j]).limbs@.len()
                    == primes@.len() by {
                    assert(m.at(j % 4, j / 4) == m.data@[j]);
                    assert(key::is_entry(key, opening.aux.raw@, m.at(j % 4, j / 4), j % 4, j / 4));
                }
            }
        }
        (Commitment { primes, columns, value }, opening)
    }

    /// The amortised witness `v = sum_j c_j W_j`, centred modulo the base prime.
    pub fn fold(&mut self, opening: CommitmentOpening, challenges: &FoldingChallenges) -> (v:
        FoldedWitness)
        requires
            old(self).wf(),
            challenges.wf(),
            challenges.challenges@.len() == pow2(old(self).params.column_log_len as nat),
            opening.aux.matches(
                &*old(self).key,
                pow2(old(self).params.column_log_len as nat),
            ),
        ensures
            final(self).wf(),
            final(self).params == old(self).params,
            final(self).key == old(self).key,
            final(self).workspace == Some(opening.aux),
            v.elements@.len() == old(self).key.len_f162 / 4,
            forall|i: int|
                0 <= i < v.elements@.len() ==> (#[trigger] v.elements@[i]).representation
                    == Representation::Coefficients,
            forall|w: &Witness|
                w.wf() && w.params.same(&old(self).params) && #[trigger] opens(
                    *old(self).key,
                    w,
                    opening.aux,
                ) ==> fold::is_folded(
                    old(self).key.prime_at(0),
                    challenges.challenges@,
                    columns_of(w),
                    v.elements@,
                ),
    {
        let per: usize = self.key.len_ring() / 32;
        assert(32 * per == self.key.len_f162 / 4 && per == self.key.len_f162 / 128);
        let q: u16 = self.key.prime(0);
        let elements = fold::fold_witness(
            opening.aux.batches.as_slice(),
            challenges.challenges.as_slice(),
            per,
            q,
        );
        proof {
            let key = public::held(self.key);
            assert forall|w: &Witness|
                w.wf() && w.params.same(&self.params) && #[trigger] opens(
                    key,
                    w,
                    opening.aux,
                ) implies fold::is_folded(
                key.prime_at(0),
                challenges.challenges@,
                columns_of(w),
                elements@,
            ) by {
                assert(fold::kept(opening.aux.batches@, per as nat, q, columns_of(w)));
                lemma_columns_shaped(w);
            }
        }
        self.workspace = Some(opening.aux);
        FoldedWitness { elements }
    }

    /// The fold, if its squared norm is within the cap.
    pub fn fold_within(&mut self, opening: CommitmentOpening, challenges: &FoldingChallenges, cap: u64) -> (r:
        Result<FoldedWitness, OpeningError>)
        requires
            old(self).wf(),
            challenges.wf(),
            challenges.challenges@.len() == pow2(old(self).params.column_log_len as nat),
            opening.aux.matches(
                &*old(self).key,
                pow2(old(self).params.column_log_len as nat),
            ),
        ensures
            final(self).wf(),
            final(self).params == old(self).params,
            final(self).key == old(self).key,
            match r {
                Ok(v) => {
                    &&& v.elements@.len() == old(self).key.len_f162 / 4
                    &&& fold_normsq(v.elements@, v.elements@.len()) <= cap
                    &&& forall|i: int|
                        0 <= i < v.elements@.len() ==> (#[trigger] v.elements@[i]).representation
                            == Representation::Coefficients
                    &&& forall|w: &Witness|
                        w.wf() && w.params.same(&old(self).params) && #[trigger] opens(
                            *old(self).key,
                            w,
                            opening.aux,
                        ) ==> fold::is_folded(
                            old(self).key.prime_at(0),
                            challenges.challenges@,
                            columns_of(w),
                            v.elements@,
                        )
                },
                Err(OpeningError::FoldTooLong { normsq, cap: c }) => {
                    &&& c == cap
                    &&& normsq > cap || (normsq == u64::MAX && cap == u64::MAX)
                    &&& forall|w: &Witness, v: Seq<RingElement>|
                        w.wf() && w.params.same(&old(self).params) && #[trigger] opens(
                            *old(self).key,
                            w,
                            opening.aux,
                        ) && v.len() == old(self).key.len_f162 / 4 && #[trigger] fold::is_folded(
                            old(self).key.prime_at(0),
                            challenges.challenges@,
                            columns_of(w),
                            v,
                        ) ==> fold_normsq(v, v.len()) > cap && normsq == (if fold_normsq(
                            v,
                            v.len(),
                        ) <= u64::MAX {
                            fold_normsq(v, v.len())
                        } else {
                            u64::MAX as int
                        })
                },
            },
    {
        let ghost aux = opening.aux;
        let v = self.fold(opening, challenges);
        let n: u128 = normsq_of(v.elements.as_slice());
        if n > cap as u128 {
            let normsq: u64 = if n > u64::MAX as u128 {
                u64::MAX
            } else {
                n as u64
            };
            proof {
                assert forall|w: &Witness, u: Seq<RingElement>|
                    w.wf() && w.params.same(&old(self).params) && #[trigger] opens(
                        *old(self).key,
                        w,
                        aux,
                    ) && u.len() == old(self).key.len_f162 / 4 && #[trigger] fold::is_folded(
                        old(self).key.prime_at(0),
                        challenges.challenges@,
                        columns_of(w),
                        u,
                    ) implies fold_normsq(u, u.len()) == n by {
                    assert(fold::is_folded(
                        old(self).key.prime_at(0),
                        challenges.challenges@,
                        columns_of(w),
                        v.elements@,
                    ));
                    lemma_same_normsq(
                        old(self).key.prime_at(0),
                        challenges.challenges@,
                        columns_of(w),
                        u,
                        v.elements@,
                        u.len(),
                    );
                }
            }
            return Err(OpeningError::FoldTooLong { normsq, cap });
        }
        Ok(v)
    }
}

/// Two folds of the same columns have the same norm.
proof fn lemma_same_normsq(
    q: u16,
    c: Seq<crate::challenge::short::ShortChallenge>,
    w: Seq<Seq<Seq<int>>>,
    u: Seq<RingElement>,
    v: Seq<RingElement>,
    n: nat,
)
    requires
        fold::is_folded(q, c, w, u),
        fold::is_folded(q, c, w, v),
        n <= u.len(),
        n <= v.len(),
    ensures
        fold_normsq(u, n) == fold_normsq(v, n),
    decreases n,
{
    if n > 0 {
        lemma_same_normsq(q, c, w, u, v, (n - 1) as nat);
        let i = n - 1;
        assert forall|x: int| 0 <= x < 648 implies u[i].v@[x] == v[i].v@[x] by {}
        assert(norm::signed(u[i].v@) =~= norm::signed(v[i].v@));
    }
}

pub proof fn lemma_columns_shaped(w: &Witness)
    requires
        w.wf(),
    ensures
        fold::shaped(
            columns_of(w),
            pow2(w.params.column_log_len as nat),
            pow2((w.params.witness_log_len - w.params.column_log_len) as nat) / 4,
        ),
{
}

/// The squared norm of a fold.
pub fn normsq_of(v: &[RingElement]) -> (n: u128)
    ensures
        n == fold_normsq(v@, v@.len()),
{
    let len: usize = v.len();
    let mut n: u128 = 0;
    let mut i: usize = 0;
    while i < len
        invariant
            i <= len == v@.len(),
            n == fold_normsq(v@, i as nat),
            n <= i * 0x100_0000_0000,
        decreases len - i,
    {
        let s: u64 = element_normsq(&v[i]);
        n = n + s as u128;
        i += 1;
    }
    n
}

/// The squared norm of one ring element.
fn element_normsq(e: &RingElement) -> (n: u64)
    ensures
        n == garner::normsq(norm::signed(e.v@), 648),
        n <= 0x100_0000_0000,
{
    let mut n: u64 = 0;
    let mut i: usize = 0;
    while i < 648
        invariant
            i <= 648,
            n == garner::normsq(norm::signed(e.v@), i as nat),
            n <= i * 0x4000_0000,
        decreases 648 - i,
    {
        let x: i64 = e.v[i] as i64;
        proof {
            assert(0 <= x * x <= 0x4000_0000) by (nonlinear_arith)
                requires
                    -0x8000 <= x <= 0x7FFF,
            ;
        }
        n = n + (x * x) as u64;
        i += 1;
    }
    n
}

} // verus!
