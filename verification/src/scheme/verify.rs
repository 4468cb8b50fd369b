//! The verifier.
use super::commitment::{Commitment, CommitmentValue, EvaluationPoint, FoldedWitness, RowEvaluation};
use super::messages::{
    FoldedCommitment, FoldingChallenges, FoldingSource, OpeningMessage, VerificationError,
};
use super::params::{FoldCap, Opening, Params};
use super::prover;
use super::public;
use super::public::PublicParameters;
use super::script;
use crate::ajtai;
use crate::bd;
use crate::bd::residual;
use crate::challenge::short;
use crate::challenge::short::ShortChallenge;
use crate::challenge::transcript;
use crate::challenge::transcript::{Script, Transcript};
use crate::eval;
use crate::fields::linear;
use crate::fields::scalar;
use crate::fields::scalar::F162;
use crate::fold;
use crate::key;
use crate::key::CommitmentKey;
use crate::ntt::poly;
use crate::params;
use crate::ring::decompose;
use crate::ring::{
    Batch32, PowerOfThreeRingElement, PowerOfThreeRingElementWithLimbs, Representation,
    RingElement,
};
use crate::simd::norm;
use crate::wire::uniform;
use std::sync::Arc;
use vstd::arithmetic::power2::*;
use vstd::prelude::*;

verus! {

/// The verifier: the public parameters and nothing else.
pub struct Verifier {
    pub params: Params,
    pub matrix_seed: [u8; 32],
    pub key: Arc<CommitmentKey>,
    pub fold_cap: u64,
}

/// The script `n` derivations on.
pub open spec fn advanced(s: Script, n: nat) -> Script {
    Script { counter: (s.counter + n) as u64, ..s }
}

/// `c` is the challenge that a script gives.
pub open spec fn drawn<F: Fn(&ShortChallenge) -> bool>(within: F, s: Script, c: ShortChallenge) -> bool {
    exists|n: u64| #[trigger] short::sampled(within, s, 28, Some((c, n)))
}

/// `c` are the `n` challenges that a script gives, one derivation each.
pub open spec fn are_challenges<F: Fn(&ShortChallenge) -> bool>(
    within: F,
    s: Script,
    n: nat,
    c: Seq<ShortChallenge>,
) -> bool {
    &&& c.len() == n
    &&& forall|j: int|
        0 <= j < c.len() ==> drawn(within, advanced(s, j as nat), #[trigger] c[j])
}

/// The evaluation point that a script gives: one element per variable, the row variables first.
pub open spec fn is_point(s: Script, params: Params, p: EvaluationPoint) -> bool {
    let (r, c) = (
        (params.witness_log_len - params.column_log_len) as nat,
        params.column_log_len as nat,
    );
    let all = transcript::f162s_of(
        s.output(script::point_label(), 24 * params.witness_log_len as nat),
        params.witness_log_len as nat,
    );
    p.p0@ == all.subrange(0, r as int) && p.p1@ == all.subrange(r as int, (r + c) as int)
}

/// The rows of `A v` modulo `q`.
pub open spec fn image_rows(q: u16, a: Seq<Batch32>, v: Seq<Seq<int>>) -> Seq<int> {
    Seq::new(
        648,
        |r: int|
            ajtai::dot(q, ajtai::lanes(a), ajtai::all_hats(q, v), r, v.len()) % (q as int),
    )
}

/// The fold is in coefficient form, centred within half the base prime, and short.
pub open spec fn is_short(v: Seq<RingElement>, q: u16, cap: u64) -> bool {
    &&& forall|i: int|
        0 <= i < v.len() ==> {
            &&& (#[trigger] v[i]).representation == Representation::Coefficients
            &&& !norm::overflows(v[i].v@)
            &&& norm::peak(v[i].v@, 648) <= (q - 1) / 2
        }
    &&& prover::fold_normsq(v, v.len()) <= cap
}

/// `A v` is the folded commitment modulo the prime of limb `k`.
pub open spec fn image_matches(key: CommitmentKey, fc: FoldedCommitment, v: Seq<RingElement>, k: int) -> bool {
    let q = key.prime_at(k);
    forall|t: int, s: int|
        0 <= t < 4 && 0 <= s < 162 ==> (#[trigger] fc.rows@[t].limbs@[k].v@[s]) == uniform::centre(
            decompose::decomposed(q, image_rows(q, key.a@[k]@, fold::integers(v)), t, s),
            q as int,
        )
}

/// `eq(p0) . (v mod 2)` is the folded row value.
pub open spec fn parity_matches(v: Seq<RingElement>, p0: Seq<F162>, value: F162) -> bool {
    4 * v.len() == pow2(p0.len()) && scalar::f162().dot(
        eval::parity(fold::integers(v)),
        eval::weights(linear::views(p0)),
    ) == value@
}

/// What the verifier asks of an opening in the clear.
pub open spec fn accepts_clear(
    key: CommitmentKey,
    params: Params,
    cap: u64,
    fc: FoldedCommitment,
    v: Seq<RingElement>,
    point: EvaluationPoint,
    value: F162,
) -> bool {
    &&& v.len() == key.len_f162 / 4
    &&& fc.primes@ == params.prime_list()
    &&& is_short(v, key.prime_at(0), cap)
    &&& forall|k: int| 0 <= k < key.a@.len() ==> #[trigger] image_matches(key, fc, v, k)
    &&& parity_matches(v, point.p0@, value)
}

/// What the verifier asks of a bit-dropped opening.
pub open spec fn accepts_dropped(
    key: CommitmentKey,
    params: Params,
    cap: u64,
    c: Commitment,
    challenges: Seq<ShortChallenge>,
    v: Seq<RingElement>,
    point: EvaluationPoint,
    value: F162,
) -> bool {
    &&& v.len() == key.len_f162 / 4
    &&& c.primes@ == params.prime_list()
    &&& is_short(v, key.prime_at(0), cap)
    &&& match c.value {
        CommitmentValue::Dropped(d) => {
            &&& d.dropped_bits == params.bits()
            &&& residual::matched(key, *d)
            &&& d.columns == challenges.len()
            &&& exists|n: u128|
                n <= bd::cap_of(pow2(params.column_log_len as nat), params.bits() as nat)
                    && #[trigger] residual::measures(key, *d, challenges, v, n)
        },
        _ => false,
    }
    &&& parity_matches(v, point.p0@, value)
}

impl Verifier {
    pub open spec fn wf(&self) -> bool {
        public::fits(self.params, *self.key)
    }

    pub fn new(pp: &PublicParameters, cap: &FoldCap) -> (v: Verifier)
        requires
            pp.wf(),
            cap.den > 0,
            cap.num * (pow2(pp.params.witness_log_len as nat) / 4 * 648) + cap.den <= u64::MAX,
        ensures
            v.wf(),
            v.params.same(&pp.params),
            v.matrix_seed == pp.matrix_seed,
            v.key == pp.key,
            v.fold_cap == pp.params.fold_cap_of(*cap),
    {
        let params = pp.params.copy();
        assert(params.prime_list() =~= pp.params.prime_list());
        let fold_cap: u64 = params.fold_cap(cap);
        Verifier { params, matrix_seed: pp.matrix_seed, key: public::share(&pp.key), fold_cap }
    }

    /// The script that the evaluation point is derived from.
    pub open spec fn point_script(&self, s: Script, c: Commitment) -> Script {
        script::absorb_commitment(
            script::absorb_parameters(s, self.params, self.matrix_seed@),
            c,
        )
    }

    /// Absorb the commitment, then derive the point: one uniform `F162` per variable from a single
    /// output of the transcript.
    pub fn derive_evaluation_point(&self, transcript: &mut Transcript, commitment: &Commitment) -> (p:
        EvaluationPoint)
        requires
            self.wf(),
            commitment.wf(),
            old(transcript)@.room(400),
            self.point_script(old(transcript)@, *commitment).can_derive(25),
        ensures
            final(transcript)@ == self.point_script(old(transcript)@, *commitment).next(),
            is_point(self.point_script(old(transcript)@, *commitment), self.params, p),
            p.wf(),
            p.p0@.len() == self.params.witness_log_len - self.params.column_log_len,
            p.p1@.len() == self.params.column_log_len,
    {
        proof {
            script::lemma_labels();
            self.params.lemma_distinct();
        }
        script::push_parameters(transcript, &self.params, &self.matrix_seed);
        script::push_commitment(transcript, commitment);
        let rows: usize = self.params.row_log_len() as usize;
        let n: usize = self.params.witness_log_len as usize;
        let all = transcript.sample_f162("labinius/evaluation-point".as_bytes(), n);
        let mut p0: Vec<F162> = Vec::new();
        let mut p1: Vec<F162> = Vec::new();
        let mut i: usize = 0;
        while i < n
            invariant
                i <= n == all@.len(),
                rows <= n,
                linear::all_wf(all@),
                p0@ =~= all@.subrange(0, if i < rows { i as int } else { rows as int }),
                p1@ =~= all@.subrange(rows as int, if i < rows { rows as int } else { i as int }),
            decreases n - i,
        {
            if i < rows {
                p0.push(all[i]);
            } else {
                p1.push(all[i]);
            }
            i += 1;
        }
        proof {
            assert forall|i: int| 0 <= i < p0@.len() implies (#[trigger] p0@[i]).wf() by {
                assert(p0@[i] == all@[i]);
            }
            assert forall|i: int| 0 <= i < p1@.len() implies (#[trigger] p1@[i]).wf() by {
                assert(p1@[i] == all@[rows + i]);
            }
        }
        EvaluationPoint { p0, p1 }
    }

    /// Absorb the source, then derive the challenges, weight 28 and within the caller's norm bound,
    /// one transcript derivation per challenge. `None` where a derivation runs out of candidates.
    pub fn derive_folding_challenges<S: FoldingSource, F: Fn(&ShortChallenge) -> bool>(
        &self,
        transcript: &mut Transcript,
        source: &S,
        within: &F,
    ) -> (r: Option<FoldingChallenges>)
        requires
            self.wf(),
            old(transcript)@.room(64 + source.payload().len()),
            source.absorbed(old(transcript)@).room(31),
            source.absorbed(old(transcript)@).counter + pow2(self.params.column_log_len as nat)
                < u64::MAX,
            forall|c: &ShortChallenge| c.wf() ==> within.requires((c,)),
        ensures
            match r {
                Some(c) => {
                    let s = source.absorbed(old(transcript)@);
                    &&& c.wf()
                    &&& are_challenges(
                        *within,
                        s,
                        pow2(self.params.column_log_len as nat),
                        c.challenges@,
                    )
                    &&& final(transcript)@ == advanced(s, c.challenges@.len())
                },
                None => exists|j: nat|
                    j < pow2(self.params.column_log_len as nat) && #[trigger] short::sampled(
                        *within,
                        advanced(source.absorbed(old(transcript)@), j),
                        28,
                        None,
                    ),
            },
    {
        proof {
            self.params.lemma_distinct();
        }
        let n: usize = self.params.columns();
        source.absorb(transcript);
        let ghost s = transcript@;
        let mut challenges: Vec<ShortChallenge> = Vec::new();
        let mut j: usize = 0;
        while j < n
            invariant
                j <= n,
                n == pow2(self.params.column_log_len as nat),
                s.room(31),
                s.counter + n < u64::MAX,
                s == source.absorbed(old(transcript)@),
                transcript@ == advanced(s, j as nat),
                forall|c: &ShortChallenge| c.wf() ==> within.requires((c,)),
                challenges@.len() == j,
                fold::sound(challenges@),
                forall|i: int|
                    0 <= i < j ==> drawn(*within, advanced(s, i as nat), #[trigger] challenges@[i]),
            decreases n - j,
        {
            match short::sample_short_challenge(transcript, 28, within) {
                Some((c, k)) => {
                    proof {
                        short::lemma_sampled_wf(*within, advanced(s, j as nat), 28, c, k);
                    }
                    challenges.push(c);
                    assert(drawn(*within, advanced(s, j as nat), c));
                },
                None => {
                    return None;
                },
            }
            j += 1;
        }
        Some(FoldingChallenges { challenges })
    }

    /// `u' = sum_j u_j (c_j mod 2)` over `F162`.
    pub fn fold_row_evaluation(&self, row_evaluation: &RowEvaluation, challenges: &FoldingChallenges) -> (r:
        F162)
        requires
            linear::all_wf(row_evaluation.values@),
            challenges.wf(),
        ensures
            r.wf(),
            r@ == eval::folded_row(
                linear::views(row_evaluation.values@),
                challenges.challenges@,
                if row_evaluation.values@.len() < challenges.challenges@.len() {
                    row_evaluation.values@.len()
                } else {
                    challenges.challenges@.len()
                },
            ),
    {
        eval::fold_binary(row_evaluation.values.as_slice(), challenges.challenges.as_slice())
    }

    /// The row evaluation has a value per column and is worth the claimed value at the point.
    pub open spec fn accepts_claim(
        &self,
        point: EvaluationPoint,
        claimed_value: F162,
        row_evaluation: RowEvaluation,
    ) -> bool {
        &&& row_evaluation.values@.len() == pow2(self.params.column_log_len as nat)
        &&& point.p1@.len() == self.params.column_log_len
        &&& eval::claimed(linear::views(row_evaluation.values@), linear::views(point.p1@))
            == claimed_value@
    }

    /// The claim check: `u . eq(p1) == t`.
    pub fn verify_evaluation(
        &self,
        point: &EvaluationPoint,
        claimed_value: &F162,
        row_evaluation: &RowEvaluation,
    ) -> (r: Result<(), VerificationError>)
        requires
            self.wf(),
            point.wf(),
            claimed_value.wf(),
            linear::all_wf(row_evaluation.values@),
        ensures
            r == (if self.accepts_claim(*point, *claimed_value, *row_evaluation) {
                Ok::<(), VerificationError>(())
            } else {
                Err(VerificationError::Rejected)
            }),
    {
        proof {
            self.params.lemma_distinct();
        }
        if row_evaluation.values.len() != self.params.columns() || point.p1.len()
            != self.params.column_log_len as usize {
            return Err(VerificationError::Rejected);
        }
        let t = eval::claim(row_evaluation.values.as_slice(), point.p1.as_slice());
        if eval::equal(t, *claimed_value) {
            Ok(())
        } else {
            Err(VerificationError::Rejected)
        }
    }
}

/// `fc` is `sum_j c_j C_j`, slot by slot.
pub open spec fn is_folded_commitment(
    key: CommitmentKey,
    m: crate::ring::VerticallyAlignedMatrix<PowerOfThreeRingElementWithLimbs>,
    c: Seq<ShortChallenge>,
    fc: FoldedCommitment,
) -> bool {
    &&& fc.primes@ == key.prime_list()
    &&& fc.wf()
    &&& forall|k: int, t: int, s: int|
        0 <= k < key.a@.len() && 0 <= t < 4 && 0 <= s < 162 ==> (
        #[trigger] fc.rows@[t].limbs@[k].v@[s]) == uniform::centre(
            fold::folded_slot(key.prime_at(k), c, m, k, t, s),
            key.prime_at(k) as int,
        )
}

/// The rows of the first limbs.
spec fn folded_to(
    key: CommitmentKey,
    m: crate::ring::VerticallyAlignedMatrix<PowerOfThreeRingElementWithLimbs>,
    c: Seq<ShortChallenge>,
    o: Seq<PowerOfThreeRingElement>,
    t: int,
    n: int,
) -> bool {
    &&& o.len() == n
    &&& forall|k: int, s: int|
        0 <= k < n && 0 <= s < 162 ==> (#[trigger] o[k].v@[s]) == uniform::centre(
            fold::folded_slot(key.prime_at(k), c, m, k, t, s),
            key.prime_at(k) as int,
        )
}

/// The list of primes is the expected one.
fn same_primes(a: &Vec<u16>, b: &Vec<u16>) -> (r: bool)
    ensures
        r == (a@ == b@),
{
    if a.len() != b.len() {
        return false;
    }
    let n: usize = a.len();
    let mut i: usize = 0;
    while i < n
        invariant
            i <= n == a@.len() == b@.len(),
            forall|k: int| 0 <= k < i ==> (#[trigger] a@[k]) == b@[k],
        decreases n - i,
    {
        if a[i] != b[i] {
            return false;
        }
        i += 1;
    }
    assert(a@ =~= b@);
    true
}

/// The centred components of `y` are those of the folded commitment.
fn same_rows(key: &CommitmentKey, fc: &FoldedCommitment, v: &[RingElement], k: usize) -> (r: bool)
    requires
        key.wf(),
        k < key.a@.len(),
        fc.wf(),
        fc.primes@.len() == key.a@.len(),
        v@.len() == key.len_f162 / 4,
    ensures
        r == image_matches(*key, *fc, v@, k as int),
{
    let q: u16 = key.prime(k);
    assert(key.a@[k as int]@.len() == key.len_f162 / 128);
    let y = fold::a_times_v(q, key.row(k), v);
    let d = decompose::components_of(q, &y);
    let ghost rows = image_rows(q, key.a@[k as int]@, fold::integers(v@));
    assert(poly::ints(y@) =~= rows) by {
        assert forall|r: int| 0 <= r < 648 implies poly::ints(y@)[r] == rows[r] by {
            assert(y@[r] == rows[r]);
        }
    }
    let mut t: usize = 0;
    while t < 4
        invariant
            t <= 4,
            k < fc.primes@.len(),
            fc.wf(),
            q == key.prime_at(k as int),
            rows == image_rows(q, key.a@[k as int]@, fold::integers(v@)),
            forall|t: int, s: int|
                0 <= t < 4 && 0 <= s < 162 ==> (#[trigger] d@[t].v@[s]) == uniform::centre(
                    decompose::decomposed(q, rows, t, s),
                    q as int,
                ),
            forall|i: int, s: int|
                0 <= i < t && 0 <= s < 162 ==> (#[trigger] fc.rows@[i].limbs@[k as int].v@[s])
                    == d@[i].v@[s],
        decreases 4 - t,
    {
        assert(fc.rows@[t as int].limbs@.len() == fc.primes@.len());
        let mut s: usize = 0;
        while s < 162
            invariant
                t < 4,
                s <= 162,
                k < fc.rows@[t as int].limbs@.len(),
                q == key.prime_at(k as int),
                rows == image_rows(q, key.a@[k as int]@, fold::integers(v@)),
                forall|t: int, s: int|
                    0 <= t < 4 && 0 <= s < 162 ==> (#[trigger] d@[t].v@[s]) == uniform::centre(
                        decompose::decomposed(q, rows, t, s),
                        q as int,
                    ),
                forall|i: int|
                    0 <= i < s ==> (#[trigger] fc.rows@[t as int].limbs@[k as int].v@[i])
                        == d@[t as int].v@[i],
            decreases 162 - s,
        {
            if fc.rows[t].limbs[k].v[s] != d[t].v[s] {
                assert(fc.rows@[t as int].limbs@[k as int].v@[s as int] != uniform::centre(
                    decompose::decomposed(q, rows, t as int, s as int),
                    q as int,
                ));
                return false;
            }
            s += 1;
        }
        t += 1;
    }
    assert forall|t: int, s: int| 0 <= t < 4 && 0 <= s < 162 implies (
    #[trigger] fc.rows@[t].limbs@[k as int].v@[s]) == uniform::centre(
        decompose::decomposed(q, rows, t, s),
        q as int,
    ) by {
        assert(d@[t].v@[s] == uniform::centre(decompose::decomposed(q, rows, t, s), q as int));
    }
    true
}

/// The fold is in coefficient form, centred and short.
fn check_short(v: &[RingElement], q: u16, cap: u64) -> (r: bool)
    requires
        q >= 1,
    ensures
        r == is_short(v@, q, cap),
{
    let half: i32 = ((q - 1) / 2) as i32;
    let n: usize = v.len();
    let mut total: u128 = 0;
    let mut i: usize = 0;
    while i < n
        invariant
            i <= n == v@.len(),
            half == (q - 1) / 2,
            total == prover::fold_normsq(v@, i as nat),
            total <= i * 0xFFFF_FFFF_FFFF_FFFF,
            forall|j: int|
                0 <= j < i ==> {
                    &&& (#[trigger] v@[j]).representation == Representation::Coefficients
                    &&& !norm::overflows(v@[j].v@)
                    &&& norm::peak(v@[j].v@, 648) <= (q - 1) / 2
                },
        decreases n - i,
    {
        if v[i].representation != Representation::Coefficients {
            assert(v@[i as int].representation != Representation::Coefficients);
            return false;
        }
        match norm::normsq_and_max(&v[i].v) {
            None => {
                assert(norm::overflows(v@[i as int].v@));
                return false;
            },
            Some((sq, top)) => {
                if top > half {
                    assert(norm::peak(v@[i as int].v@, 648) > (q - 1) / 2);
                    return false;
                }
                proof {
                    assert(i * 0xFFFF_FFFF_FFFF_FFFF + 0xFFFF_FFFF_FFFF_FFFF <= u128::MAX)
                        by (nonlinear_arith)
                        requires
                            i < 0xFFFF_FFFF_FFFF_FFFF,
                    ;
                }
                total = total + sq as u128;
            },
        }
        i += 1;
    }
    total <= cap as u128
}

impl Verifier {
    /// `sum_j c_j C_j` per modulus. Multiplication by a challenge, an element of the subring
    /// `R_162`, acts on the four components of a commitment alike and slot-wise.
    pub fn fold_commitment(&self, commitment: &Commitment, challenges: &FoldingChallenges) -> (fc:
        FoldedCommitment)
        requires
            self.wf(),
            commitment.wf(),
            commitment.value is Matrix,
            commitment.primes@.len() == self.key.a@.len(),
            challenges.wf(),
            challenges.challenges@.len() == commitment.columns,
        ensures
            is_folded_commitment(
                *self.key,
                commitment.value->Matrix_0,
                challenges.challenges@,
                fc,
            ),
    {
        let limbs: usize = self.key.limbs();
        let m = commitment.matrix();
        let ghost key = public::held(self.key);
        let ghost c = challenges.challenges@;
        let mut o0: Vec<PowerOfThreeRingElement> = Vec::new();
        let mut o1: Vec<PowerOfThreeRingElement> = Vec::new();
        let mut o2: Vec<PowerOfThreeRingElement> = Vec::new();
        let mut o3: Vec<PowerOfThreeRingElement> = Vec::new();
        let mut k: usize = 0;
        while k < limbs
            invariant
                k <= limbs == key.a@.len(),
                key == public::held(self.key),
                key.wf(),
                m.wf(),
                m.rows == 4,
                m.cols == c.len(),
                c == challenges.challenges@,
                challenges.wf(),
                forall|j: int|
                    0 <= j < m.data@.len() ==> (#[trigger] m.data@[j]).limbs@.len() == limbs,
                folded_to(key, *m, c, o0@, 0, k as int),
                folded_to(key, *m, c, o1@, 1, k as int),
                folded_to(key, *m, c, o2@, 2, k as int),
                folded_to(key, *m, c, o3@, 3, k as int),
            decreases limbs - k,
        {
            let q: u16 = self.key.prime(k);
            let out = fold::fold_columns_slots(q, challenges.challenges.as_slice(), m, k);
            proof {
                assert forall|t: int, s: int| 0 <= t < 4 && 0 <= s < 162 implies (
                #[trigger] out@[t]@[s]) == uniform::centre(
                    fold::folded_slot(key.prime_at(k as int), c, *m, k as int, t, s),
                    key.prime_at(k as int) as int,
                ) by {}
            }
            o0.push(PowerOfThreeRingElement { v: out[0] });
            o1.push(PowerOfThreeRingElement { v: out[1] });
            o2.push(PowerOfThreeRingElement { v: out[2] });
            o3.push(PowerOfThreeRingElement { v: out[3] });
            k += 1;
        }
        let fc = FoldedCommitment {
            primes: self.params.primes(),
            rows: [
                PowerOfThreeRingElementWithLimbs { limbs: o0 },
                PowerOfThreeRingElementWithLimbs { limbs: o1 },
                PowerOfThreeRingElementWithLimbs { limbs: o2 },
                PowerOfThreeRingElementWithLimbs { limbs: o3 },
            ],
        };
        proof {
            assert(fc.rows@[0].limbs == o0 && fc.rows@[1].limbs == o1 && fc.rows@[2].limbs == o2
                && fc.rows@[3].limbs == o3);
            assert forall|t: int| 0 <= t < 4 implies (#[trigger] fc.rows@[t]).limbs@.len()
                == fc.primes@.len() by {
                if t == 0 {
                } else if t == 1 {
                } else if t == 2 {
                } else {
                    assert(t == 3);
                }
            }
            assert forall|k: int, t: int, s: int|
                0 <= k < key.a@.len() && 0 <= t < 4 && 0 <= s < 162 implies (
            #[trigger] fc.rows@[t].limbs@[k].v@[s]) == uniform::centre(
                fold::folded_slot(key.prime_at(k), c, *m, k, t, s),
                key.prime_at(k) as int,
            ) by {
                if t == 0 {
                    assert(o0@[k].v@[s] == fc.rows@[t].limbs@[k].v@[s]);
                } else if t == 1 {
                    assert(o1@[k].v@[s] == fc.rows@[t].limbs@[k].v@[s]);
                } else if t == 2 {
                    assert(o2@[k].v@[s] == fc.rows@[t].limbs@[k].v@[s]);
                } else {
                    assert(t == 3);
                    assert(o3@[k].v@[s] == fc.rows@[t].limbs@[k].v@[s]);
                }
            }
        }
        fc
    }

    /// The opening check, recomputed from `v` alone: `v` is centred modulo the base modulus and
    /// short, `A v` equals the folded commitment on every modulus, and `eq(p0) . (v mod 2) == u'`.
    fn verify_folded_opening(
        &self,
        folded_commitment: &FoldedCommitment,
        folded_witness: &FoldedWitness,
        point: &EvaluationPoint,
        folded_row_value: &F162,
    ) -> (r: Result<(), VerificationError>)
        requires
            self.wf(),
            folded_commitment.wf(),
            point.wf(),
            folded_row_value.wf(),
        ensures
            r == (if accepts_clear(
                *self.key,
                self.params,
                self.fold_cap,
                *folded_commitment,
                folded_witness.elements@,
                *point,
                *folded_row_value,
            ) {
                Ok::<(), VerificationError>(())
            } else {
                Err(VerificationError::Rejected)
            }),
    {
        let v = folded_witness.elements.as_slice();
        let primes = self.params.primes();
        let ghost key = public::held(self.key);
        if v.len() != self.key.len_ring() || !same_primes(&folded_commitment.primes, &primes) {
            return Err(VerificationError::Rejected);
        }
        let q: u16 = self.key.prime(0);
        if !check_short(v, q, self.fold_cap) {
            return Err(VerificationError::Rejected);
        }
        let limbs: usize = self.key.limbs();
        let mut k: usize = 0;
        while k < limbs
            invariant
                k <= limbs == key.a@.len(),
                key == public::held(self.key),
                key.wf(),
                folded_commitment.wf(),
                folded_commitment.primes@.len() == limbs,
                v@ == folded_witness.elements@,
                v@.len() == key.len_f162 / 4,
                forall|i: int|
                    0 <= i < k ==> #[trigger] image_matches(key, *folded_commitment, v@, i),
            decreases limbs - k,
        {
            if !same_rows(&self.key, folded_commitment, v, k) {
                assert(!image_matches(key, *folded_commitment, v@, k as int));
                return Err(VerificationError::Rejected);
            }
            k += 1;
        }
        if eval::binary_check(point.p0.as_slice(), v, *folded_row_value) {
            Ok(())
        } else {
            Err(VerificationError::Rejected)
        }
    }

    /// The opening check against bit-dropped digits.
    fn verify_folded_opening_bd(
        &self,
        commitment: &Commitment,
        challenges: &FoldingChallenges,
        folded_witness: &FoldedWitness,
        point: &EvaluationPoint,
        folded_row_value: &F162,
    ) -> (r: Result<(), VerificationError>)
        requires
            self.wf(),
            self.params.bits() <= 26,
            bd::cap_of(pow2(self.params.column_log_len as nat), self.params.bits() as nat)
                < 0x20_0000_0000_0000,
            commitment.wf(),
            challenges.wf(),
            point.wf(),
            folded_row_value.wf(),
        ensures
            r == (if accepts_dropped(
                *self.key,
                self.params,
                self.fold_cap,
                *commitment,
                challenges.challenges@,
                folded_witness.elements@,
                *point,
                *folded_row_value,
            ) {
                Ok::<(), VerificationError>(())
            } else {
                Err(VerificationError::Rejected)
            }),
    {
        let v = folded_witness.elements.as_slice();
        let primes = self.params.primes();
        let ghost key = public::held(self.key);
        proof {
            self.params.lemma_distinct();
        }
        if v.len() != self.key.len_ring() || !same_primes(&commitment.primes, &primes) {
            return Err(VerificationError::Rejected);
        }
        let dropped = match &commitment.value {
            CommitmentValue::Dropped(d) => d,
            _ => {
                return Err(VerificationError::Rejected);
            },
        };
        if dropped.dropped_bits() != self.params.dropped_bits() {
            return Err(VerificationError::Rejected);
        }
        let q: u16 = self.key.prime(0);
        if !check_short(v, q, self.fold_cap) {
            return Err(VerificationError::Rejected);
        }
        let cap: u64 = self.params.bd_cap();
        match residual::residual(&self.key, dropped, challenges.challenges.as_slice(), v) {
            None => {
                return Err(VerificationError::Rejected);
            },
            Some(n) => {
                if n > cap as u128 {
                    proof {
                        lemma_one_residual(key, crate::wire::commitment::held(*dropped), challenges.challenges@, v@, n);
                    }
                    return Err(VerificationError::Rejected);
                }
            },
        }
        if eval::binary_check(point.p0.as_slice(), v, *folded_row_value) {
            Ok(())
        } else {
            Err(VerificationError::Rejected)
        }
    }

    /// The message has the mode the parameters name and its check passes.
    pub open spec fn accepts(
        &self,
        commitment: Commitment,
        challenges: FoldingChallenges,
        point: EvaluationPoint,
        message: OpeningMessage,
    ) -> bool {
        match (self.params.opening, message) {
            (
                Opening::Clear,
                OpeningMessage::Clear { folded_commitment, folded_witness, folded_row_value },
            ) => accepts_clear(
                *self.key,
                self.params,
                self.fold_cap,
                *folded_commitment,
                folded_witness.elements@,
                point,
                *folded_row_value,
            ),
            (
                Opening::BitDropped { bits },
                OpeningMessage::BitDropped { folded_witness, folded_row_value },
            ) => accepts_dropped(
                *self.key,
                self.params,
                self.fold_cap,
                commitment,
                challenges.challenges@,
                folded_witness.elements@,
                point,
                *folded_row_value,
            ),
            _ => false,
        }
    }

    /// The values of a message are well formed.
    pub open spec fn readable(message: OpeningMessage) -> bool {
        match message {
            OpeningMessage::Clear { folded_commitment, folded_witness, folded_row_value } => {
                folded_commitment.wf() && folded_row_value.wf()
            },
            OpeningMessage::BitDropped { folded_witness, folded_row_value } => {
                folded_row_value.wf()
            },
        }
    }

    /// The opening check in the mode the parameters name, dispatching to the arm the message
    /// carries.
    pub fn verify_opening(
        &self,
        commitment: &Commitment,
        challenges: &FoldingChallenges,
        point: &EvaluationPoint,
        message: OpeningMessage<'_>,
    ) -> (r: Result<(), VerificationError>)
        requires
            self.wf(),
            self.params.bits() <= 26,
            bd::cap_of(pow2(self.params.column_log_len as nat), self.params.bits() as nat)
                < 0x20_0000_0000_0000,
            commitment.wf(),
            challenges.wf(),
            point.wf(),
            Verifier::readable(message),
        ensures
            r == (if self.accepts(*commitment, *challenges, *point, message) {
                Ok::<(), VerificationError>(())
            } else {
                Err(VerificationError::Rejected)
            }),
    {
        match (self.params.opening, message) {
            (
                Opening::Clear,
                OpeningMessage::Clear { folded_commitment, folded_witness, folded_row_value },
            ) => self.verify_folded_opening(
                folded_commitment,
                folded_witness,
                point,
                folded_row_value,
            ),
            (
                Opening::BitDropped { .. },
                OpeningMessage::BitDropped { folded_witness, folded_row_value },
            ) => self.verify_folded_opening_bd(
                commitment,
                challenges,
                folded_witness,
                point,
                folded_row_value,
            ),
            _ => Err(VerificationError::Rejected),
        }
    }
}

/// An error measures one number.
proof fn lemma_one_residual(
    key: CommitmentKey,
    d: crate::bd::Dropped,
    c: Seq<ShortChallenge>,
    v: Seq<RingElement>,
    n: u128,
)
    requires
        key.wf(),
        residual::measures(key, d, c, v, n),
    ensures
        forall|m: u128| #[trigger] residual::measures(key, d, c, v, m) ==> m == n,
{
    let e = choose|e: Seq<int>| #[trigger] residual::is_residual(key, d, c, v, e, n);
    assert forall|m: u128| #[trigger] residual::measures(key, d, c, v, m) implies m == n by {
        let f = choose|f: Seq<int>| #[trigger] residual::is_residual(key, d, c, v, f, m);
        residual::residual_unique(key, d, c, v, e, n, f, m);
    }
}

} // verus!
