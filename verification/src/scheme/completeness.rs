//! A whole round between an honest prover and a verifier: what the one commits to and folds, the other
//! accepts.
use super::commitment::{Commitment, EvaluationPoint};
use super::dropped_laws;
use super::laws;
use super::messages::{FoldingChallenges, OpeningMessage};
use super::params::Params;
use super::prover;
use super::public;
use super::soundness;
use super::verify;
use super::verify::Verifier;
use super::witness::Witness;
use crate::bd;
use crate::bd::digits;
use crate::bd::residual;
use crate::eval;
use crate::fields::linear;
use crate::fold;
use crate::key::AuxData;
use crate::wire::commitment::held;
use vstd::arithmetic::power2::*;
use vstd::prelude::*;

verus! {

/// What an honest prover of a round has done: it has committed to the witness, folded its columns with the
/// challenges without leaving the centred range of the base prime, and claims the folded row value of the
/// honest row evaluation.
pub open spec fn is_honest(
    u: Verifier,
    w: &Witness,
    aux: AuxData,
    commitment: Commitment,
    challenges: FoldingChallenges,
    point: EvaluationPoint,
    message: OpeningMessage,
) -> bool {
    let (c, v) = (challenges.challenges@, soundness::fold_of(message));
    &&& w.wf()
    &&& w.params.same(&u.params)
    &&& w.fits(&point)
    &&& prover::opens(*u.key, w, aux)
    &&& prover::is_value(*u.key, u.params, aux, commitment.value)
    &&& commitment.wf()
    &&& commitment.primes@ == u.params.prime_list()
    &&& challenges.wf()
    &&& c.len() == pow2(u.params.column_log_len as nat)
    &&& v.len() == u.key.len_f162 / 4
    &&& fold::is_folded(u.key.prime_at(0), c, prover::columns_of(w), v)
    &&& laws::no_wrap(u.key.prime_at(0), c, prover::columns_of(w), v.len())
    &&& soundness::row_value_of(message) == eval::folded_row(
        eval::rows(linear::views(w.elements@), linear::views(point.p0@)),
        c,
        c.len(),
    )
}

proof fn lemma_same_primes(p: Params, o: Params)
    requires
        p.same(&o),
    ensures
        p.prime_list() == o.prime_list(),
        p.bits() == o.bits(),
{
    assert(p.prime_list() =~= o.prime_list());
}

/// A round in the clear is complete: the verifier folds the commitment itself, and accepts every honest
/// fold that is short.
pub proof fn clear_round_complete(
    u: Verifier,
    w: &Witness,
    aux: AuxData,
    commitment: Commitment,
    challenges: FoldingChallenges,
    point: EvaluationPoint,
    message: OpeningMessage,
)
    requires
        u.wf(),
        u.params.opening is Clear,
        is_honest(u, w, aux, commitment, challenges, point, message),
        verify::is_short(soundness::fold_of(message), u.key.prime_at(0), u.fold_cap),
        message matches OpeningMessage::Clear { folded_commitment, .. }
            && verify::is_folded_commitment(
            *u.key,
            commitment.value->Matrix_0,
            challenges.challenges@,
            *folded_commitment,
        ),
    ensures
        commitment.value is Matrix,
        u.accepts(commitment, challenges, point, message),
{
    lemma_same_primes(w.params, u.params);
    if let OpeningMessage::Clear { folded_commitment, folded_witness, folded_row_value } = message {
        laws::honest_opening(
            public::held(u.key),
            w,
            aux,
            commitment.value->Matrix_0,
            challenges.challenges@,
            *folded_commitment,
            folded_witness.elements@,
            point,
            *folded_row_value,
            u.fold_cap,
        );
    }
}

/// A bit-dropped round is complete: the verifier accepts every honest fold that is short, as long as the
/// fold of the rounding errors is within its cap.
pub proof fn dropped_round_complete(
    u: Verifier,
    w: &Witness,
    aux: AuxData,
    commitment: Commitment,
    co: Seq<Seq<[u32; 648]>>,
    challenges: FoldingChallenges,
    point: EvaluationPoint,
    message: OpeningMessage,
)
    requires
        u.wf(),
        u.params.opening is BitDropped,
        u.params.bits() > 0,
        is_honest(u, w, aux, commitment, challenges, point, message),
        verify::is_short(soundness::fold_of(message), u.key.prime_at(0), u.fold_cap),
        message is BitDropped,
        co.len() == aux.chunks,
        forall|j: int|
            0 <= j < co.len() ==> digits::are_coefficients(
                u.key.prime_list(),
                aux.raw@,
                j,
                #[trigger] co[j],
            ),
        commitment.value is Dropped ==> forall|f: Seq<Seq<Seq<int>>>| #[trigger]
            dropped_laws::is_rounding(held(commitment.value->Dropped_0), co, f)
                ==> dropped_laws::is_mild(u.params, challenges.challenges@, f),
        bd::cap_of(pow2(u.params.column_log_len as nat), u.params.bits() as nat) <= u64::MAX,
    ensures
        commitment.value is Dropped,
        u.accepts(commitment, challenges, point, message),
{
    lemma_same_primes(w.params, u.params);
    let d = held(commitment.value->Dropped_0);
    let c = challenges.challenges@;
    assert forall|j: int| 0 <= j < co.len() implies digits::are_coefficients(
        u.key.prime_list(),
        aux.raw@,
        j,
        #[trigger] co[j],
    ) && digits::is_dropped(d, co[j], j) by {}
    assert forall|f: Seq<Seq<Seq<int>>>| #[trigger]
        dropped_laws::is_rounding(d, co, f) implies dropped_laws::is_mild(w.params, c, f) by {
        assert(dropped_laws::is_mild(u.params, c, f));
    }
    if let OpeningMessage::BitDropped { folded_witness, folded_row_value } = message {
        let v = folded_witness.elements@;
        dropped_laws::honest_dropped_opening(
            public::held(u.key),
            w,
            aux,
            commitment,
            co,
            c,
            v,
            point,
            *folded_row_value,
            u.fold_cap,
        );
        let n = choose|n: u128|
            n <= bd::cap_of(pow2(w.params.column_log_len as nat), w.params.bits() as nat)
                && #[trigger] residual::measures(*u.key, d, c, v, n);
        assert(residual::measures(*u.key, d, c, v, n));
    }
}

} // verus!
