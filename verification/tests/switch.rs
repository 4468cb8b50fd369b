use labinius::challenge::Transcript;
use labinius::fields::scalar::{B128, F162};
use labinius::scheme::params::suites;
use labinius::scheme::{
    FoldCap, Opening, OpeningMessage, Params, Prover, PublicParameters, Verifier, Witness,
};
use labinius::switch::{
    bit_mle, mle, prove, prove_bits, verify, verify_bits, SwitchError, LOG_WORD,
};

fn setup() -> (Params, Vec<B128>, Transcript) {
    let all = suites();
    let suite = all.iter().find(|s| s.name == "sizes").unwrap();
    let params = Params::sized(suite, Opening::Clear);
    let mut rng = Transcript::new(b"switch/test");
    let trace = rng.sample_b128(b"trace", params.witness_len());
    (params, trace, rng)
}

#[test]
fn words_round_trip_and_rejection() {
    let (params, trace, mut rng) = setup();
    let r = rng.sample_b128(b"r", params.witness_log_len as usize);
    let claim = mle(&trace, &r);

    let (proof, point) = prove(&params, &trace, &r, claim, &mut Transcript::new(b"t"));
    let (point2, value) = verify(&params, &r, claim, &proof, &mut Transcript::new(b"t")).unwrap();
    assert_eq!(point, point2);
    assert_eq!(value, proof.opened);
    let lifted = Witness::lifted(&params, &trace).unwrap();
    assert_eq!(value, lifted.mle_evaluate(&point));

    let wrong = claim + B128::one();
    assert!(verify(&params, &r, wrong, &proof, &mut Transcript::new(b"t")).is_err());
    let mut tampered = proof.clone();
    tampered.opened = tampered.opened + F162::one();
    assert!(verify(&params, &r, claim, &tampered, &mut Transcript::new(b"t")).is_err());
}

#[test]
fn bits_round_trip_and_rejection() {
    let (params, trace, mut rng) = setup();
    let r_lo = rng.sample_b128(b"r_lo", LOG_WORD);
    let r_hi = rng.sample_b128(b"r_hi", params.witness_log_len as usize);
    let claim = bit_mle(&trace, &r_lo, &r_hi);

    let (proof, point) = prove_bits(
        &params,
        &trace,
        &r_lo,
        &r_hi,
        claim,
        &mut Transcript::new(b"t"),
    );
    let (point2, value) = verify_bits(
        &params,
        &r_lo,
        &r_hi,
        claim,
        &proof,
        &mut Transcript::new(b"t"),
    )
    .unwrap();
    assert_eq!(point, point2);
    let lifted = Witness::lifted(&params, &trace).unwrap();
    assert_eq!(value, lifted.mle_evaluate(&point));

    let wrong = claim + B128::one();
    assert!(verify_bits(
        &params,
        &r_lo,
        &r_hi,
        wrong,
        &proof,
        &mut Transcript::new(b"t")
    )
    .is_err());
}

#[test]
fn each_refusal_of_the_switch() {
    let params = Params::new(8, 1, vec![], Opening::Clear).unwrap();
    let mut rng = Transcript::new(b"refusals");
    let trace = rng.sample_b128(b"trace", params.witness_len());
    let r = rng.sample_b128(b"r", 8);
    let claim = mle(&trace, &r);
    let (proof, _) = prove(&params, &trace, &r, claim, &mut Transcript::new(b"t"));
    let message = |r: &[B128], claim: B128, p: &labinius::switch::SwitchProof| {
        verify(&params, r, claim, p, &mut Transcript::new(b"t")).unwrap_err().0
    };
    assert_eq!(message(&r[1..], claim, &proof), "the point does not match the parameters");
    let mut short = proof.clone();
    short.partials.pop();
    assert_eq!(message(&r, claim, &short), "the proof does not match the parameters");
    assert_eq!(
        message(&r, claim + B128::one(), &proof),
        "the partial evaluations do not sum to the claim"
    );
    let mut tampered = proof.clone();
    tampered.opened = tampered.opened + F162::one();
    assert_eq!(message(&r, claim, &tampered), "sumcheck final check failed");
    let e = verify_bits(&params, &[], &r, claim, &proof, &mut Transcript::new(b"t")).unwrap_err();
    assert_eq!(e.0, "the point does not pick a bit");
}

#[test]
fn a_trace_of_words_is_committed_and_opened() {
    let params = Params::new(8, 1, vec![], Opening::Clear).unwrap();
    let pp = PublicParameters::from_seed(params.clone(), [0x5A; 32]);
    let mut rng = Transcript::new(b"example");
    let trace = rng.sample_b128(b"trace", params.witness_len());
    let r = rng.sample_b128(b"r", 8);
    let claim = mle(&trace, &r);
    let verifier = Verifier::new(&pp, &FoldCap { num: 100_000, den: 1 });

    // the prover
    let mut prover = Prover::new(&pp);
    let witness = Witness::lifted(&params, &trace).unwrap();
    let (commitment, opening) = prover.commit(&witness);
    let mut t = Transcript::new(b"example/ghash");
    t.absorb_bytes(&commitment.to_bytes());
    let (proof, point) = prove(&params, &trace, &r, claim, &mut t);
    let row = witness.row_evaluate(&point);
    let challenges = verifier.derive_folding_challenges(&mut t, &row, &|_| true).unwrap();
    let folded = prover.fold(opening, &challenges);

    // the verifier, on a transcript of its own
    let mut t = Transcript::new(b"example/ghash");
    t.absorb_bytes(&commitment.to_bytes());
    let (point, value) = verify(&params, &r, claim, &proof, &mut t).unwrap();
    let challenges = verifier.derive_folding_challenges(&mut t, &row, &|_| true).unwrap();
    assert_eq!(verifier.verify_evaluation(&point, &value, &row), Ok(()));
    let folded_commitment = verifier.fold_commitment(&commitment, &challenges);
    let folded_row_value = verifier.fold_row_evaluation(&row, &challenges);
    let accepted = verifier.verify_opening(
        &commitment,
        &challenges,
        &point,
        OpeningMessage::Clear {
            folded_commitment: &folded_commitment,
            folded_witness: &folded,
            folded_row_value: &folded_row_value,
        },
    );
    assert_eq!(accepted, Ok(()));
}

#[test]
fn the_point_of_the_switch_is_split_at_the_columns() {
    let (params, trace, mut rng) = setup();
    let r = rng.sample_b128(b"r", params.witness_log_len as usize);
    let claim = mle(&trace, &r);
    let (proof, point) = prove(&params, &trace, &r, claim, &mut Transcript::new(b"t"));
    let columns = params.column_log_len as usize;
    assert_eq!(point.p1().len(), columns);
    assert_eq!(point.p0().len(), r.len() - columns);
    // every other opened value is refused
    for delta in [1u64, 2, 0x8000_0000_0000_0000] {
        let mut other = proof.clone();
        other.opened = other.opened + F162([delta, 0, 0]);
        assert_eq!(
            verify(&params, &r, claim, &other, &mut Transcript::new(b"t")),
            Err(SwitchError("sumcheck final check failed"))
        );
    }
}
