use labinius::challenge::short::ShortChallenge;
use labinius::challenge::Transcript;
use labinius::fields::scalar::F162;
use labinius::key::CommitmentKey;
use labinius::recursion::limbs;
use labinius::ring::{Modulus, Representation};
use labinius::scheme::params::{size_l, size_m, size_s, size_xl, suites};
use labinius::scheme::prover::normsq_of;
use labinius::scheme::{
    Commitment, CommitmentOpening, EvaluationPoint, FoldCap, FoldingChallenges, Opening,
    OpeningError, OpeningMessage, ParamError, Params, Prover, PublicParameters, RowEvaluation,
    Suite, VerificationError, Verifier, Witness, WitnessError,
};
use labinius::wire::rans;

const CAP: FoldCap = FoldCap { num: 100_000, den: 1 };

struct Round {
    pp: PublicParameters,
    prover: Prover,
    verifier: Verifier,
    witness: Witness,
    commitment: Commitment,
    opening: CommitmentOpening,
    point: EvaluationPoint,
    claim: F162,
    row: RowEvaluation,
    challenges: FoldingChallenges,
}

fn any(_: &ShortChallenge) -> bool {
    true
}

fn round(opening_mode: Opening, extra: Vec<Modulus>) -> Round {
    let params = Params::new(8, 1, extra, opening_mode).unwrap();
    let pp = PublicParameters::from_seed(params, [7u8; 32]);
    let mut prover = Prover::new(&pp);
    let verifier = Verifier::new(&pp, &CAP);
    let witness = Witness::random(pp.params(), [3u8; 32]);
    let (commitment, opening) = prover.commit(&witness);
    let mut t = Transcript::new(b"scheme/test");
    let point = verifier.derive_evaluation_point(&mut t, &commitment);
    let claim = witness.mle_evaluate(&point);
    let row = witness.row_evaluate(&point);
    let challenges = verifier
        .derive_folding_challenges(&mut t, &row, &any)
        .unwrap();
    Round {
        pp,
        prover,
        verifier,
        witness,
        commitment,
        opening,
        point,
        claim,
        row,
        challenges,
    }
}

#[test]
fn a_clear_round_is_accepted_and_tampering_is_not() {
    let mut r = round(Opening::Clear, vec![Modulus::Q9721_FS_S]);
    assert_eq!(
        r.verifier.verify_evaluation(&r.point, &r.claim, &r.row),
        Ok(())
    );
    assert_eq!(
        r.verifier
            .verify_evaluation(&r.point, &(r.claim + F162::one()), &r.row),
        Err(VerificationError::Rejected)
    );
    let value = r.verifier.fold_row_evaluation(&r.row, &r.challenges);
    let folded_commitment = r.verifier.fold_commitment(&r.commitment, &r.challenges);
    let mut folded = r.prover.fold(r.opening, &r.challenges);
    assert_eq!(folded.len(), 32);
    let good = r.verifier.verify_opening(
        &r.commitment,
        &r.challenges,
        &r.point,
        OpeningMessage::Clear {
            folded_commitment: &folded_commitment,
            folded_witness: &folded,
            folded_row_value: &value,
        },
    );
    assert_eq!(good, Ok(()));
    let wrong_value = r.verifier.verify_opening(
        &r.commitment,
        &r.challenges,
        &r.point,
        OpeningMessage::Clear {
            folded_commitment: &folded_commitment,
            folded_witness: &folded,
            folded_row_value: &(value + F162::one()),
        },
    );
    assert_eq!(wrong_value, Err(VerificationError::Rejected));
    let wrong_mode = r.verifier.verify_opening(
        &r.commitment,
        &r.challenges,
        &r.point,
        OpeningMessage::BitDropped {
            folded_witness: &folded,
            folded_row_value: &value,
        },
    );
    assert_eq!(wrong_mode, Err(VerificationError::Rejected));
    folded.elements_mut()[0].v[5] += 2;
    let wrong_fold = r.verifier.verify_opening(
        &r.commitment,
        &r.challenges,
        &r.point,
        OpeningMessage::Clear {
            folded_commitment: &folded_commitment,
            folded_witness: &folded,
            folded_row_value: &value,
        },
    );
    assert_eq!(wrong_fold, Err(VerificationError::Rejected));
}

#[test]
fn a_clear_round_with_a_quadratic_slot_limb() {
    let mut r = round(
        Opening::Clear,
        vec![Modulus::Q4861_Q_S, Modulus::Q17497_FS_L],
    );
    let value = r.verifier.fold_row_evaluation(&r.row, &r.challenges);
    let folded_commitment = r.verifier.fold_commitment(&r.commitment, &r.challenges);
    let folded = r.prover.fold(r.opening, &r.challenges);
    let good = r.verifier.verify_opening(
        &r.commitment,
        &r.challenges,
        &r.point,
        OpeningMessage::Clear {
            folded_commitment: &folded_commitment,
            folded_witness: &folded,
            folded_row_value: &value,
        },
    );
    assert_eq!(good, Ok(()));
}

#[test]
fn a_bit_dropped_round_is_accepted_and_tampering_is_not() {
    let mut r = round(
        Opening::BitDropped { bits: 4 },
        vec![Modulus::Q9721_FS_S, Modulus::Q17497_FS_L],
    );
    let value = r.verifier.fold_row_evaluation(&r.row, &r.challenges);
    let mut folded = r.prover.fold(r.opening, &r.challenges);
    let good = r.verifier.verify_opening(
        &r.commitment,
        &r.challenges,
        &r.point,
        OpeningMessage::BitDropped {
            folded_witness: &folded,
            folded_row_value: &value,
        },
    );
    assert_eq!(good, Ok(()));
    folded.elements_mut()[3].v[100] += 2;
    let bad = r.verifier.verify_opening(
        &r.commitment,
        &r.challenges,
        &r.point,
        OpeningMessage::BitDropped {
            folded_witness: &folded,
            folded_row_value: &value,
        },
    );
    assert_eq!(bad, Err(VerificationError::Rejected));
}

#[test]
fn a_fold_over_its_cap_is_refused_with_its_norm() {
    let r = round(Opening::Clear, vec![]);
    let mut prover = Prover::new(&r.pp);
    let (_, opening) = prover.commit(&r.witness);
    let folded = prover.fold(opening, &r.challenges);
    let normsq = normsq_of(folded.elements()) as u64;
    assert!(normsq > 0);
    let (_, opening) = prover.commit(&r.witness);
    let within = prover.fold_within(opening, &r.challenges, normsq).unwrap();
    assert_eq!(within, folded);
    let (_, opening) = prover.commit(&r.witness);
    assert_eq!(
        prover.fold_within(opening, &r.challenges, normsq - 1),
        Err(OpeningError::FoldTooLong { normsq, cap: normsq - 1 })
    );
}

#[test]
fn commitments_survive_the_wire() {
    for mode in [Opening::Clear, Opening::BitDropped { bits: 3 }] {
        let r = round(mode, vec![Modulus::Q9721_FS_S]);
        let bytes = r.commitment.to_bytes();
        let back = Commitment::from_bytes(r.pp.params(), &bytes).unwrap();
        assert_eq!(back, r.commitment);
        assert_eq!(back.to_bytes(), bytes);
        assert_eq!(
            Commitment::from_bytes(r.pp.params(), &bytes[..bytes.len() - 1]),
            Err(VerificationError::Rejected)
        );
        let mut longer = bytes.clone();
        longer.push(0);
        assert!(Commitment::from_bytes(r.pp.params(), &longer).is_err());
    }
}

#[test]
fn folded_witnesses_survive_the_wire() {
    let mut r = round(Opening::Clear, vec![]);
    let folded = r.prover.fold(r.opening, &r.challenges);
    let bytes = rans::encode(&folded, 3889);
    assert_eq!(rans::decode(&bytes).unwrap(), folded);
    assert!(rans::decode(&bytes[..bytes.len() / 2]).is_err());
}

#[test]
fn commitments_and_points_are_functions_of_their_seeds() {
    let a = round(Opening::Clear, vec![]);
    let b = round(Opening::Clear, vec![]);
    assert_eq!(a.commitment, b.commitment);
    assert_eq!(a.point, b.point);
    let other = Witness::random(a.pp.params(), [4u8; 32]);
    assert!(other != a.witness);
    let mut prover = Prover::new(&a.pp);
    let (c, _) = prover.commit(&other);
    assert!(c != a.commitment);
    let mut t = Transcript::new(b"scheme/test");
    let p = a.verifier.derive_evaluation_point(&mut t, &c);
    assert!(p != a.point);
}

#[test]
fn the_claim_is_the_row_evaluation_at_the_column_variables() {
    let r = round(Opening::Clear, vec![]);
    assert_eq!(labinius::eval::claim(r.row.values(), r.point.p1()), r.claim);
    assert_eq!(r.row.values().len(), 2);
    assert_eq!(r.point.p0().len(), 7);
    assert_eq!(r.point.p1().len(), 1);
}

#[test]
fn at_a_corner_the_claim_is_an_entry_of_the_witness() {
    let params = Params::new(8, 1, vec![], Opening::Clear).unwrap();
    let witness = Witness::random(&params, [9u8; 32]);
    let bits = |n: usize, j: usize| -> Vec<F162> {
        (0..n)
            .map(|k| if j >> k & 1 == 1 { F162::one() } else { F162::zero() })
            .collect()
    };
    for (i, j) in [(0usize, 0usize), (5, 1), (127, 0), (127, 1)] {
        let point = EvaluationPoint::of(bits(7, i), bits(1, j));
        assert_eq!(witness.mle_evaluate(&point), witness.elements()[i + 128 * j]);
        let row = witness.row_evaluate(&point);
        for c in 0..2 {
            assert_eq!(row.values()[c], witness.elements()[i + 128 * c]);
        }
    }
}

#[test]
fn each_refusal_of_the_parameters() {
    let m = Modulus::Q9721_FS_S;
    assert_eq!(
        Params::new(8, 9, vec![], Opening::Clear),
        Err(ParamError::ColumnsExceedWitness)
    );
    assert_eq!(
        Params::new(8, 0, vec![], Opening::Clear),
        Err(ParamError::TooFewColumns)
    );
    assert_eq!(
        Params::new(8, 2, vec![], Opening::Clear),
        Err(ParamError::ColumnTooShort)
    );
    assert_eq!(
        Params::new(8, 1, vec![m, m], Opening::Clear),
        Err(ParamError::DuplicateModulus(m))
    );
    assert_eq!(
        Params::with_base(8, 1, m, vec![m], Opening::Clear),
        Err(ParamError::BaseIsAlsoExtra(m))
    );
    let p = Params::with_base(8, 1, m, vec![], Opening::Clear).unwrap();
    assert_eq!(p.primes(), vec![9721]);
    assert_eq!(p.witness_len(), 256);
    assert_eq!(p.columns(), 2);
    assert_eq!(p.column_len(), 128);
    assert_eq!(p.row_log_len(), 7);
    assert!(!p.recursion());
    assert_eq!(p.dropped_bits(), 0);
    assert_eq!(p.dropping(5).dropped_bits(), 5);
}

#[test]
fn suites_by_name_and_flag() {
    let all = suites();
    assert_eq!(all.len(), 4);
    for (i, s) in all.iter().enumerate() {
        assert_eq!(s.index(), i);
    }
    assert_eq!(all[0], size_s());
    assert_eq!(Suite::from_flag("s"), Some(size_s()));
    assert_eq!(Suite::from_flag("m"), Some(size_m()));
    assert_eq!(Suite::from_flag("l"), Some(size_l()));
    assert_eq!(Suite::from_flag("xl"), Some(size_xl()));
    assert_eq!(Suite::from_flag("xs"), None);
}

#[test]
fn a_witness_of_the_wrong_length_is_refused() {
    let params = Params::new(8, 1, vec![], Opening::Clear).unwrap();
    let short = vec![F162::zero(); 255];
    assert_eq!(
        Witness::from_elements(&params, short),
        Err(WitnessError::WrongLength)
    );
    let exact = vec![F162::one(); 256];
    assert_eq!(
        Witness::from_elements(&params, exact).unwrap().elements().len(),
        256
    );
}

#[test]
fn the_recursive_mode_commits_to_the_residues_of_the_matrix() {
    let params = Params::new(8, 1, vec![Modulus::Q4861_Q_S], Opening::Recursive).unwrap();
    let pp = PublicParameters::from_seed(params, [7u8; 32]);
    let witness = Witness::random(pp.params(), [3u8; 32]);
    let mut prover = Prover::new(&pp);
    let mut opening = prover.commit_residues(&witness, 4);
    let residues = opening.residues().unwrap().clone();
    let (matrix, other) = Prover::new(&pp).commit_matrix(&witness);
    assert!(other.residues().is_none());
    let again = limbs::residues(&matrix, &pp.params().primes(), 4);
    assert_eq!(residues.vectors, again.vectors);
    // two limbs of four components, three chunks of two columns padded to eight polynomials
    assert_eq!(residues.vectors.len(), 8);
    for v in &residues.vectors {
        assert_eq!(v.len(), 8);
        assert!(v[..6].iter().any(|p| p.iter().any(|&c| c != 0)));
        assert!(v[6..].iter().all(|p| p.iter().all(|&c| c == 0)));
    }
    for v in &residues.vectors[..4] {
        assert!(v.iter().all(|p| p.iter().all(|&c| -1944 <= c && c <= 1944)));
    }
    let zero = Witness::from_elements(pp.params(), vec![F162::zero(); 256]).unwrap();
    opening.residues_mut().unwrap().vectors[0][0][0] += 1;
    assert_eq!(
        opening.residues().unwrap().vectors[0][0][0],
        residues.vectors[0][0][0] + 1
    );
    let residues = prover.commit_residues(&zero, 4).residues.unwrap();
    assert!(residues.vectors.iter().flatten().flatten().all(|&c| c == 0));
}

#[test]
fn unknown_tags_are_refused() {
    for mode in [Opening::Clear, Opening::BitDropped { bits: 3 }, Opening::Recursive] {
        let params = Params::new(8, 1, vec![], mode).unwrap();
        for tag in [3u8, 4, 0x80, 0xFF] {
            assert_eq!(
                Commitment::from_bytes(&params, &[tag, 0, 0, 0, 0]),
                Err(VerificationError::Rejected)
            );
        }
    }
    let params = Params::new(8, 1, vec![], Opening::Clear).unwrap();
    assert!(Commitment::from_bytes(&params, &[1, 0, 0, 0, 0]).is_err());
    let params = Params::new(8, 1, vec![], Opening::Recursive).unwrap();
    let c = Commitment::from_bytes(&params, &[1, 0, 0, 0, 0]).unwrap();
    assert_eq!(c.to_bytes(), [1, 0, 0, 0, 0]);
}

#[test]
fn a_shorter_key_is_a_prefix() {
    let make = |n: usize| {
        CommitmentKey::random(n, 11, Modulus::Q3889_FS_S, &[Modulus::Q9721_FS_S])
    };
    let (short, long) = (make(128), make(384));
    for k in 0..2 {
        assert_eq!(short.row(k).len(), 1);
        assert_eq!(long.row(k).len(), 3);
        assert!(short.row(k)[0].v == long.row(k)[0].v);
        assert!(long.row(k)[1].v != long.row(k)[0].v);
        for batch in long.row(k) {
            assert!(batch.representation == Representation::Ntt);
        }
    }
}
