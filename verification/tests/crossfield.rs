use labinius::challenge::Transcript;
use labinius::fields::crossfield::{
    eval_pi1, partial_evals, poly_from_b128, poly_from_eq, psi, psi_table, SwitchProver,
    SwitchVerifier, PACK,
};
use labinius::fields::scalar::{B128, F162};

const M34_TEST: u64 = (1 << 34) - 1;

fn reference(pi0: &[B128], eq_hi: &[B128]) -> Vec<B128> {
    let mut v = vec![B128::zero(); PACK];
    for (&p, &e) in pi0.iter().zip(eq_hi) {
        for (k, vk) in v.iter_mut().enumerate() {
            if p.bit(k) {
                *vk = *vk + e;
            }
        }
    }
    v
}

#[test]
fn poly_from_eq_matches_psi() {
    let mut x = 0x2545F4914F6CDD1Du128;
    let mut next = || {
        x ^= x << 13;
        x ^= x >> 7;
        x ^= x << 17;
        x
    };
    let batches: Vec<Vec<F162>> = (0..2)
        .map(|_| {
            (0..PACK)
                .map(|_| F162([next() as u64, next() as u64, (next() as u64) & M34_TEST]))
                .collect()
        })
        .collect();
    let tabs: Vec<_> = batches.iter().map(|b| psi_table(b)).collect();
    for n in [1usize, 8, 13, 64] {
        let eqs: Vec<Vec<B128>> = (0..2)
            .map(|_| (0..n).map(|_| B128(next())).collect())
            .collect();
        let views: Vec<&[B128]> = eqs.iter().map(|e| e.as_slice()).collect();
        let poly = poly_from_eq(&views, &batches);
        for j in 0..n {
            let want = views
                .iter()
                .zip(&tabs)
                .fold(F162::zero(), |acc, (e, t)| acc + psi(t, e[j]));
            assert_eq!(poly.get(j), want);
        }
        let p: Vec<B128> = (0..n).map(|_| B128(next())).collect();
        let poly = poly_from_b128(&p);
        for j in 0..n {
            assert_eq!(poly.get(j), F162::from_b128(p[j]));
        }
    }
}

#[test]
fn partial_evals_match_the_bitwise_sum() {
    let mut x = 0x9E3779B97F4A7C15u128;
    let mut next = || {
        x ^= x << 13;
        x ^= x >> 7;
        x ^= x << 17;
        B128(x.wrapping_mul(0x2545F4914F6CDD1Du128) ^ (x >> 64))
    };
    for n in [1usize, 7, 8, 1000] {
        let pi0: Vec<B128> = (0..n).map(|_| next()).collect();
        let eq: Vec<B128> = (0..n).map(|_| next()).collect();
        assert_eq!(partial_evals(&pi0, &eq), reference(&pi0, &eq));
    }
}

#[test]
fn ghash_product_of_x_and_its_reduction() {
    assert_eq!(B128(1 << 127) * B128(2), B128(0x87));
    assert_eq!(B128(3) * B128(3), B128(5));
    assert_eq!(B128::one() * B128(0xABCDEF), B128(0xABCDEF));
}

#[test]
fn f162_product_reduces_at_degree_162() {
    let x = F162([2, 0, 0]);
    let top = F162([0, 0, 1 << 33]);
    assert_eq!(x * top, F162([1, 1 << 17, 0]));
    assert_eq!(x * F162::zero(), F162::zero());
}

#[test]
fn the_conjugates_multiply_to_one() {
    let mut rng = Transcript::new(b"field");
    for a in rng.sample_f162(b"elements", 8) {
        // 162 squarings lead back, and the product of all conjugates is one
        let (mut c, mut all, mut others) = (a, F162::one(), F162::one());
        for k in 0..162 {
            all = all * c;
            if k > 0 {
                others = others * c;
            }
            c = c * c;
        }
        assert_eq!(c, a);
        assert_eq!(all, F162::one());
        assert_eq!(a * others, F162::one());
    }
}

#[test]
fn a_run_round_by_round_ends_in_the_value_of_the_trace() {
    let mut t = Transcript::new(b"run/test");
    let trace = t.sample_b128(b"trace", 32);
    let r_lo = t.sample_b128(b"r_lo", 7);
    let r_hi = t.sample_b128(b"r_hi", 5);
    let claim = labinius::switch::bit_mle(&trace, &r_lo, &r_hi);
    let batch = t.sample_f162(b"batch", PACK);
    let r_pp = t.sample_f162(b"r_pp", 5);
    let (v, eq_hi) = SwitchProver::partial_evals_and_eq(&trace, &r_hi);
    assert!(SwitchVerifier::start(&v, claim + B128::one(), &r_lo, &batch).is_err());
    let mut prover = SwitchProver::new(&trace, &eq_hi, &batch);
    let mut verifier = SwitchVerifier::start(&v, claim, &r_lo, &batch).unwrap();
    for r in &r_pp {
        let m = prover.msg();
        prover.fold(*r);
        verifier.round(m, *r);
    }
    let value = prover.final_eval();
    assert_eq!(value, eval_pi1(&trace, &r_pp));
    assert!(verifier.finish(&r_hi, &r_pp, &batch, value).is_ok());
    assert!(verifier.finish(&r_hi, &r_pp, &batch, value + F162::one()).is_err());
    assert!(verifier.finish(&r_hi, &r_pp, &batch, F162::zero()).is_err());
}
