use labinius::bd;
use labinius::bd::digits::drop_bits;
use labinius::bd::garner::{digits_of, lifted_normsq};
use labinius::bd::residual::residual;
use labinius::challenge::short::ShortChallenge;
use labinius::ring::{Representation, RingElement};
use labinius::rng::Rng;
use labinius::scalar;

#[test]
fn mixed_radix_digits_give_the_number_back() {
    let p = [3889u16, 9721, 17497];
    let x: u64 = 123_456_789_012;
    let r: Vec<u32> = p.iter().map(|&q| (x % q as u64) as u32).collect();
    let d = digits_of(&p, &r);
    assert_eq!(d[0] + 3889 * (d[1] + 9721 * d[2]), x);
    assert!(d[0] < 3889 && d[1] < 9721 && d[2] < 17497);
}

#[test]
fn the_lift_is_centred() {
    let p = [3889u16, 9721];
    let mut r = vec![[0u32; 648]; 2];
    // -5 and 1000
    r[0][0] = 3889 - 5;
    r[1][0] = 9721 - 5;
    r[0][1] = 1000;
    r[1][1] = 1000;
    assert_eq!(lifted_normsq(&p, &r), 25 + 1_000_000);
}

#[test]
fn sizes_of_a_bit_dropped_commitment() {
    assert_eq!(bd::top_bound(3889, 4), (3888 + 8) >> 4);
    assert_eq!(bd::top_bits(3889, 4), 8);
    assert_eq!(bd::coefficient_bits(&[3889, 9721], 4), 8 + 14);
    assert_eq!(bd::bytes(&[3889, 9721], 2, 4), (2 * 648 * 22 + 7) / 8);
}

#[test]
fn dropping_rounds_the_base_digit() {
    let primes = [3889u16, 9721];
    let mut rng = Rng::new(6);
    // coefficients modulo the product, as residues, transformed
    let mut value = [0u64; 648];
    let mut raw: Vec<Vec<[u32; 648]>> = vec![vec![], vec![]];
    let mut a = [[0u32; 648]; 2];
    for i in 0..648 {
        value[i] = rng.below(3889 * 9721) as u64;
        a[0][i] = (value[i] % 3889) as u32;
        a[1][i] = (value[i] % 9721) as u32;
    }
    raw[0].push(scalar::transform(3889, &a[0]));
    raw[1].push(scalar::transform(9721, &a[1]));
    let d = drop_bits(&raw, &primes, 1, 5);
    assert_eq!(d.columns(), 1);
    for i in 0..648 {
        let top = d.top()[i] as u64;
        let digit = d.digits()[0][i] as u64;
        let kept = top * 32 + 3889 * digit;
        let gap = value[i] as i64 - kept as i64;
        assert!(gap.abs() <= 16, "{i}: {gap}");
    }
}

#[test]
fn a_foreign_commitment_has_no_residual() {
    let key = labinius::key::CommitmentKey::random(
        128,
        1,
        labinius::ring::Modulus::Q3889_FS_S,
        &[labinius::ring::Modulus::Q9721_FS_S],
    );
    let d = bd::Dropped::of(
        vec![9721, 3889],
        1,
        4,
        vec![0; 648],
        vec![vec![0; 648]],
    );
    let c = labinius::challenge::short::ShortChallenge::zero();
    assert_eq!(residual(&key, &d, &[c], &[]), None);
    let d = bd::Dropped::of(
        vec![3889, 9721],
        1,
        4,
        vec![0; 648],
        vec![vec![0; 648]],
    );
    assert_eq!(residual(&key, &d, &[c], &[]), Some(0));
    assert_eq!(residual(&key, &d, &[c, c], &[]), None);
}

#[test]
fn a_residual_of_other_shapes() {
    let key = labinius::key::CommitmentKey::random(
        128,
        1,
        labinius::ring::Modulus::Q3889_FS_S,
        &[labinius::ring::Modulus::Q9721_FS_S],
    );
    let c = ShortChallenge { positions: [0; 32], signs: 0, weight: 1 };
    let make = |primes: Vec<u16>, bits: u32, top: usize, digits: Vec<Vec<u16>>| {
        let mut t = vec![0u16; top];
        t[0] = 5;
        bd::Dropped::of(primes, 1, bits, t, digits)
    };
    let zeros = || vec![vec![0u16; 648]];
    let both = vec![3889u16, 9721];
    // nothing is dropped, so the error is what is left of the sum
    let d = make(both.clone(), 0, 648, zeros());
    assert_eq!(residual(&key, &d, &[c], &[]), Some(25));
    let d = make(both.clone(), 1, 648, zeros());
    assert_eq!(residual(&key, &d, &[c], &[]), Some(100));
    // other moduli, other lengths, a fold that is not whole batches
    let d = make(vec![3889], 4, 648, vec![]);
    assert_eq!(residual(&key, &d, &[c], &[]), None);
    let d = make(vec![], 4, 648, vec![]);
    assert_eq!(residual(&key, &d, &[c], &[]), None);
    let d = make(both.clone(), 4, 647, zeros());
    assert_eq!(residual(&key, &d, &[c], &[]), None);
    let d = make(both.clone(), 4, 648, vec![vec![0; 649]]);
    assert_eq!(residual(&key, &d, &[c], &[]), None);
    let d = make(both, 4, 648, zeros());
    let folded = vec![RingElement::zero(Representation::Coefficients); 33];
    assert_eq!(residual(&key, &d, &[c], &folded), None);
}
