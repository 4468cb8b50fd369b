use labinius::key::{bits_of, AuxData, CommitmentKey};
use labinius::challenge::Transcript;
use labinius::limb::{class, is_quad, Class, PRIMES};
use labinius::modular::pow_mod;
use labinius::ring::decompose::{
    components, components_of, decompose_648_to_4x162, decompose_quad_648_to_4x162,
};
use labinius::ring::recombine::recombine;
use labinius::ring::slots::{leaf_index, pow3_slot_exp, slot_index};
use labinius::ring::{Batch32, Modulus, Representation, RingElement};
use labinius::rng::Rng;
use labinius::scalar;
use labinius::simd::bin::{build_tables, index_of, ntt_bin_batch32, ntt_core};
use labinius::simd::gen_large;
use labinius::simd::gen_quad::{self, Cap};
use labinius::simd::lane::output_bound_milli_q;
use labinius::simd::ntt::{
    intt_gen_batch32, intt_quad_gen_batch32, ntt_gen_batch32, ntt_quad_gen_batch32,
};
use labinius::simd::schedule::Caps;
use labinius::simd::transpose32::transpose_into;

fn element(rng: &mut Rng, q: u16) -> [u32; 648] {
    let mut a = [0u32; 648];
    for x in a.iter_mut() {
        *x = rng.below(q as u32);
    }
    a
}

#[test]
fn the_transform_evaluates_at_the_slots() {
    let mut rng = Rng::new(1);
    let a = element(&mut rng, 3889);
    let y = scalar::ntt::<3889>(&a);
    for u in [1usize, 5, 7, 1943] {
        assert_eq!(y[slot_index(u)], scalar::eval_at::<3889>(&a, u as u32));
    }
    assert_eq!(scalar::intt::<3889>(&y), a);
    let mut one = [0u32; 648];
    one[0] = 1;
    assert_eq!(scalar::ntt::<9721>(&one), [1u32; 648]);
}

#[test]
fn transforms_invert_and_multiply_at_every_limb() {
    for q in PRIMES {
        let mut rng = Rng::new(q as u64);
        let a = element(&mut rng, q);
        let b = element(&mut rng, q);
        let (x, y) = (scalar::transform(q, &a), scalar::transform(q, &b));
        assert_eq!(scalar::inverse_transform(q, &x), a);
        let c = scalar::mul_mod_phi(&a, &b, q);
        let z = scalar::transform(q, &c);
        if is_quad(q) {
            let p = match q {
                2917 => scalar::mul_quad_slots::<2917>(&x, &y),
                4861 => scalar::mul_quad_slots::<4861>(&x, &y),
                _ => scalar::mul_quad_slots::<12637>(&x, &y),
            };
            assert_eq!(p, z);
        } else {
            assert_eq!(scalar::pointwise_mul(&x, &y, q), z);
        }
    }
}

#[test]
fn the_modulus_polynomial_vanishes() {
    // X^324 * X^324 = X^324 - 1
    let mut x = [0u32; 648];
    x[324] = 1;
    let mut want = [0u32; 648];
    want[324] = 1;
    want[0] = 3888;
    assert_eq!(scalar::mul_mod_phi(&x, &x, 3889), want);
}

#[test]
fn components_recombine_at_every_limb() {
    for q in PRIMES {
        let mut rng = Rng::new(100 + q as u64);
        let y = element(&mut rng, q);
        let c = components(q, &y);
        assert_eq!(recombine(q, &c), y);
        let e = components_of(q, &y);
        for k in 0..4 {
            assert_eq!(e[k].normalized(q), c[k]);
        }
    }
    let mut rng = Rng::new(5);
    let y = element(&mut rng, 9721);
    assert_eq!(decompose_648_to_4x162::<9721>(&y), components(9721, &y));
}

#[test]
fn a_component_is_the_value_of_its_coefficients() {
    let q = 3889u64;
    let mut rng = Rng::new(9);
    let a = element(&mut rng, 3889);
    let y = scalar::transform(3889, &a);
    let c = components(3889, &y);
    let classes = pow3_slot_exp();
    // slot 0 of component k is sum_m a_{4m+k} theta^m at the class's point
    let psi = (2..q)
        .find(|&g| pow_mod(g, 1944, q) == 1 && pow_mod(g, 972, q) == q - 1 && pow_mod(g, 648, q) != 1)
        .unwrap();
    let mut found = false;
    for e in (1..1944u64).step_by(2) {
        let root = pow_mod(psi, e, q);
        let theta = pow_mod(root, 4 * classes[0] as u64, q);
        let mut same = true;
        for k in 0..4 {
            let mut x = 0u64;
            for m in (0..162).rev() {
                x = (x * theta + a[4 * m + k] as u64) % q;
            }
            same &= x == c[k][0] as u64;
        }
        found |= same;
    }
    assert!(found);
}

#[test]
fn slots_and_classes() {
    let classes = pow3_slot_exp();
    assert_eq!(classes[0], 1);
    let mut seen: Vec<u16> = classes.to_vec();
    seen.sort();
    seen.dedup();
    assert_eq!(seen.len(), 162);
    assert_eq!(slot_index(1), 0);
    let mut leaves: Vec<usize> = (0..162)
        .flat_map(|s| [leaf_index(s, true), leaf_index(s, false)])
        .collect();
    leaves.sort();
    assert_eq!(leaves, (0..324).collect::<Vec<_>>());
}

#[test]
fn limbs_by_class() {
    let kinds: Vec<Class> = PRIMES.iter().map(|&q| class(q)).collect();
    assert_eq!(kinds[0], Class::SplitSmall);
    assert_eq!(kinds[1], Class::SplitSmall);
    assert_eq!(kinds[2], Class::SplitLarge);
    assert_eq!(kinds[3], Class::SplitLarge);
    assert_eq!(&kinds[4..], &[Class::Quad; 3]);
    assert_eq!(Modulus::from_prime(4861), Some(Modulus::Q4861_Q_S));
    assert_eq!(Modulus::from_prime(4862), None);
    for q in PRIMES {
        assert_eq!(Modulus::from_prime(q).unwrap().prime(), q);
    }
}

#[test]
fn batches_transform_lane_by_lane() {
    let mut rng = Rng::new(77);
    let mut start = Batch32::zero(Representation::Coefficients);
    for j in 0..648 {
        for p in 0..32 {
            start.v[j][p] = rng.below(2) as i16;
        }
    }
    let tables = build_tables(9721);
    let b = ntt_bin_batch32(&tables, &index_of(&start));
    let mut a = [0u32; 648];
    for j in 0..648 {
        a[j] = start.v[j][17] as u32;
    }
    let y = scalar::ntt::<9721>(&a);
    for j in 0..648 {
        assert_eq!((b.v[j][17] as i32).rem_euclid(9721) as u32, y[j]);
        assert!(1000 * (b.v[j][17] as i32).abs() <= 2294 * 9721);
    }
    let mut g = start.clone();
    ntt_gen_batch32::<9721>(&mut g);
    for j in 0..648 {
        for p in 0..32 {
            assert_eq!((g.v[j][p] as i32 - b.v[j][p] as i32) % 9721, 0);
        }
    }
    intt_gen_batch32::<9721>(&mut g);
    assert!(g.v == start.v);
    let mut h = start.clone();
    ntt_quad_gen_batch32::<4861>(&mut h);
    intt_quad_gen_batch32::<4861>(&mut h);
    assert!(h.v == start.v);
}

fn fingerprint(v: impl Iterator<Item = i16>) -> i64 {
    v.fold(0i64, |h, x| (h * 31 + x as i64).rem_euclid(1_000_000_007))
}

#[test]
fn binary_lanes_are_lazily_reduced() {
    // the lanes themselves, not only their residues
    let mut nib = [0u8; 162];
    let mut a = [0u32; 648];
    for i in 0..648 {
        a[i] = ((i * i / 5 + i) % 2) as u32;
        nib[i % 162] |= (a[i] as u8) << (i / 162);
    }
    for (q, first, last, print) in [
        (3889u16, [-1091i16, 1488, -4969], 4219i16, 132498850i64),
        (9721, [-738, -4204, 2437], 2424, 724979968),
        (17497, [-2678, 10392, 4103], -17818, 544081515),
        (19441, [-7616, -15823, -558], -9913, 973168506),
    ] {
        let tables = build_tables(q);
        assert_eq!(tables.lut.len(), 48);
        let y = ntt_core(&tables, &nib);
        assert_eq!(y[..3], first);
        assert_eq!(y[647], last);
        assert_eq!(fingerprint(y.iter().copied()), print);
        let z = scalar::transform(q, &a);
        for j in 0..648 {
            assert_eq!((y[j] as i32).rem_euclid(q as i32) as u32, z[j]);
        }
        if q == 3889 || q == 9721 {
            assert!(y.iter().all(|x| 1000 * (*x as i32).abs()
                <= output_bound_milli_q(q) as i32 * q as i32));
        }
    }
}

fn spread_batch(q: u16) -> Batch32 {
    let mut b = Batch32::zero(Representation::Coefficients);
    for j in 0..648 {
        for p in 0..32 {
            b.v[j][p] = ((j + p) as i32 * 7919 % (2 * q as i32 + 1) - q as i32) as i16;
        }
    }
    b
}

fn holds_transforms(q: u16, b: &Batch32, a: &Batch32) {
    for p in [0usize, 9, 31] {
        let x = a.get(p).normalized(q);
        let y = scalar::transform(q, &x);
        for j in 0..648 {
            assert_eq!((b.v[j][p] as i32).rem_euclid(q as i32) as u32, y[j]);
        }
    }
}

#[test]
fn general_lanes_of_the_large_primes_are_lazily_reduced() {
    let a = spread_batch(17497);
    let mut b = a.clone();
    ntt_gen_batch32::<17497>(&mut b);
    assert!(b.representation == Representation::Ntt);
    assert_eq!([b.v[0][0], b.v[1][0], b.v[2][0], b.v[647][0]], [4563, 1692, 8935, -4713]);
    assert_eq!(fingerprint((0..648).map(|j| b.v[j][0])), 668088792);
    holds_transforms(17497, &b, &a);
    let a = spread_batch(19441);
    let mut b = a.clone();
    ntt_gen_batch32::<19441>(&mut b);
    assert_eq!([b.v[0][0], b.v[1][0], b.v[2][0], b.v[647][0]], [-7781, 2194, -2627, 3073]);
    assert_eq!(fingerprint((0..648).map(|j| b.v[j][0])), 431895985);
    holds_transforms(19441, &b, &a);
    let bound = gen_large::output_bound(&Caps::of(19441));
    assert!(bound < 19441);
    for j in 0..648 {
        for p in 0..32 {
            assert!((b.v[j][p] as i32).abs() <= bound);
        }
    }
    let mut c = b.clone();
    intt_gen_batch32::<19441>(&mut c);
    for j in 0..648 {
        for p in 0..32 {
            assert_eq!((c.v[j][p] as i32 - a.v[j][p] as i32) % 19441, 0);
        }
    }
}

#[test]
fn general_lanes_of_the_quadratic_slot_primes_are_lazily_reduced() {
    let a = spread_batch(2917);
    let mut b = a.clone();
    ntt_quad_gen_batch32::<2917>(&mut b);
    assert_eq!([b.v[0][0], b.v[1][0], b.v[2][0], b.v[647][0]], [-2149, -2384, -2881, -7435]);
    assert_eq!(fingerprint((0..648).map(|j| b.v[j][0])), 702339044);
    holds_transforms(2917, &b, &a);
    let a = spread_batch(4861);
    let mut b = a.clone();
    ntt_quad_gen_batch32::<4861>(&mut b);
    assert_eq!([b.v[0][0], b.v[1][0], b.v[2][0], b.v[647][0]], [-2267, 3575, 1617, -1450]);
    assert_eq!(fingerprint((0..648).map(|j| b.v[j][0])), 208690831);
    holds_transforms(4861, &b, &a);
    let a = spread_batch(12637);
    let mut b = a.clone();
    ntt_quad_gen_batch32::<12637>(&mut b);
    assert_eq!([b.v[0][0], b.v[1][0], b.v[2][0], b.v[647][0]], [5200, -6875, -11186, -639]);
    assert_eq!(fingerprint((0..648).map(|j| b.v[j][0])), 72540982);
    holds_transforms(12637, &b, &a);
    for (q, bound) in [(2917u16, 23157), (4861, 15863), (12637, 24569)] {
        assert_eq!(gen_quad::output_bound(&Cap::of(q)), bound);
    }
    for j in 0..648 {
        for p in 0..32 {
            assert!((b.v[j][p] as i32).abs() <= 24569);
        }
    }
}

#[test]
fn transposing_scatters_rows() {
    let src: Vec<Vec<i16>> = (0..32).map(|p| vec![10 * p as i16, 10 * p as i16 + 1]).collect();
    let mut dst = Batch32::zero(Representation::Ntt);
    dst.v[9][3] = 5;
    transpose_into(&src, &[7, 640], &mut dst);
    assert_eq!(dst.v[7][4], 40);
    assert_eq!(dst.v[640][31], 311);
    assert_eq!(dst.v[9][3], 5);
}

#[test]
fn a_batch_holds_its_elements() {
    let mut b = Batch32::zero(Representation::Coefficients);
    let mut e = RingElement::zero(Representation::Coefficients);
    e.v[3] = -7;
    b.set(5, &e);
    assert_eq!(b.get(5), e);
    assert_eq!(b.get(6), RingElement::zero(Representation::Coefficients));
    assert_eq!(e.normalized(3889)[3], 3882);
}

#[test]
fn a_key_commits_to_the_products_with_its_rows() {
    let key = CommitmentKey::random(128, 42, Modulus::Q3889_FS_S, &[Modulus::Q2917_Q_S]);
    assert_eq!(key.len_ring(), 32);
    assert_eq!(key.limbs(), 2);
    assert_eq!(key.prime(1), 2917);
    assert!(key.is_quadratic(1));
    assert_eq!(key.bytes(), 2 * 41472);
    let mut t = Transcript::new(b"key/test");
    let w = t.sample_f162(b"w", 256);
    let mut aux = AuxData::new(32, 2, 2);
    let m = key.commit_into_aux(&w, 2, &mut aux);
    assert_eq!((m.rows(), m.cols()), (4, 2));
    // limb 0, column 1, row 10 by hand
    let q = 3889u64;
    let mut sum = 0u64;
    for i in 0..32 {
        let a = scalar::ntt::<3889>(&bits_of(&w, 128 + 4 * i));
        let k = (key.row(0)[0].v[10][i] as i64).rem_euclid(q as i64) as u64;
        sum = (sum + k * a[10] as u64) % q;
    }
    assert_eq!(aux.commitment(0, 1)[10] as u64, sum);
    let c = components_of(3889, aux.commitment(0, 1));
    for k in 0..4 {
        assert_eq!(m.get(k, 1).limbs[0], c[k]);
    }
    assert_eq!(aux.chunks(), 2);
    assert_eq!(aux.batches_per_chunk(), 1);
}

#[test]
fn a_chunk_committed_alone_gives_its_column() {
    let key = CommitmentKey::random(128, 7, Modulus::Q9721_FS_S, &[Modulus::Q4861_Q_S]);
    let w = Transcript::new(b"columns").sample_f162(b"w", 384);
    let mut aux = AuxData::new(32, 3, 2);
    let m = key.commit_into_aux(&w, 3, &mut aux);
    for j in 0..3 {
        let mut own = AuxData::new(32, 1, 2);
        let c = key.commit_into_aux(&w[128 * j..128 * (j + 1)], 1, &mut own);
        for k in 0..2 {
            assert_eq!(aux.commitment(k, j), own.commitment(k, 0));
        }
        for t in 0..4 {
            for k in 0..2 {
                assert_eq!(m.get(t, j).limbs[k], c.get(t, 0).limbs[k]);
            }
        }
    }
    assert_ne!(aux.commitment(0, 0), aux.commitment(0, 1));
}

#[test]
fn a_component_is_the_sum_over_its_class() {
    let (q, psi) = (9721u64, 7086u64);
    let mut rng = Rng::new(31);
    let a = element(&mut rng, 9721);
    let c = components(9721, &scalar::transform(9721, &a));
    let classes = pow3_slot_exp();
    for s in [0usize, 1, 80, 161] {
        for k in 0..4 {
            let sum = (0..162u64).fold(0u64, |x, m| {
                let p = pow_mod(psi, 4 * m * classes[s] as u64, q);
                (x + a[4 * m as usize + k] as u64 * p) % q
            });
            assert_eq!(c[k][s] as u64, sum);
        }
    }
}

#[test]
fn the_quadratic_transform_holds_residues() {
    let mut rng = Rng::new(8);
    let a = element(&mut rng, 4861);
    let y = scalar::ntt_quad::<4861>(&a);
    assert_eq!(scalar::intt_quad::<4861>(&y), a);
    // the first leaf is the residue modulo X^2 - psi
    assert_eq!(scalar::eval_quad_at::<4861>(&a, 1), (y[0], y[1]));
    assert_eq!(decompose_quad_648_to_4x162::<4861>(&y), components(4861, &y));
}
