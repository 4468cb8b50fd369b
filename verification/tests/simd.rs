use labinius::fields::bitmat::{transpose_tile, untranspose_planes, word_at};
use labinius::fields::f162::{mac_soa8, mul_soa8};
use labinius::fields::scalar::F162;
use labinius::simd::gen_large;
use labinius::simd::gen_quad::{self, Cap};
use labinius::simd::lane::{
    barrett_lut_corr, barrett_lut_i16, barrett_lut_max, barrett_mul_i16, barrett_mul_max, lut_byte,
    lut_k, mont, mont_bound, needs_barrett, output_bound_milli_q, reduce, twiddle, Twiddle,
};
use labinius::simd::norm::normsq_and_max;
use labinius::simd::schedule::{
    bar_kind, bar_levels, bin_model, output_bound, Caps, RED_LUT, RED_MUL, RED_NONE,
};
use labinius::challenge::Transcript;

#[test]
fn tile_transpose_and_back() {
    let words: Vec<u128> = (0..64u128)
        .map(|i| (i * 0x0123_4567_89AB_CDEF_1122_3344_5566_7788u128) ^ (i << 100))
        .collect();
    let mut w = [0u128; 64];
    w.copy_from_slice(&words);
    let bytes = transpose_tile(&w);
    for k in 0..16 {
        for p in 0..64 {
            assert_eq!(bytes[k][p], words[word_at(p)].to_le_bytes()[k], "k {k} p {p}");
        }
    }
    let mut planes = [[0u8; 64]; 8];
    planes.copy_from_slice(&bytes[..8]);
    let back = untranspose_planes(&planes);
    for g in 0..8 {
        for i in 0..8 {
            assert_eq!(back[g][i], words[8 * g + i] as u64, "g {g} i {i}");
        }
    }
}

#[test]
fn eight_products_side_by_side() {
    let mut t = Transcript::new(b"soa");
    let (a, b) = (t.sample_f162(b"a", 8), t.sample_f162(b"b", 8));
    let pack = |v: &[F162]| {
        let mut r = [[0u64; 8]; 3];
        for i in 0..8 {
            for k in 0..3 {
                r[k][i] = v[i].0[k];
            }
        }
        r
    };
    let (pa, pb) = (pack(&a), pack(&b));
    let c = mul_soa8(&pa, &pb);
    let mut acc = c;
    mac_soa8(&mut acc, &pa, &pb);
    for i in 0..8 {
        assert_eq!(F162([c[0][i], c[1][i], c[2][i]]), a[i] * b[i]);
        assert_eq!([acc[0][i], acc[1][i], acc[2][i]], [0, 0, 0]);
    }
}

#[test]
fn the_lookup_reduction_over_every_lane() {
    for q in [9721u16, 17497, 19441] {
        let mut worst = 0i32;
        for a in i16::MIN..=i16::MAX {
            let r = barrett_lut_i16(a, q) as i32;
            assert_eq!((a as i32 - r).rem_euclid(q as i32), 0);
            worst = worst.max(r.abs());
        }
        assert!(2 * worst <= q as i32 + 2047);
        assert_eq!(barrett_lut_max(q), worst);
    }
    assert_eq!(barrett_lut_max(9721), 5625);
    assert_eq!(lut_k(0, 9721), 0);
    assert_eq!(lut_k(15, 9721), 3);
    assert_eq!(lut_k(16, 9721), -3);
    assert_eq!(barrett_lut_corr(15, 9721), -29163);
    assert_eq!(lut_byte(15, 9721), (-29163i16 as u16 & 0xff) as u8);
    assert_eq!(lut_byte(47, 9721), (-29163i16 as u16 >> 8) as u8);
}

#[test]
fn the_multiplying_reduction_over_every_lane() {
    for q in [17497u16, 19441] {
        let mut worst = 0i32;
        for a in i16::MIN..=i16::MAX {
            let r = barrett_mul_i16(a, q) as i32;
            assert_eq!((a as i32 - r).rem_euclid(q as i32), 0);
            worst = worst.max(r.abs());
        }
        assert_eq!(barrett_mul_max(q), worst);
    }
    // 0.60 q at 17497 and 0.74 q at 19441
    assert_eq!((barrett_mul_max(17497) as f64 / 17497.0 * 100.0).round(), 60.0);
    assert_eq!((barrett_mul_max(19441) as f64 / 19441.0 * 100.0).round(), 74.0);
}

#[test]
fn a_montgomery_product_is_a_product() {
    let q = 9721i64;
    let z = 1234i64;
    let mut w = (z * 65536).rem_euclid(q);
    if w > q / 2 {
        w -= q;
    }
    // the companion: w / q modulo 2^16
    let inv = (0..65536i64).find(|k| (k * q).rem_euclid(65536) == 1).unwrap();
    let mut wp = (w * inv).rem_euclid(65536);
    if wp > 32767 {
        wp -= 65536;
    }
    let t = Twiddle { w: w as i16, wp: wp as i16 };
    for a in [0i16, 1, -1, 500, -9721, 20000, i16::MIN, i16::MAX] {
        let r = mont(a, &t, 9721) as i64;
        assert_eq!((r - a as i64 * z).rem_euclid(q), 0);
        assert!(r.abs() <= mont_bound((a as i32).abs(), 9721) as i64);
    }
}

#[test]
fn schedules_and_their_bounds() {
    assert!(!needs_barrett(3889));
    assert!(needs_barrett(9721));
    assert_eq!(output_bound_milli_q(3889), 7500);
    assert_eq!(output_bound_milli_q(9721), 2294);
    assert_eq!(bar_kind(2 + 3 * 1, 0, 0), 2);
    assert_eq!(bar_kind(2 + 3 * 1, 0, 1), 1);
    assert_eq!(bar_kind(27 * 5, 1, 0), 2);
    let caps = Caps::of(19441);
    let (levels, peak) = bin_model(&caps, 0);
    assert_eq!(levels[0], 19442);
    assert!(peak > 32767);
    // every site through the lookup
    let all: u32 = (0..12u32).map(|d| 3u32.pow(d)).sum();
    let (levels, peak) = bin_model(&caps, all);
    assert!(peak <= 32767);
    assert_eq!((levels[4] as f64 / 19441.0 * 100.0).round(), 158.0);
}

#[test]
fn the_cheapest_schedule_of_each_large_prime() {
    let a = output_bound(17497);
    let b = output_bound(19441);
    assert_eq!((a as f64 / 17497.0 * 100.0).round(), 179.0);
    assert_eq!((b as f64 / 19441.0 * 100.0).round(), 158.0);
    for (q, out) in [(17497u16, a), (19441, b)] {
        let caps = Caps::of(q);
        let code = bar_levels(q);
        let (levels, peak) = bin_model(&caps, code);
        assert!(peak <= 32767);
        assert_eq!(levels[4], out);
        // 17497 reduces the input and the products and leaves the rotated product, 19441 looks up
        // everywhere
        for l in 0..4 {
            for i in 0..3 {
                let k = bar_kind(code, l, i);
                if q == 19441 {
                    assert_eq!(k, RED_LUT);
                } else {
                    assert_eq!(k == RED_NONE, i == 2);
                }
            }
        }
    }
}

#[test]
fn a_twiddle_multiplies() {
    for q in [2917u16, 3889, 4861, 9721, 12637, 17497, 19441] {
        for z in [0u64, 1, 1234, q as u64 - 1] {
            let t = twiddle(z, q);
            assert!(2 * (t.w as i32).abs() <= q as i32);
            for a in [0i16, 1, -77, 12000, -30000] {
                let r = mont(a, &t, q) as i64;
                assert_eq!((r - a as i64 * z as i64).rem_euclid(q as i64), 0);
            }
        }
    }
}

#[test]
fn the_reductions_of_a_site() {
    assert_eq!(reduce(20000, 9721, RED_NONE), 20000);
    assert_eq!(reduce(20000, 9721, RED_LUT), 558);
    assert_eq!(reduce(27306, 9721, RED_MUL), 7864);
    assert_eq!(reduce(-32768, 9721, RED_MUL), -3605);
    assert_eq!(reduce(8192, 17497, RED_MUL), -9305);
    let worst = (i16::MIN..=i16::MAX).map(|a| (reduce(a, 9721, RED_MUL) as i32).abs()).max();
    assert_eq!(worst, Some(7864));
}

#[test]
fn norms_of_ring_elements() {
    let mut a = [0i16; 648];
    a[0] = 3;
    a[647] = -4;
    assert_eq!(normsq_and_max(&a), Some((25, 4)));
    assert_eq!(normsq_and_max(&[0i16; 648]), Some((0, 0)));
}

#[test]
fn general_transforms_stay_in_a_lane() {
    for q in [17497u16, 19441] {
        let caps = Caps::of(q);
        let (forward, peak) = gen_large::fwd_model(&caps);
        assert!(peak <= 32767);
        assert_eq!(gen_large::output_bound(&caps), forward[4]);
        assert!(forward[4] < q as i32);
        let (inverse, peak) = gen_large::inv_model(&caps);
        assert!(peak <= 32767);
        assert_eq!(inverse[0], 3 * gen_large::in_bound(q));
        assert_eq!(gen_large::in_bound(q), (q as i32 - 1) / 2);
    }
    let caps = Caps::of(19441);
    let in_q = |b: i32| (b as f64 / 19441.0 * 100.0).round() as i64;
    let (forward, _) = gen_large::fwd_model(&caps);
    assert_eq!(forward.map(in_q), [127, 158, 158, 158, 53]);
    let (inverse, _) = gen_large::inv_model(&caps);
    assert_eq!(inverse.map(in_q), [150, 158, 158, 158, 105, 105, 131]);
}

#[test]
fn general_transforms_at_the_quadratic_slot_primes() {
    let in_q = |q: u16, b: i32| (b as f64 / q as f64 * 1000.0).round() as i64;
    let table: [(u16, (bool, bool, [bool; 4]), [i64; 5]); 3] = [
        (2917, (false, false, [false; 4]), [3078, 4215, 5402, 6643, 7939]),
        (
            4861,
            (false, false, [false, false, true, false]),
            [3131, 4364, 5687, 2107, 3263],
        ),
        (12637, (true, true, [true; 4]), [2205, 1994, 1954, 1946, 1944]),
    ];
    for (q, flags, bounds) in table {
        let cap = Cap::of(q);
        assert_eq!(gen_quad::gen_flags(&cap), flags);
        let (lm, peak) = gen_quad::gen_model(&cap, flags.0, flags.1, flags.2);
        assert!(peak <= 32767);
        assert_eq!(lm.map(|b| in_q(q, b)), bounds);
        assert_eq!(gen_quad::output_bound(&cap), lm[4]);
        assert_eq!(gen_quad::in_bound(&cap), lm[4]);
    }
    // without the reductions of the first pass the largest prime leaves a lane
    let (_, peak) = gen_quad::gen_model(&Cap::of(12637), false, false, [true; 4]);
    assert!(peak > 32767);
}

#[test]
fn inverse_transforms_at_the_quadratic_slot_primes() {
    let table: [(u16, [bool; 6]); 3] = [
        (2917, [true, true, false, true, false, false]),
        (4861, [true, false, true, false, true, false]),
        (12637, [true; 6]),
    ];
    for (q, flags) in table {
        let cap = Cap::of(q);
        let b = gen_quad::in_bound(&cap);
        assert_eq!(gen_quad::inv_flags(&cap, b), flags);
        let (lm, peak) = gen_quad::inv_model(&cap, b, flags);
        assert!(peak <= 32767);
        assert_eq!(gen_quad::inv_bound(&cap, b), lm);
        assert!(lm[5] <= q as i32 + (q as i32 - 1) / 2);
    }
}
