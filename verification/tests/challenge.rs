use labinius::challenge::short::{sample_attempt, sample_short_challenge, ShortChallenge};
use labinius::challenge::Transcript;
use labinius::fields::scalar::F162;

fn le(x: u64) -> [u8; 8] {
    x.to_le_bytes()
}

#[test]
fn a_derivation_hashes_what_was_absorbed_the_counter_and_the_label() {
    let mut t = Transcript::new(b"domain");
    t.absorb_bytes(b"abc");
    t.absorb_u64(77);
    let mut out = [0u8; 50];
    t.fill(b"first", &mut out);
    let mut next = [0u8; 50];
    t.fill(b"first", &mut next);

    let expect = |counter: u64| {
        let mut h = blake3::Hasher::new();
        h.update(&le(6));
        h.update(b"domain");
        h.update(&le(3));
        h.update(b"abc");
        h.update(&le(77));
        h.update(&le(counter));
        h.update(&le(5));
        h.update(b"first");
        let mut b = [0u8; 50];
        h.finalize_xof().fill(&mut b);
        b
    };
    assert_eq!(out, expect(0));
    assert_eq!(next, expect(1));
}

#[test]
fn samples_are_reduced_and_depend_on_the_transcript() {
    let mut a = Transcript::new(b"a");
    let mut b = Transcript::new(b"b");
    let (x, y) = (a.sample_f162(b"x", 20), b.sample_f162(b"x", 20));
    assert!(x != y);
    assert!(x.iter().all(|v| v.0[2] < 1 << 34));
    let mut c = Transcript::new(b"a");
    assert_eq!(c.sample_f162(b"x", 20), x);
    let mut d = Transcript::new(b"a");
    d.absorb_f162(&x);
    assert!(d.sample_f162(b"x", 20) != x);
}

#[test]
fn an_attempt_has_sorted_distinct_positions() {
    let mut t = Transcript::new(b"attempt");
    let c = sample_attempt(&mut t, 28).unwrap();
    assert_eq!(c.weight, 28);
    for i in 1..28 {
        assert!(c.positions[i - 1] < c.positions[i]);
    }
    assert!(c.positions[27] < 162);
    assert_eq!(c.signs, 0);
}

#[test]
fn signs_come_from_the_positions() {
    let mut t = Transcript::new(b"signs");
    let c = sample_attempt(&mut t, 28).unwrap();
    let s = c.signed();
    assert_eq!(s.positions, c.positions);
    assert_eq!(s.weight, 28);
    assert!(s.signs < 1 << 28);
    assert_eq!(s.signed().signs, s.signs);
    assert_eq!(c.signed_by(&[0xFF; 32]).signs, (1 << 28) - 1);
    assert_eq!(c.signed_by(&[0; 32]).signs, 0);
    let other = sample_attempt(&mut t, 28).unwrap();
    assert!(other.positions != c.positions);
}

#[test]
fn coefficients_round_trip() {
    let mut c = [0i8; 162];
    c[0] = 1;
    c[5] = -1;
    c[161] = 1;
    let s = ShortChallenge::from_coeffs(&c);
    assert_eq!(s.weight, 3);
    assert_eq!(&s.positions[..3], &[0, 5, 161]);
    assert_eq!(s.signs, 0b010);
    assert_eq!(s.coeffs(), c);
    assert_eq!(ShortChallenge::zero().coeffs(), [0i8; 162]);
    let f = s.to_f162();
    assert_eq!(f, F162::zero().with_bit(0).with_bit(5).with_bit(161));
}

/// The squared sup norm over the primitive 243-rd roots of unity.
fn norm_sq(c: &ShortChallenge) -> f64 {
    let a = c.coeffs();
    let mut best = 0f64;
    for u in 1..243u32 {
        if u % 3 == 0 {
            continue;
        }
        let (mut re, mut im) = (0f64, 0f64);
        for (p, &x) in a.iter().enumerate() {
            let angle = 2.0 * std::f64::consts::PI * ((u as usize * p) % 243) as f64 / 243.0;
            re += x as f64 * angle.cos();
            im += x as f64 * angle.sin();
        }
        best = best.max(re * re + im * im);
    }
    best
}

#[test]
fn sampling_takes_the_first_challenge_within_the_bound() {
    let bound = 15.0f64;
    let within = |c: &ShortChallenge| norm_sq(c) <= bound * bound;
    let mut t = Transcript::new(b"sample");
    let (c, attempts) = sample_short_challenge(&mut t, 28, &within).unwrap();
    assert!(norm_sq(&c) <= bound * bound);
    assert!(attempts >= 1);
    assert_eq!(c.signed().signs, c.signs);
    let mut again = Transcript::new(b"sample");
    let (d, n) = sample_short_challenge(&mut again, 28, &within).unwrap();
    assert_eq!((d.positions, d.signs, n), (c.positions, c.signs, attempts));
    let mut first = Transcript::new(b"sample");
    let (e, one) = sample_short_challenge(&mut first, 28, &|_: &ShortChallenge| true).unwrap();
    assert_eq!(one, 1);
    assert_eq!(attempts == 1, e.positions == c.positions && e.signs == c.signs);
}

#[test]
fn concatenations_do_not_collide_and_derivations_differ() {
    let derived = |list: &[&[u8]]| {
        let mut t = Transcript::new(b"framing");
        for b in list {
            t.absorb_bytes(b);
        }
        let mut out = [0u8; 32];
        t.fill(b"label", &mut out);
        out
    };
    let base = derived(&[b"ab", b"c"]);
    assert_eq!(derived(&[b"ab", b"c"]), base);
    assert!(derived(&[b"a", b"bc"]) != base);
    assert!(derived(&[b"abc"]) != base);
    assert!(derived(&[b"ab", b"c", b""]) != base);
    let mut t = Transcript::new(b"framing");
    let (mut first, mut second) = ([0u8; 32], [0u8; 32]);
    t.fill(b"label", &mut first);
    t.fill(b"label", &mut second);
    assert!(first != second);
}
