use std::sync::Arc;

use labinius::challenge::Transcript;
use labinius::fields::scalar::F162;
use labinius::labrador::{BSource, PhiBlock, PhiSource, PolxBuf, ShortPhi};
use labinius::recursion::chain::{At, Carries, Chain, Gadget, Product, Scaled};
use labinius::recursion::chunk::{
    blocks, chunks, decode, mul, reduce, shift, supported, taps,
};
use labinius::recursion::encode::{encode, Places};
use labinius::recursion::limbs;
use labinius::recursion::masks::{lifts, Masks, Supports};
use labinius::recursion::statement::{
    admits, build, Group, Kind, Layout, Opening, ProofPhi, RankedKey, Setup, Stretch,
};
use labinius::recursion::table::{padded, public_table, witness_table, Run};
use labinius::recursion::{Blocks, Poly, SElem};
use labinius::ring::decompose::components_of;
use labinius::ring::{
    Modulus, PowerOfThreeRingElementWithLimbs, Representation, RingElement,
    VerticallyAlignedMatrix,
};
use labinius::rng::Rng;
use labinius::scalar;
use labinius::scheme::recursive::{left_expansion, lift, norms_within, round_statement};
use labinius::scheme::{
    Commitment, CommitmentValue, FoldCap, LeftExpansionCommitment, Opening as Mode, OpeningProof,
    Params, PublicParameters, RowEvaluation, VerificationError, Verifier,
};

fn element(rng: &mut Rng, bound: u32) -> SElem {
    let mut x = [0i64; 162];
    for c in x.iter_mut() {
        *c = rng.below(2 * bound + 1) as i64 - bound as i64;
    }
    x
}

#[test]
fn the_ring_of_the_identities() {
    // Z^162 = -Z^81 - 1
    let mut p = vec![0i64; 163];
    p[162] = 1;
    let r = reduce(&p);
    assert_eq!((r[0], r[81]), (-1, -1));
    assert_eq!(r.iter().filter(|&&x| x != 0).count(), 2);
    let mut rng = Rng::new(3);
    let (a, b) = (element(&mut rng, 50), element(&mut rng, 50));
    assert_eq!(mul(&a, &b), mul(&b, &a));
    let mut z = [0i64; 162];
    z[7] = 1;
    assert_eq!(mul(&a, &z), shift(&a, 7));
    // Z^243 = 1
    assert_eq!(shift(&shift(&a, 200), 43), a);
}

#[test]
fn chunks_decode() {
    let mut rng = Rng::new(4);
    let a = element(&mut rng, 3000);
    let c = chunks(&a);
    assert!(supported(&c));
    assert_eq!(decode(&c), a);
    let mut bad = c;
    bad[1][60] = 1;
    assert!(!supported(&bad));
    assert!(decode(&bad) != a);
}

#[test]
fn taps_are_the_blocks() {
    let mut rng = Rng::new(5);
    let a = element(&mut rng, 30);
    let b = blocks(&a);
    let t = taps();
    for c in 0..3 {
        for k in 0..18 {
            let list = &t[c][k];
            assert!(!list.is_empty());
        }
    }
    // chunk 0, sub-chunk k holds coefficients 9k ..
    for k in 0..18 {
        for u in 0..9 {
            assert_eq!(b[0][k][u] as i64, a[9 * k + u]);
        }
    }
}

/// One product of a public element and a witness element, as a chain.
fn product_chain() -> (Vec<Blocks>, Vec<Vec<Poly>>, Chain, SElem) {
    let mut rng = Rng::new(6);
    let (g, x) = (element(&mut rng, 20), element(&mut rng, 20));
    let z = mul(&g, &x);
    let public = vec![blocks(&g)];
    let w = vec![chunks(&x).to_vec(), vec![[0i16; 64]; 18]];
    let products = (0..3)
        .map(|b| Product {
            blocks: 0,
            chunk: b,
            at: At { vector: 0, off: b },
        })
        .collect();
    let chain = Chain {
        name: "product".to_string(),
        products,
        scaled: vec![],
        output: z,
        carries: Carries {
            gadget: Gadget { base: 1 << 14, levels: 1 },
            at: vec![At { vector: 1, off: 0 }],
        },
    };
    (public, w, chain, z)
}

#[test]
fn a_chain_evaluates_its_identity() {
    let (public, mut w, chain, z) = product_chain();
    let sums = chain.reference_sums(&public, &w);
    assert_eq!(Chain::value(&sums), z);
    let e = Chain::honest_carries(&sums);
    for (a, row) in e.iter().enumerate() {
        for (j, &x) in row.iter().enumerate() {
            assert!(x.abs() < 1 << 14);
            w[1][a][j] = x as i16;
        }
    }
    let r = chain.residuals(&public, &w);
    assert!(r.iter().flatten().all(|&x| x == 0));
    w[0][0][5] += 1;
    let r = chain.residuals(&public, &w);
    assert!(r.iter().flatten().any(|&x| x != 0));
}

#[test]
fn scaled_terms_land_at_their_chunk() {
    let (public, mut w, mut chain, _) = product_chain();
    w.push(vec![[0i16; 64]; 1]);
    w[2][0][0] = 3;
    chain.scaled.push(Scaled {
        factor: -7,
        chunk: 1,
        at: At { vector: 2, off: 0 },
    });
    let mut sums = chain.reference_sums(&public, &w);
    let before = sums;
    chain.scaled_into(&mut sums, &w);
    assert_eq!(sums[6][0], before[6][0] - 21);
    assert_eq!(sums[5], before[5]);
}

#[test]
fn runs_sum_like_products() {
    let (public, w, chain, _) = product_chain();
    let mut runs = Vec::new();
    for b in 0..3 {
        runs.push(Run {
            g: public_table(&public, 0, 1, b),
            x: witness_table(&w[0], b, 1, 1),
            terms: padded(1),
        });
    }
    assert_eq!(padded(1), 32);
    assert_eq!(padded(33), 64);
    assert_eq!(Chain::sums(&runs), chain.reference_sums(&public, &w));
}

#[test]
fn components_of_a_product_follow_the_parts() {
    let q = 9721u16;
    let mut rng = Rng::new(8);
    let (mut a, mut v) = ([0u32; 648], [0u32; 648]);
    for i in 0..648 {
        a[i] = rng.below(3);
        v[i] = rng.below(3);
    }
    let c = scalar::mul_mod_phi(&a, &v, q);
    let wide = |x: &[u32; 648]| {
        let mut r = [0i64; 648];
        for i in 0..648 {
            r[i] = x[i] as i64;
            if r[i] > q as i64 / 2 {
                r[i] -= q as i64;
            }
        }
        r
    };
    let (sa, sv, sc) = (
        limbs::split(&wide(&a)),
        limbs::split(&wide(&v)),
        limbs::split(&wide(&c)),
    );
    for m in 0..4usize {
        let mut sum = [0i64; 162];
        for l in 0..4usize {
            let p = mul(&sa[(m + 4 - l) % 4], &sv[l]);
            let p = if l > m { shift(&p, 1) } else { p };
            for i in 0..162 {
                sum[i] += if l > m { -p[i] } else { p[i] };
            }
        }
        for i in 0..162 {
            assert_eq!((sum[i] - sc[m][i]).rem_euclid(q as i64), 0);
        }
    }
}

#[test]
fn key_rows_invert_the_key() {
    let params = Params::new(8, 1, vec![Modulus::Q2917_Q_S], Mode::Recursive).unwrap();
    let pp = PublicParameters::from_seed(params, [1u8; 32]);
    for limb in 0..2 {
        let rows = limbs::key_rows(&pp, limb);
        assert_eq!(rows.rows.len(), 32);
        assert_eq!(rows.quad, limb == 1);
        let a = rows.coefficients(5);
        assert_eq!(limbs::transform(rows.q, &a), limbs::key_slots(&pp, limb, 5));
        assert_eq!(limbs::coefficients(rows.q, &limbs::key_slots(&pp, limb, 5)), a);
    }
}

#[test]
fn residues_are_the_chunks_of_the_committed_elements() {
    let primes = [3889u16, 4861];
    let mut rng = Rng::new(12);
    let mut data = Vec::new();
    let mut kept: Vec<Vec<[i64; 648]>> = vec![vec![], vec![]];
    for _ in 0..3 {
        let mut limb_components = Vec::new();
        for (k, &q) in primes.iter().enumerate() {
            let mut a = [0i64; 648];
            for x in a.iter_mut() {
                *x = rng.below(q as u32) as i64 - (q as i64 - 1) / 2;
            }
            kept[k].push(a);
            limb_components.push(components_of(q, &limbs::transform(q, &a)));
        }
        for m in 0..4 {
            data.push(PowerOfThreeRingElementWithLimbs {
                limbs: limb_components.iter().map(|c| c[m]).collect(),
            });
        }
    }
    let matrix = VerticallyAlignedMatrix::new(4, 3, data);
    let r = limbs::residues(&matrix, &primes, 8);
    assert_eq!(r.vectors.len(), 8);
    for k in 0..2 {
        for m in 0..4 {
            let v = &r.vectors[4 * k + m];
            assert_eq!(v.len(), 16);
            for j in 0..3 {
                let want = chunks(&limbs::split(&kept[k][j])[m]);
                for b in 0..3 {
                    assert_eq!(v[3 * b + j], want[b]);
                }
            }
            assert_eq!(v[9], [0i16; 64]);
            assert_eq!(r.flat(4 * k + m).len(), 16 * 64);
            assert_eq!(r.flat(4 * k + m)[64 + 3], v[1][3]);
        }
    }
}

#[test]
fn shapes_and_components() {
    let s = limbs::Shape::of(4861, 3, 2);
    assert_eq!((s.quad, s.carry.base, s.carry.levels), (true, 256, 3));
    assert_eq!((s.quotient.base, s.quotient.levels), (512, 2));
    assert_eq!(limbs::carry_base(3889), 1024);
    assert!(!limbs::quad(3889));
    let mut e = RingElement::zero(Representation::Coefficients);
    e.v[4 * 3 + 2] = 9;
    let c = limbs::components(&e);
    assert_eq!(c[2][3], -9);
}

#[test]
fn the_terms_of_a_limb() {
    let places = Places {
        n: 2,
        r: 3,
        base_key: 10,
        challenges: 100,
        folded: (0..12).map(|i| At { vector: 7, off: 50 * i }).collect(),
        step: 1,
        residues: vec![20, 21, 22, 23],
    };
    let chains = encode(&places);
    assert_eq!(chains.len(), 4);
    assert_eq!(chains[1].len(), 12 * 2 + 3 * 3);
    // component 1 from component 2: partner 3, twisted, part 7
    let p = &chains[1][(3 * 2 + 1) * 2 + 1];
    assert_eq!((p.blocks, p.chunk), (10 + 7 * 2 + 1, 1));
    assert_eq!(p.at, At { vector: 7, off: 50 * 7 + 1 });
    let c = &chains[3][24 + 2 * 3 + 1];
    assert_eq!((c.blocks, c.chunk), (101, 2));
    assert_eq!(c.at, At { vector: 23, off: 7 });
}

#[test]
fn masks_cover_the_zero_positions() {
    assert_eq!(lifts(), 3);
    let shape = Supports {
        ranks: vec![2, 1],
        used: vec![1, 1],
        supports: vec![54, 60],
    };
    assert_eq!(shape.zero_starts(), vec![54, 0, 60]);
    let q = (1i64 << 47) - 115;
    let mut t = Transcript::new(b"masks");
    let m = Masks::squeeze(&shape, &mut t, q);
    assert_eq!(m.rows.len(), 3);
    for row in &m.rows {
        assert_eq!(row.len(), 3);
        // zeros from 54 on: coefficients 1 .. 10 carry the scalars
        assert_eq!(row[0][0], 0);
        assert!(row[0][11..].iter().all(|&x| x == 0));
        assert!(row[0][1..11].iter().all(|&x| 0 <= x && x < q));
        assert!(row[2][5..].iter().all(|&x| x == 0));
    }
    assert!(m.rows[0] != m.rows[1]);
    // the bytes are the transcript's
    let mut again = Transcript::new(b"masks");
    let mut bytes = vec![0u8; 12 * (10 + 64 + 4)];
    again.fill(b"labinius/recursion/mask/0", &mut bytes);
    let mut w = [0u8; 16];
    w[..12].copy_from_slice(&bytes[..12]);
    let rho = (u128::from_le_bytes(w) % q as u128) as i64;
    assert_eq!(m.rows[0][0][10], (q - rho) % q);
}

fn polx(x: u8) -> Arc<PolxBuf> {
    Arc::new(PolxBuf::from_bytes(1, &[x; 1024]).unwrap())
}

fn small_setup(chain_base: i64) -> Setup {
    let short = || Arc::new(ShortPhi::new(0, 9, vec![1i16; 18]));
    Setup {
        shape: Supports {
            ranks: vec![3, 18, 2],
            used: vec![3, 18, 2],
            supports: vec![54, 53, 54],
        },
        binary: vec![false, false, true],
        residues: vec![0],
        left_expansion: 2,
        rest: vec![1],
        key_y: RankedKey { rank: 5, buf: polx(1) },
        key_u: RankedKey { rank: 6, buf: polx(2) },
        key_r: RankedKey { rank: 7, buf: polx(3) },
        keys: vec![(0..54).map(|_| short()).collect()],
        factors: vec![0, -7],
        scalars: vec![polx(10), polx(11)],
        bases: vec![chain_base],
        carries: vec![(0..18).map(|a| polx(100 + a as u8)).collect()],
        q: (1 << 47) - 115,
    }
}

#[test]
fn the_statement_lists_diagonals_commitments_and_masks() {
    let (public, _, mut chain, _) = product_chain();
    chain.scaled.push(Scaled {
        factor: -7,
        chunk: 1,
        at: At { vector: 0, off: 2 },
    });
    chain.output = [0; 162];
    chain.output[9 * 4] = -1;
    let layout = Layout {
        groups: vec![
            Group { kind: Kind::Challenge, first: 0, len: 1 },
            Group { kind: Kind::Key { limb: 0, part: 0 }, first: 0, len: 1 },
        ],
        public,
        chains: vec![chain],
        stretches: vec![vec![
            Stretch { group: 0, chunk: 2, offset: 0, at: At { vector: 0, off: 1 }, len: 1 },
            Stretch { group: 1, chunk: 0, offset: 0, at: At { vector: 0, off: 0 }, len: 2 },
        ]],
    };
    let setup = small_setup(1 << 14);
    let phi = ProofPhi::new(&layout);
    assert_eq!(phi.footprint(), 54 * 9 * 2);
    let mut t = Transcript::new(b"statement");
    let masks = Masks::squeeze(&setup.shape, &mut t, setup.q);
    let rows = masks.rows.clone();
    let (ty, tu, tr) = (polx(20), polx(21), polx(22));
    let opening = Opening { t_y: &ty, t_u: &tu, t_r: &tr, norms: &[4, 0, 9] };
    let s = build(&setup, &layout, &phi, opening, masks, [9u8; 32]);
    assert_eq!(s.digest, [9u8; 32]);
    assert_eq!(s.vectors[0].betasq, 4);
    assert_eq!(s.vectors[1].betasq, 1);
    assert!(s.vectors[2].binary);
    assert_eq!(s.constraints.len(), 18 + 3 + 3);
    let c = &s.constraints[6];
    assert_eq!(c.deg, 1);
    assert_eq!(c.blocks.len(), 4);
    assert_eq!((c.blocks[3].idx, c.blocks[3].len), (1, 18));
    if let PhiSource::Blocks(parts) = &c.phi {
        assert!(matches!(&parts[0], PhiBlock::Short(p, 0) if p.c.len() == 9));
        assert!(matches!(&parts[1], PhiBlock::Short(p, 0) if p.c.len() == 18));
        // diagonal 6 is where chunk 1 begins
        assert!(matches!(&parts[2], PhiBlock::Polx(p, 0) if p.as_bytes()[0] == 11));
        assert!(matches!(&parts[3], PhiBlock::Polx(p, 0) if p.as_bytes()[0] == 106));
    } else {
        panic!("not by blocks");
    }
    assert!(c.b.is_none());
    if let PhiSource::Blocks(parts) = &s.constraints[7].phi {
        assert!(matches!(&parts[2], PhiBlock::Polx(p, 0) if p.as_bytes()[0] == 10));
    }
    if let Some(BSource::Int64(v)) = &s.constraints[4].b {
        assert_eq!(v[0][0], setup.q - 1);
    } else {
        panic!("no right-hand side");
    }
    assert_eq!(s.constraints[18].deg, 5);
    assert_eq!(s.constraints[19].blocks[0].idx, 2);
    assert!(matches!(&s.constraints[20].b, Some(BSource::Polx(p)) if p.as_bytes()[0] == 22));
    assert!(matches!(&s.constraints[22].phi, PhiSource::Int64(v) if *v == rows[1]));
    assert_eq!(s.constraints[22].blocks.len(), 3);
}

#[test]
fn families_interleave_their_chains() {
    let make = |i: i64| {
        let (_, _, mut chain, _) = product_chain();
        chain.products.clear();
        chain.output = [0; 162];
        for a in 0..18 {
            chain.output[9 * a] = 1 + i;
        }
        chain
    };
    let layout = Layout {
        groups: vec![],
        public: vec![],
        chains: (0..6).map(make).collect(),
        stretches: (0..6).map(|_| vec![]).collect(),
    };
    let setup = small_setup(1 << 14);
    let phi = ProofPhi::new(&layout);
    let (ty, tu, tr) = (polx(20), polx(21), polx(22));
    let opening = Opening { t_y: &ty, t_u: &tu, t_r: &tr, norms: &[1, 1, 1] };
    let s = build(&setup, &layout, &phi, opening, Masks { rows: vec![] }, [0; 32]);
    let chain_of = |k: usize| match &s.constraints[k].b {
        Some(BSource::Int64(v)) => v[0][0] - 1,
        _ => -1,
    };
    let first: Vec<i64> = (0..9).map(chain_of).collect();
    assert_eq!(first, vec![0, 1, 2, 3, 0, 1, 2, 3, 0]);
    let last: Vec<i64> = (72..77).map(chain_of).collect();
    assert_eq!(last, vec![4, 5, 4, 5, 4]);
}

#[test]
fn left_expansions_are_chunked_bits() {
    let x = F162::zero().with_bit(0).with_bit(54).with_bit(161);
    let l = lift(&x);
    assert_eq!(l.iter().sum::<i64>(), 3);
    let row = RowEvaluation::of(vec![x, F162::one()]);
    let u = left_expansion(&row, 8);
    assert_eq!(u.len(), 8 * 64);
    // chunk b of value j is polynomial 2 b + j
    assert_eq!(u[0], 1);
    assert_eq!(u[2 * 64], 1);
    assert_eq!(u[4 * 64 + 53], 1);
    assert_eq!(u[64], 1);
    assert_eq!(u.iter().map(|&x| x as i32).sum::<i32>(), 4);
}

#[test]
fn norms_are_held_to_their_caps() {
    assert!(norms_within(&[1, 2], &[1, 3]));
    assert!(!norms_within(&[2, 2], &[1, 3]));
    assert!(!norms_within(&[1], &[1, 3]));
}

fn empty_layout() -> Layout {
    let (_, _, mut chain, _) = product_chain();
    chain.products.clear();
    chain.output = [0; 162];
    chain.output[0] = 1;
    Layout {
        groups: vec![],
        public: vec![],
        chains: vec![chain],
        stretches: vec![vec![]],
    }
}

#[test]
fn the_verifier_rebuilds_the_statement_of_the_prover() {
    let params = Params::new(8, 1, vec![], Mode::Recursive).unwrap();
    let pp = PublicParameters::from_seed(params, [7; 32]);
    let verifier = Verifier::new(&pp, &FoldCap { num: 100_000, den: 1 });
    let (setup, layout) = (small_setup(1 << 14), empty_layout());
    let claim = F162::one();
    let (ty, tu, tr) = (polx(20), polx(21), polx(22));
    let norms = vec![1u64, 2, 3];
    assert!(admits(&setup, &layout, &norms));

    let mut t = Transcript::new(b"round");
    let opening = Opening { t_y: &ty, t_u: &tu, t_r: &tr, norms: &norms };
    let phi = ProofPhi::new(&layout);
    let proved = round_statement(&setup, &layout, &phi, &mut t, opening, &claim);

    let commitment = Commitment::of(vec![3889], 2, CommitmentValue::Recursive(ty));
    let left = LeftExpansionCommitment::of(tu);
    let message = OpeningProof { t_r: tr, norms, phi_bytes: 0 };
    let rebuilt = |caps: &[u64], cleared: bool| {
        let mut t = Transcript::new(b"round");
        verifier.opening_statement(
            &mut t, &commitment, &left, &claim, &message, &setup, &layout, caps, cleared,
        )
    };
    let s = rebuilt(&[1, 2, 3], true).unwrap();
    assert_eq!(s.digest, proved.digest);
    assert_eq!(s.content_digest(), proved.content_digest());
    assert_eq!(rebuilt(&[1, 1, 3], true).err(), Some(VerificationError::Rejected));
    assert_eq!(rebuilt(&[1, 2], true).err(), Some(VerificationError::Rejected));
    assert_eq!(rebuilt(&[1, 2, 3], false).err(), Some(VerificationError::Rejected));
    // another announced value gives another statement
    let mut t = Transcript::new(b"round");
    let (ty, tu, tr) = (polx(20), polx(21), polx(23));
    let opening = Opening { t_y: &ty, t_u: &tu, t_r: &tr, norms: &[1, 2, 3] };
    let other = round_statement(&setup, &layout, &phi, &mut t, opening, &claim);
    assert!(other.digest != proved.digest);
}

#[test]
fn public_data_that_does_not_fit_is_not_admitted() {
    let norms = [1u64, 2, 3];
    let (setup, layout) = (small_setup(1 << 14), empty_layout());
    assert!(!admits(&setup, &layout, &norms[..2]));
    // a base of the carries that the setup has no weights for
    assert!(!admits(&small_setup(1 << 13), &layout, &norms));
    let mut l = empty_layout();
    l.groups.push(Group { kind: Kind::Lift, first: 0, len: 1 });
    assert!(!admits(&setup, &l, &norms));
    let mut l = empty_layout();
    l.stretches[0].push(Stretch {
        group: 0,
        chunk: 0,
        offset: 0,
        at: At { vector: 0, off: 0 },
        len: 1,
    });
    assert!(!admits(&setup, &l, &norms));
    let mut s = small_setup(1 << 14);
    s.rest.push(3);
    assert!(!admits(&s, &layout, &norms));
    let mut s = small_setup(1 << 14);
    s.shape.supports[1] = 65;
    assert!(!admits(&s, &layout, &norms));
}

#[test]
fn components_of_a_product_are_products_of_components() {
    let q = 9721u16;
    let mut rng = Rng::new(9);
    let (mut a, mut v) = ([0u32; 648], [0u32; 648]);
    for i in 0..648 {
        a[i] = rng.below(2);
        v[i] = rng.below(2);
    }
    let c = scalar::mul_mod_phi(&a, &v, q);
    let wide = |x: &[u32; 648]| {
        let mut r = [0i64; 648];
        for i in 0..648 {
            r[i] = if x[i] as u16 > q / 2 { x[i] as i64 - q as i64 } else { x[i] as i64 };
        }
        r
    };
    let (sa, sv, sc) = (
        limbs::split(&wide(&a)),
        limbs::split(&wide(&v)),
        limbs::split(&wide(&c)),
    );
    for m in 0..4usize {
        let mut sum = [0i64; 162];
        for l in 0..4usize {
            let mut f = sa[(m + 4 - l) % 4];
            if l > m {
                f = shift(&f, 1);
                for x in f.iter_mut() {
                    *x = -*x;
                }
            }
            let p = mul(&f, &sv[l]);
            for i in 0..162 {
                sum[i] += p[i];
            }
        }
        assert_eq!(sum, sc[m]);
    }
    let rows = limbs::KeyRows { q, quad: false, rows: vec![sa] };
    assert_eq!(rows.coefficients(0), wide(&a));
}
