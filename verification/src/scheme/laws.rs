//! What a round keeps: an honest prover is accepted.
use super::commitment::EvaluationPoint;
use super::messages::FoldedCommitment;
use super::prover;
use super::verify;
use super::witness::Witness;
use crate::ajtai;
use crate::challenge::short::ShortChallenge;
use crate::eval;
use crate::fields::linear;
use crate::fields::scalar;
use crate::fields::scalar::F162;
use crate::fold;
use crate::key;
use crate::key::{AuxData, CommitmentKey};
use crate::modular;
use crate::modular::same;
use crate::ntt::poly;
use crate::params;
use crate::parity;
use crate::ring::decompose;
use crate::ring::{PowerOfThreeRingElementWithLimbs, RingElement, VerticallyAlignedMatrix};
use crate::wire::uniform;
use vstd::arithmetic::div_mod::*;
use vstd::arithmetic::power2::*;
use vstd::prelude::*;

verus! {

/// The honest row evaluation and the multilinear extension of the witness pass the claim check.
pub proof fn honest_claim(w: &Witness, point: EvaluationPoint)
    requires
        w.wf(),
        w.fits(&point),
    ensures
        eval::claimed(
            eval::rows(linear::views(w.elements@), linear::views(point.p0@)),
            linear::views(point.p1@),
        ) == scalar::f162().mle(linear::views(w.elements@), point.msb()),
        eval::rows(linear::views(w.elements@), linear::views(point.p0@)).len() == pow2(
            w.params.column_log_len as nat,
        ),
{
    let p = w.params;
    assert(p.column_log_len + (p.witness_log_len - p.column_log_len) == p.witness_log_len);
    eval::claim_is_mle(
        linear::views(w.elements@),
        linear::views(point.p0@),
        linear::views(point.p1@),
    );
}

/// At a point whose coordinates are the bits of `i` and of `j`, least significant first, the witness
/// is worth entry `i` of column `j`, and the row evaluation lists entry `i` of every column.
pub proof fn corner_values(w: &Witness, point: EvaluationPoint, i: int, j: int)
    requires
        w.wf(),
        w.fits(&point),
        0 <= i < pow2(point.p0@.len()),
        0 <= j < pow2(point.p1@.len()),
        linear::views(point.p0@) == eval::corner(point.p0@.len(), i),
        linear::views(point.p1@) == eval::corner(point.p1@.len(), j),
    ensures
        0 <= i + pow2(point.p0@.len()) * j < w.elements@.len(),
        scalar::f162().mle(linear::views(w.elements@), point.msb()) == w.elements@[i + pow2(
            point.p0@.len(),
        ) * j]@,
        forall|c: int|
            #![trigger eval::rows(linear::views(w.elements@), linear::views(point.p0@))[c]]
            0 <= c < pow2(point.p1@.len()) ==> eval::rows(
                linear::views(w.elements@),
                linear::views(point.p0@),
            )[c] == w.elements@[i + pow2(point.p0@.len()) * c]@,
{
    let (a, b) = (point.p0@.len(), point.p1@.len());
    let e = linear::views(w.elements@);
    honest_claim(w, point);
    lemma_pow2_adds(a, b);
    assert(w.elements@.len() == pow2(a) * pow2(b));
    let u = eval::rows(e, linear::views(point.p0@));
    assert forall|c: int| 0 <= c < pow2(b) implies #[trigger] u[c] == e[i + pow2(a) * c] && 0 <= i
        + pow2(a) * c < w.elements@.len() by {
        let (x, y) = (pow2(a) as int, pow2(b) as int);
        assert(0 <= x * c && x * c + x <= x * y) by (nonlinear_arith)
            requires
                0 <= c,
                c + 1 <= y,
                0 <= x,
        ;
        eval::row_at_corner(e, a, i, c);
    }
    assert forall|c: int| 0 <= c < u.len() implies scalar::f162().elem(#[trigger] u[c]) by {
        assert(u[c] == e[i + pow2(a) * c]);
    }
    assert(u[j] == e[i + pow2(a) * j]);
    eval::claim_at_corner(u, b, j);
}

/// No coefficient of `sum_j c_j W_j` leaves the centred range of `q`.
pub open spec fn no_wrap(q: u16, c: Seq<ShortChallenge>, w: Seq<Seq<Seq<int>>>, n: nat) -> bool {
    forall|i: int, x: int|
        0 <= i < n && 0 <= x < 648 ==> -((q - 1) / 2) <= (#[trigger] ajtai::fold_poly(
            fold::challenge_list(c),
            w,
            i,
            c.len(),
        )[x]) <= (q - 1) / 2
}

/// A fold that does not wrap is the fold over the integers.
pub proof fn lemma_exact(q: u16, c: Seq<ShortChallenge>, w: Seq<Seq<Seq<int>>>, v: Seq<RingElement>)
    requires
        params::limb_prime(q),
        fold::is_folded(q, c, w, v),
        no_wrap(q, c, w, v.len()),
    ensures
        forall|i: int, x: int|
            0 <= i < v.len() && 0 <= x < 648 ==> (#[trigger] fold::integers(v)[i][x])
                == ajtai::fold_poly(fold::challenge_list(c), w, i, c.len())[x],
{
    let n = q as int;
    assert forall|i: int, x: int| 0 <= i < v.len() && 0 <= x < 648 implies (
    #[trigger] fold::integers(v)[i][x]) == ajtai::fold_poly(
        fold::challenge_list(c),
        w,
        i,
        c.len(),
    )[x] by {
        let f = ajtai::fold_poly(fold::challenge_list(c), w, i, c.len())[x];
        assert(v[i].v@[x] == uniform::centre(f % n, n));
        if f >= 0 {
            lemma_small_mod(f as nat, n as nat);
        } else {
            modular::lemma_multiple(f, 1, n);
            lemma_small_mod((f + n) as nat, n as nat);
        }
    }
}

/// The image of an honest fold is the folded commitment, modulo every prime of the key.
proof fn lemma_image_matches(
    key: CommitmentKey,
    w: &Witness,
    aux: AuxData,
    m: VerticallyAlignedMatrix<PowerOfThreeRingElementWithLimbs>,
    c: Seq<ShortChallenge>,
    fc: FoldedCommitment,
    v: Seq<RingElement>,
    k: int,
)
    requires
        key.wf(),
        w.wf(),
        key.len_f162 == pow2((w.params.witness_log_len - w.params.column_log_len) as nat),
        prover::opens(key, w, aux),
        prover::is_matrix(key, aux, m),
        fold::sound(c),
        c.len() == pow2(w.params.column_log_len as nat),
        verify::is_folded_commitment(key, m, c, fc),
        v.len() == key.len_f162 / 4,
        fold::is_folded(key.prime_at(0), c, prover::columns_of(w), v),
        no_wrap(key.prime_at(0), c, prover::columns_of(w), v.len()),
        0 <= k < key.a@.len(),
    ensures
        verify::image_matches(key, fc, v, k),
{
    let (q, cl, cols) = (key.prime_at(k), fold::challenge_list(c), prover::columns_of(w));
    let (n, a, vi) = (q as int, key.a@[k]@, fold::integers(v));
    let z = Seq::new(c.len(), |j: int| poly::ints(aux.raw@[k]@[j]@));
    let y = verify::image_rows(q, a, vi);
    assert(params::limb_prime(key.prime_list()[k]));
    assert(params::limb_prime(key.prime_list()[0]));
    lemma_exact(key.prime_at(0), c, cols, v);
    prover::lemma_columns_shaped(w);
    assert forall|j: int| 0 <= j < cl.len() implies ajtai::sparse(#[trigger] cl[j]) by {
        parity::lemma_sparse(c[j]);
    }
    assert(ajtai::shapes(cl, cols, vi.len()));
    assert forall|r: int| 0 <= r < 648 implies same(
        #[trigger] y[r],
        ajtai::dot(q, ajtai::lanes(a), ajtai::all_hats(q, vi), r, vi.len()),
        n,
    ) by {
        modular::lemma_reduced(
            ajtai::dot(q, ajtai::lanes(a), ajtai::all_hats(q, vi), r, vi.len()),
            n,
        );
    }
    assert forall|j: int| 0 <= j < z.len() implies ajtai::is_image(
        q,
        ajtai::lanes(a),
        cols[j],
        #[trigger] z[j],
    ) by {
        assert(key::is_commitment(
            q,
            a,
            key::column(w.elements@, key.len_f162 as nat, j),
            aux.raw@[k]@[j]@,
        ));
        assert forall|r: int| 0 <= r < 648 implies same(
            #[trigger] z[j][r],
            ajtai::dot(q, ajtai::lanes(a), ajtai::all_hats(q, cols[j]), r, cols[j].len()),
            n,
        ) by {
            let d = ajtai::dot(q, ajtai::lanes(a), ajtai::all_hats(q, cols[j]), r, cols[j].len());
            assert(aux.raw@[k]@[j]@[r] == d % n);
            modular::lemma_reduced(d, n);
        }
    }
    assert forall|t: int, s: int| 0 <= t < 4 && 0 <= s < 162 implies (
    #[trigger] fc.rows@[t].limbs@[k].v@[s]) == uniform::centre(
        decompose::decomposed(q, y, t, s),
        n,
    ) by {
        ajtai::fold_commutes(q, ajtai::lanes(a), cl, cols, vi, z, y, t, s);
        let x = ajtai::chis(q, cl, s);
        let f = |j: int| decompose::decomposed(q, z[j], t, s);
        let g = |j: int| m.at(t, j).limbs@[k].v@[s] as int;
        assert forall|j: int| 0 <= j < c.len() implies same(#[trigger] f(j), g(j), n) by {
            let e = m.at(t, j);
            assert(key::is_entry(key, aux.raw@, e, t, j));
            assert(key::is_centred(q, aux.raw@[k]@[j]@, t, e.limbs@[k].v@));
            assert(e.limbs@[k].v@[s] == uniform::centre(
                decompose::decomposed(q, poly::ints(aux.raw@[k]@[j]@), t, s),
                n,
            ));
            let d = decompose::decomposed(q, z[j], t, s);
            let g0 = decompose::scaling(q, t, s) * decompose::gathered(q, z[j], t, s);
            lemma_mod_twice(g0, n);
            fold::lemma_centre(d, n);
        }
        ajtai::lemma_weighted_same(x, f, g, c.len(), n);
        assert(fc.rows@[t].limbs@[k].v@[s] == uniform::centre(
            fold::folded_slot(q, c, m, k, t, s),
            n,
        ));
    }
}

/// The parities of an honest fold, weighted, are the folded row evaluation.
pub proof fn lemma_parity_matches(
    w: &Witness,
    c: Seq<ShortChallenge>,
    v: Seq<RingElement>,
    p0: Seq<F162>,
)
    requires
        w.wf(),
        fold::sound(c),
        c.len() == pow2(w.params.column_log_len as nat),
        linear::all_wf(p0),
        p0.len() == w.params.witness_log_len - w.params.column_log_len,
        4 * v.len() == pow2(p0.len()),
        forall|i: int, x: int|
            0 <= i < v.len() && 0 <= x < 648 ==> (#[trigger] fold::integers(v)[i][x])
                == ajtai::fold_poly(
                fold::challenge_list(c),
                prover::columns_of(w),
                i,
                c.len(),
            )[x],
    ensures
        scalar::f162().dot(
            eval::parity(fold::integers(v)),
            eval::weights(linear::views(p0)),
        ) == eval::folded_row(
            eval::rows(linear::views(w.elements@), linear::views(p0)),
            c,
            c.len(),
        ),
{
    let f = scalar::f162();
    let (n, m) = (pow2(p0.len()), c.len());
    let cols = prover::columns_of(w);
    let ww = linear::views(w.elements@);
    let pv = eval::parity(fold::integers(v));
    let wt = eval::weights(linear::views(p0));
    let cl = fold::challenge_list(c);
    prover::lemma_columns_shaped(w);
    w.params.lemma_distinct();
    lemma_pow2_adds(w.params.column_log_len as nat, p0.len());
    assert(w.elements@.len() == m * n);
    lemma_pow2_pos(p0.len());
    lemma_weights(p0);
    let h = |e: int, j: int| f.mul(wt[e], f.mul(ww[e + n * j], eval::mod2(c[j])));
    // each parity is a sum over the columns
    assert forall|e: int| 0 <= e < n implies (#[trigger] pv[e]) == f.total(
        |j: int| f.mul(ww[e + n * j], eval::mod2(c[j])),
        m,
    ) by {
        let (i, k) = (e / 4, e % 4);
        assert forall|j: int| 0 <= j < m implies (#[trigger] cols[j])[i].len() == 648 by {
            assert(cols[j][i].len() == 648);
        }
        parity::fold_parity(c, cols, i, k, m);
        let fp = ajtai::fold_poly(cl, cols, i, m);
        assert(pv[e] =~= parity::comp(fp, k)) by {
            assert forall|t: int| 0 <= t < 162 implies pv[e][t] == parity::comp(fp, k)[t] by {
                assert(fold::integers(v)[i][4 * t + k] == fp[4 * t + k]);
            }
        }
        let g1 = |j: int| f.mul(parity::comp(cols[j][i], k), eval::mod2(c[j]));
        let g2 = |j: int| f.mul(ww[e + n * j], eval::mod2(c[j]));
        assert forall|j: int| 0 <= j < m implies #[trigger] g1(j) == g2(j) by {
            lemma_index(n as int, m as int, e, j);
            let o = j * n + 4 * i;
            assert(cols[j][i] == key::ring_element(w.elements@, o));
            assert(o + k == e + n * j) by {
                assert(j * n == n * j) by (nonlinear_arith);
            }
            assert(parity::comp(cols[j][i], k) =~= ww[e + n * j]) by {
                assert forall|t: int| 0 <= t < 162 implies parity::comp(cols[j][i], k)[t] == ww[e
                    + n * j][t] by {
                    assert((4 * t + k) % 4 == k && (4 * t + k) / 4 == t);
                }
            }
        }
        f.total_ext(g1, g2, m);
    }
    // the weighted sum of the parities
    let d1 = |e: int| f.mul(pv[e], wt[e]);
    let d2 = |e: int| f.total(|j: int| h(e, j), m);
    assert forall|e: int| 0 <= e < n implies #[trigger] d1(e) == d2(e) by {
        let g = |j: int| f.mul(ww[e + n * j], eval::mod2(c[j]));
        f.total_elem(g, m);
        f.mul_comm(pv[e], wt[e]);
        f.total_mul(wt[e], g, m);
        f.total_ext(|j: int| f.mul(wt[e], g(j)), |j: int| h(e, j), m);
    }
    f.total_ext(d1, d2, n);
    assert(pv.len() == n);
    assert(f.dot(pv, wt) == f.total(d1, n)) by {
        f.total_ext(|e: int| f.mul(pv[e], wt[e]), d1, n);
    }
    f.total_exchange(h, n, m);
    // the folded rows
    let rows = eval::rows(ww, linear::views(p0));
    let r1 = |j: int| f.mul(rows[j], eval::mod2(c[j]));
    let r2 = |j: int| f.total(|e: int| h(e, j), n);
    assert(rows.len() == m) by {
        lemma_div_multiples_vanish(m as int, n as int);
        assert(m * n == n * m) by (nonlinear_arith);
    }
    assert forall|j: int| 0 <= j < m implies #[trigger] r1(j) == r2(j) by {
        let g = |e: int| f.mul(ww[e + n * j], wt[e]);
        let b = eval::mod2(c[j]);
        f.total_elem(g, n);
        assert(rows[j] == f.total(g, n)) by {
            f.total_ext(
                |i: int| f.mul(ww[i + pow2(linear::views(p0).len()) * j], wt[i]),
                g,
                n,
            );
        }
        f.mul_comm(rows[j], b);
        f.total_mul(b, g, n);
        let x1 = |e: int| f.mul(b, g(e));
        let x2 = |e: int| h(e, j);
        assert forall|e: int| 0 <= e < n implies #[trigger] x1(e) == x2(e) by {
            lemma_index(n as int, m as int, e, j);
            let (a, x) = (ww[e + n * j], wt[e]);
            assert(f.elem(x));
            f.mul_comm(a, x);
            f.mul_comm(b, f.mul(x, a));
            f.mul_assoc(x, a, b);
        }
        f.total_ext(x1, x2, n);
        f.total_ext(|e: int| f.mul(b, g(e)), x1, n);
    }
    f.total_ext(r1, r2, m);
    f.total_ext(|j: int| f.mul(rows[j], eval::mod2(c[j])), r1, m);
    f.total_ext(|e: int| f.total(|j: int| h(e, j), m), d2, n);
    f.total_ext(|j: int| f.total(|e: int| h(e, j), n), r2, m);
}

proof fn lemma_index(n: int, m: int, e: int, j: int)
    requires
        0 <= e < n,
        0 <= j < m,
    ensures
        0 <= e + n * j < m * n,
{
    assert(0 <= n * j && n * j + n <= m * n) by (nonlinear_arith)
        requires
            0 <= j,
            j + 1 <= m,
            0 <= n,
    ;
}

proof fn lemma_weights(p0: Seq<F162>)
    ensures
        eval::weights(linear::views(p0)).len() == pow2(p0.len()),
        scalar::f162().elems(eval::weights(linear::views(p0))),
{
    let p = linear::views(p0).reverse();
    scalar::f162().eq_shape(p);
}

/// An honest opening in the clear is accepted: if the prover opens its own commitment, the fold
/// does not wrap around the base modulus and is short, and the folded row value is that of the
/// honest row evaluation, every check of the verifier holds.
pub proof fn honest_opening(
    key: CommitmentKey,
    w: &Witness,
    aux: AuxData,
    m: VerticallyAlignedMatrix<PowerOfThreeRingElementWithLimbs>,
    c: Seq<ShortChallenge>,
    fc: FoldedCommitment,
    v: Seq<RingElement>,
    point: EvaluationPoint,
    value: F162,
    cap: u64,
)
    requires
        key.wf(),
        w.wf(),
        w.fits(&point),
        key.prime_list() == w.params.prime_list(),
        key.len_f162 == pow2((w.params.witness_log_len - w.params.column_log_len) as nat),
        prover::opens(key, w, aux),
        prover::is_matrix(key, aux, m),
        fold::sound(c),
        c.len() == pow2(w.params.column_log_len as nat),
        verify::is_folded_commitment(key, m, c, fc),
        v.len() == key.len_f162 / 4,
        fold::is_folded(key.prime_at(0), c, prover::columns_of(w), v),
        no_wrap(key.prime_at(0), c, prover::columns_of(w), v.len()),
        verify::is_short(v, key.prime_at(0), cap),
        value@ == eval::folded_row(
            eval::rows(linear::views(w.elements@), linear::views(point.p0@)),
            c,
            c.len(),
        ),
    ensures
        verify::accepts_clear(key, w.params, cap, fc, v, point, value),
{
    assert forall|k: int| 0 <= k < key.a@.len() implies #[trigger] verify::image_matches(
        key,
        fc,
        v,
        k,
    ) by {
        lemma_image_matches(key, w, aux, m, c, fc, v, k);
    }
    assert(params::limb_prime(key.prime_list()[0]));
    lemma_exact(key.prime_at(0), c, prover::columns_of(w), v);
    lemma_parity_matches(w, c, v, point.p0@);
}

/// Acceptance in the clear binds the image: where the folded commitment is the one that the verifier
/// folds itself, `A v = sum_j c_j C_j` holds in every component modulo every prime.
pub proof fn accepted_image(
    key: CommitmentKey,
    p: super::params::Params,
    cap: u64,
    m: VerticallyAlignedMatrix<PowerOfThreeRingElementWithLimbs>,
    c: Seq<ShortChallenge>,
    fc: FoldedCommitment,
    v: Seq<RingElement>,
    point: EvaluationPoint,
    value: F162,
)
    requires
        key.wf(),
        verify::is_folded_commitment(key, m, c, fc),
        verify::accepts_clear(key, p, cap, fc, v, point, value),
    ensures
        forall|k: int, t: int, s: int|
            0 <= k < key.a@.len() && 0 <= t < 4 && 0 <= s < 162 ==> #[trigger] fold::folded_slot(
                key.prime_at(k),
                c,
                m,
                k,
                t,
                s,
            ) == decompose::decomposed(
                key.prime_at(k),
                verify::image_rows(key.prime_at(k), key.a@[k]@, fold::integers(v)),
                t,
                s,
            ),
{
    assert forall|k: int, t: int, s: int|
        0 <= k < key.a@.len() && 0 <= t < 4 && 0 <= s < 162 implies #[trigger] fold::folded_slot(
        key.prime_at(k),
        c,
        m,
        k,
        t,
        s,
    ) == decompose::decomposed(
        key.prime_at(k),
        verify::image_rows(key.prime_at(k), key.a@[k]@, fold::integers(v)),
        t,
        s,
    ) by {
        let q = key.prime_at(k);
        let y = verify::image_rows(q, key.a@[k]@, fold::integers(v));
        assert(params::limb_prime(key.prime_list()[k]));
        params::lemma_limb(q);
        assert(verify::image_matches(key, fc, v, k));
        let x = fc.rows@[t].limbs@[k].v@[s] as int;
        let (a, b) = (decompose::decomposed(q, y, t, s), fold::folded_slot(q, c, m, k, t, s));
        assert(x == uniform::centre(a, q as int));
        assert(x == uniform::centre(b, q as int));
        let f = |j: int| m.at(t, j).limbs@[k].v@[s] as int;
        lemma_mod_bound(
            ajtai::weighted(ajtai::chis(q, fold::challenge_list(c), s), f, c.len()),
            q as int,
        );
        lemma_mod_bound(decompose::scaling(q, t, s) * decompose::gathered(q, y, t, s), q as int);
    }
}

} // verus!
