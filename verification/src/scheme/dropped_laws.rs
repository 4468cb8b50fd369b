//! What dropping bits costs: the error of an honest bit-dropped opening is the fold of the
//! rounding errors.
use super::commitment::{Commitment, EvaluationPoint};
use super::laws;
use super::params::Params;
use super::prover;
use super::verify;
use super::witness::Witness;
use crate::ajtai;
use crate::bd;
use crate::bd::digits;
use crate::bd::garner;
use crate::bd::residual;
use crate::bd::Dropped;
use crate::challenge::short::ShortChallenge;
use crate::eval;
use crate::fields::linear;
use crate::fields::scalar::F162;
use crate::fold;
use crate::key;
use crate::key::{AuxData, CommitmentKey};
use crate::modular;
use crate::modular::same;
use crate::ntt::poly;
use crate::params;
use crate::parity;
use crate::ring::decompose;
use crate::ring::RingElement;
use crate::scalar;
use crate::wire::commitment::held;
use vstd::arithmetic::power2::*;
use vstd::prelude::*;

verus! {

/// The product of transforms associates and commutes.
proof fn lemma_times_swap(q: u16, a: Seq<int>, c: Seq<int>, w: Seq<int>, r: int)
    requires
        0 <= r < 648,
    ensures
        times(q, a, row_times(q, c, w), r) == times(q, c, row_times(q, a, w), r),
{
    if params::splitting(q) {
        let (x, y, z) = (a[r], c[r], w[r]);
        assert(x * (y * z) == y * (x * z)) by (nonlinear_arith);
    } else {
        let (e, o, d) = (2 * (r / 2), 2 * (r / 2) + 1, scalar::point(q, r / 2));
        assert(e / 2 == r / 2 && o / 2 == r / 2 && e % 2 == 0 && o % 2 == 1);
        lemma_leaf_swap(d, a[e], a[o], c[e], c[o], w[e], w[o]);
    }
}

proof fn lemma_leaf_swap(d: int, a0: int, a1: int, c0: int, c1: int, w0: int, w1: int)
    ensures
        a0 * (c0 * w0 + d * (c1 * w1)) + d * (a1 * (c0 * w1 + c1 * w0)) == c0 * (a0 * w0 + d * (a1
            * w1)) + d * (c1 * (a0 * w1 + a1 * w0)),
        a0 * (c0 * w1 + c1 * w0) + a1 * (c0 * w0 + d * (c1 * w1)) == c0 * (a0 * w1 + a1 * w0) + c1
            * (a0 * w0 + d * (a1 * w1)),
{
    lemma_add2(a0, c0 * w0, d * (c1 * w1));
    lemma_add2(a1, c0 * w1, c1 * w0);
    lemma_add2(d, a1 * (c0 * w1), a1 * (c1 * w0));
    lemma_add2(c0, a0 * w0, d * (a1 * w1));
    lemma_add2(c1, a0 * w1, a1 * w0);
    lemma_add2(d, c1 * (a0 * w1), c1 * (a1 * w0));
    lemma_swap3(a0, c0, w0);
    lemma_swap3(a0, d, c1 * w1);
    lemma_swap3(a0, c1, w1);
    lemma_swap3(a1, c0, w1);
    lemma_swap3(d, c0, a1 * w1);
    lemma_swap3(a1, c1, w0);
    lemma_add2(a0, c0 * w1, c1 * w0);
    lemma_add2(a1, c0 * w0, d * (c1 * w1));
    lemma_add2(c0, a0 * w1, a1 * w0);
    lemma_add2(c1, a0 * w0, d * (a1 * w1));
    lemma_swap3(a0, c0, w1);
    lemma_swap3(a0, c1, w0);
    lemma_swap3(a1, c0, w0);
    lemma_swap3(a1, d, c1 * w1);
    lemma_swap3(a1, c1, w1);
    lemma_swap3(c1, d, a1 * w1);
}

proof fn lemma_add2(x: int, y: int, z: int)
    ensures
        x * (y + z) == x * y + x * z,
{
    assert(x * (y + z) == x * y + x * z) by (nonlinear_arith);
}

proof fn lemma_swap3(x: int, y: int, z: int)
    ensures
        x * (y * z) == y * (x * z),
{
    assert(x * (y * z) == y * (x * z)) by (nonlinear_arith);
}

spec fn times(q: u16, x: Seq<int>, y: Seq<int>, r: int) -> int {
    ajtai::times(q, x, y, r)
}

/// All rows of a product.
spec fn row_times(q: u16, x: Seq<int>, y: Seq<int>) -> Seq<int> {
    Seq::new(648, |r: int| ajtai::times(q, x, y, r))
}

/// All rows of an image over the first `n` terms.
pub open spec fn rows_to(q: u16, a: Seq<Seq<int>>, w: Seq<Seq<int>>, n: nat) -> Seq<int> {
    Seq::new(648, |r: int| ajtai::dot(q, a, ajtai::all_hats(q, w), r, n))
}

/// The images of the columns over the first `n` terms.
pub open spec fn images_to(q: u16, a: Seq<Seq<int>>, w: Seq<Seq<Seq<int>>>, n: nat) -> Seq<Seq<int>> {
    Seq::new(w.len(), |j: int| rows_to(q, a, w[j], n))
}

/// Products are additive in the second factor.
proof fn lemma_times_plus(q: u16, x: Seq<int>, y: Seq<int>, z: Seq<int>, s: Seq<int>, r: int)
    requires
        0 <= r < 648,
        forall|i: int| 0 <= i < 648 ==> (#[trigger] s[i]) == y[i] + z[i],
    ensures
        times(q, x, s, r) == times(q, x, y, r) + times(q, x, z, r),
{
    if params::splitting(q) {
        let (a, b, c) = (x[r], y[r], z[r]);
        assert(s[r] == y[r] + z[r]);
        assert(a * (b + c) == a * b + a * c) by (nonlinear_arith);
    } else {
        let (e, o, d) = (2 * (r / 2), 2 * (r / 2) + 1, scalar::point(q, r / 2));
        assert(s[e] == y[e] + z[e] && s[o] == y[o] + z[o]);
        let (x0, x1, y0, y1, z0, z1) = (x[e], x[o], y[e], y[o], z[e], z[o]);
        assert(x0 * (y0 + z0) == x0 * y0 + x0 * z0) by (nonlinear_arith);
        assert(x1 * (y1 + z1) == x1 * y1 + x1 * z1) by (nonlinear_arith);
        assert(x0 * (y1 + z1) == x0 * y1 + x0 * z1) by (nonlinear_arith);
        assert(x1 * (y0 + z0) == x1 * y0 + x1 * z0) by (nonlinear_arith);
        let (u, v) = (x1 * y1, x1 * z1);
        assert(d * (u + v) == d * u + d * v) by (nonlinear_arith);
    }
}

/// Sums of products are additive in the second factors.
proof fn lemma_dot_plus(
    q: u16,
    c: Seq<Seq<int>>,
    y: Seq<Seq<int>>,
    z: Seq<Seq<int>>,
    s: Seq<Seq<int>>,
    r: int,
    m: nat,
)
    requires
        0 <= r < 648,
        forall|j: int, i: int|
            0 <= j < m && 0 <= i < 648 ==> (#[trigger] s[j][i]) == y[j][i] + z[j][i],
    ensures
        ajtai::dot(q, c, s, r, m) == ajtai::dot(q, c, y, r, m) + ajtai::dot(q, c, z, r, m),
    decreases m,
{
    if m > 0 {
        lemma_dot_plus(q, c, y, z, s, r, (m - 1) as nat);
        assert forall|i: int| 0 <= i < 648 implies (#[trigger] s[m - 1][i]) == y[m - 1][i] + z[m
            - 1][i] by {}
        lemma_times_plus(q, c[m - 1], y[m - 1], z[m - 1], s[m - 1], r);
    }
}

/// A key element times a fold is the fold of the products.
proof fn lemma_term(
    q: u16,
    a: Seq<int>,
    c: Seq<Seq<int>>,
    w: Seq<Seq<Seq<int>>>,
    x: Seq<int>,
    i: int,
    r: int,
    m: nat,
)
    requires
        params::limb_prime(q),
        m <= c.len(),
        m <= w.len(),
        forall|j: int| 0 <= j < m ==> (#[trigger] c[j]).len() == 648,
        forall|j: int| 0 <= j < m ==> (#[trigger] w[j])[i].len() == 648,
        0 <= r < 648,
        forall|t: int|
            0 <= t < 648 ==> same(
                #[trigger] x[t],
                ajtai::hat(q, ajtai::fold_poly(c, w, i, m), t),
                q as int,
            ),
    ensures
        same(
            times(q, a, x, r),
            ajtai::dot(
                q,
                ajtai::all_hats(q, c),
                Seq::new(m, |j: int| row_times(q, a, ajtai::hats(q, w[j][i]))),
                r,
                m,
            ),
            q as int,
        ),
{
    let n = q as int;
    let ch = ajtai::all_hats(q, c);
    let y = Seq::new(m, |j: int| ajtai::hats(q, w[j][i]));
    let z = Seq::new(m, |j: int| row_times(q, a, ajtai::hats(q, w[j][i])));
    let s = Seq::new(648, |t: int| ajtai::dot(q, ch, y, t, m));
    assert forall|t: int| 0 <= t < 648 implies same(#[trigger] x[t], s[t], n) by {
        fold::lemma_fold_transform(q, c, w, y, i, m, t);
    }
    ajtai::lemma_times_same(q, a, x, a, s, r);
    lemma_swap_dot(q, a, ch, y, z, s, r, m);
}

proof fn lemma_swap_dot(
    q: u16,
    a: Seq<int>,
    c: Seq<Seq<int>>,
    y: Seq<Seq<int>>,
    z: Seq<Seq<int>>,
    s: Seq<int>,
    r: int,
    m: nat,
)
    requires
        0 <= r < 648,
        s == Seq::new(648, |t: int| ajtai::dot(q, c, y, t, m)),
        m <= y.len(),
        m <= z.len(),
        forall|j: int| 0 <= j < m ==> (#[trigger] z[j]) == row_times(q, a, y[j]),
    ensures
        times(q, a, s, r) == ajtai::dot(q, c, z, r, m),
    decreases m,
{
    if m == 0 {
        let (e, o, d) = (2 * (r / 2), 2 * (r / 2) + 1, scalar::point(q, r / 2));
        let (x, x0, x1) = (a[r], a[e], a[o]);
        assert(x * 0 == 0 && x0 * 0 == 0 && x1 * 0 == 0 && d * 0 == 0) by (nonlinear_arith);
        assert(0 <= e < 648 && 0 <= o < 648);
        assert(s[r] == 0 && s[e] == 0 && s[o] == 0);
    } else {
        let k = (m - 1) as nat;
        let s0 = Seq::new(648, |t: int| ajtai::dot(q, c, y, t, k));
        let l = row_times(q, c[m - 1], y[m - 1]);
        lemma_swap_dot(q, a, c, y, z, s0, r, k);
        lemma_times_plus(q, a, s0, l, s, r);
        lemma_times_swap(q, a, c[m - 1], y[m - 1], r);
        assert(z[m - 1] == row_times(q, a, y[m - 1]));
    }
}

/// The image of a fold is the fold of the images, over the first `n` terms.
proof fn lemma_image_fold(
    q: u16,
    a: Seq<Seq<int>>,
    c: Seq<Seq<int>>,
    w: Seq<Seq<Seq<int>>>,
    v: Seq<Seq<int>>,
    r: int,
    n: nat,
)
    requires
        params::limb_prime(q),
        ajtai::shapes(c, w, v.len()),
        n <= v.len(),
        forall|i: int| 0 <= i < v.len() ==> (#[trigger] v[i]).len() == 648,
        ajtai::is_fold(q, c, w, v),
        0 <= r < 648,
    ensures
        same(
            ajtai::dot(q, a, ajtai::all_hats(q, v), r, n),
            ajtai::dot(q, ajtai::all_hats(q, c), images_to(q, a, w, n), r, c.len()),
            q as int,
        ),
    decreases n,
{
    let (m, p) = (c.len(), q as int);
    let ch = ajtai::all_hats(q, c);
    if n == 0 {
        lemma_dot_zero(q, ch, images_to(q, a, w, 0), r, m);
    } else {
        let (k, i) = ((n - 1) as nat, n - 1);
        lemma_image_fold(q, a, c, w, v, r, k);
        let x = ajtai::hats(q, v[i]);
        let z = Seq::new(m, |j: int| row_times(q, a[i], ajtai::hats(q, w[j][i])));
        let fp = ajtai::fold_poly(c, w, i, m);
        ajtai::lemma_fold_len(c, w, i, m);
        assert(v[i].len() == 648);
        assert forall|t: int| 0 <= t < 648 implies same(#[trigger] v[i][t], fp[t], p) by {}
        assert forall|t: int| 0 <= t < 648 implies same(
            #[trigger] x[t],
            ajtai::hat(q, fp, t),
            p,
        ) by {
            poly::lemma_coefficients(v[i], fp, 0, 1, scalar::point(q, t), p);
            poly::lemma_coefficients(v[i], fp, t % 2, 2, scalar::point(q, t / 2), p);
        }
        assert forall|j: int| 0 <= j < m implies (#[trigger] c[j]).len() == 648 by {
            assert(ajtai::sparse(c[j]));
        }
        assert forall|j: int| 0 <= j < m implies (#[trigger] w[j])[i].len() == 648 by {
            assert(w[j][i].len() == 648);
        }
        lemma_term(q, a[i], c, w, x, i, r, m);
        let (y, s) = (images_to(q, a, w, k), images_to(q, a, w, n));
        assert forall|j: int, t: int| 0 <= j < m && 0 <= t < 648 implies (#[trigger] s[j][t])
            == y[j][t] + z[j][t] by {
            assert(w[j].len() == v.len());
            assert(ajtai::all_hats(q, w[j])[i] == ajtai::hats(q, w[j][i]));
        }
        lemma_dot_plus(q, ch, y, z, s, r, m);
        modular::lemma_add(
            ajtai::dot(q, a, ajtai::all_hats(q, v), r, k),
            times(q, a[i], x, r),
            ajtai::dot(q, ch, y, r, m),
            ajtai::dot(q, ch, z, r, m),
            p,
        );
    }
}

proof fn lemma_dot_zero(q: u16, c: Seq<Seq<int>>, y: Seq<Seq<int>>, r: int, m: nat)
    requires
        0 <= r < 648,
        forall|j: int, t: int| 0 <= j < m && 0 <= t < 648 ==> (#[trigger] y[j][t]) == 0,
    ensures
        ajtai::dot(q, c, y, r, m) == 0,
    decreases m,
{
    if m > 0 {
        lemma_dot_zero(q, c, y, r, (m - 1) as nat);
        let (e, o, d) = (2 * (r / 2), 2 * (r / 2) + 1, scalar::point(q, r / 2));
        let x = c[m - 1];
        let (x2, x0, x1) = (x[r], x[e], x[o]);
        assert(0 <= e < 648 && 0 <= o < 648);
        assert(y[m - 1][r] == 0 && y[m - 1][e] == 0 && y[m - 1][o] == 0);
        assert(x2 * 0 == 0 && x0 * 0 == 0 && x1 * 0 == 0 && d * 0 == 0) by (nonlinear_arith);
    }
}

/// The rounding errors of the columns: coefficient `x` of column `j` moved by `f[j][0][x]`.
pub open spec fn is_rounding(d: Dropped, c: Seq<Seq<[u32; 648]>>, f: Seq<Seq<Seq<int>>>) -> bool {
    &&& f.len() == d.columns
    &&& forall|j: int| 0 <= j < f.len() ==> (#[trigger] f[j]).len() == 1 && f[j][0].len() == 648
    &&& forall|j: int, x: int|
        0 <= j < f.len() && 0 <= x < 648 ==> {
            &&& -pow2((d.dropped_bits - 1) as nat) <= (#[trigger] f[j][0][x])
            &&& f[j][0][x] <= pow2((d.dropped_bits - 1) as nat)
        }
    &&& forall|j: int, x: int, k: int|
        0 <= j < f.len() && 0 <= x < 648 && 0 <= k < d.primes@.len() ==> same(
            digits::value(d, 648 * j + x),
            (#[trigger] c[j][k]@[x]) + #[trigger] f[j][0][x],
            d.primes@[k] as int,
        )
}

/// Dropping bits has rounding errors.
pub proof fn rounding(d: Dropped, c: Seq<Seq<[u32; 648]>>) -> (f: Seq<Seq<Seq<int>>>)
    requires
        d.wf(),
        c.len() == d.columns,
        forall|j: int|
            0 <= j < c.len() ==> (#[trigger] c[j]).len() == d.primes@.len() && digits::is_dropped(
                d,
                c[j],
                j,
            ),
    ensures
        is_rounding(d, c, f),
{
    let f = Seq::new(
        d.columns as nat,
        |j: int| seq![Seq::new(648, |x: int| moved(d, c, j, x))],
    );
    assert forall|j: int, x: int| 0 <= j < d.columns && 0 <= x < 648 implies is_move(
        d,
        c,
        j,
        x,
        #[trigger] f[j][0][x],
    ) by {
        assert(digits::is_dropped(d, c[j], j));
        let w = digits::drop_error(d, c[j], j, x);
        assert(is_move(d, c, j, x, w));
    }
    f
}

/// `w` is how far a coefficient moved.
spec fn is_move(d: Dropped, c: Seq<Seq<[u32; 648]>>, j: int, x: int, w: int) -> bool {
    &&& -pow2((d.dropped_bits - 1) as nat) <= w <= pow2((d.dropped_bits - 1) as nat)
    &&& forall|k: int|
        0 <= k < d.primes@.len() ==> same(
            digits::value(d, 648 * j + x),
            (#[trigger] c[j][k]@[x]) + w,
            d.primes@[k] as int,
        )
}

spec fn moved(d: Dropped, c: Seq<Seq<[u32; 648]>>, j: int, x: int) -> int {
    choose|w: int| is_move(d, c, j, x, w)
}

/// The negated fold of the rounding errors.
pub open spec fn folded_rounding(c: Seq<ShortChallenge>, f: Seq<Seq<Seq<int>>>) -> Seq<int> {
    let g = ajtai::fold_poly(fold::challenge_list(c), f, 0, c.len());
    Seq::new(648, |x: int| -g[x])
}

/// The transform of a dropped column: that of the column and that of its rounding errors.
proof fn lemma_dropped_hat(
    q: u16,
    col: Seq<int>,
    a: Seq<u32>,
    f: Seq<int>,
    y: Seq<u32>,
    r: int,
)
    requires
        params::limb_prime(q),
        col.len() == 648,
        a.len() == 648,
        f.len() == 648,
        decompose::is_transform(q, y, poly::ints(a)),
        forall|x: int| 0 <= x < 648 ==> same(#[trigger] col[x], a[x] + f[x], q as int),
        0 <= r < 648,
    ensures
        same(ajtai::hat(q, col, r), y[r] + ajtai::hat(q, f, r), q as int),
{
    let n = q as int;
    let b = poly::ints(a);
    let s = poly::plus(b, f);
    assert forall|x: int| 0 <= x < 648 implies same(#[trigger] col[x], s[x], n) by {}
    poly::lemma_coefficients(col, s, 0, 1, scalar::point(q, r), n);
    poly::lemma_coefficients(col, s, r % 2, 2, scalar::point(q, r / 2), n);
    poly::lemma_plus(b, f, 0, 1, scalar::point(q, r));
    poly::lemma_plus(b, f, r % 2, 2, scalar::point(q, r / 2));
    ajtai::lemma_rows(q, y, b, r);
    modular::lemma_add(
        y[r] as int,
        ajtai::hat(q, f, r),
        ajtai::hat(q, b, r),
        ajtai::hat(q, f, r),
        n,
    );
}

/// The error of an honest bit-dropped opening modulo one prime.
proof fn lemma_error_row(
    key: CommitmentKey,
    w: &Witness,
    aux: AuxData,
    d: Dropped,
    co: Seq<Seq<[u32; 648]>>,
    f: Seq<Seq<Seq<int>>>,
    c: Seq<ShortChallenge>,
    v: Seq<RingElement>,
    k: int,
    r: int,
)
    requires
        key.wf(),
        w.wf(),
        key.len_f162 == pow2((w.params.witness_log_len - w.params.column_log_len) as nat),
        prover::opens(key, w, aux),
        d.wf(),
        d.primes@ == key.prime_list(),
        d.columns == aux.chunks,
        co.len() == d.columns,
        forall|j: int|
            0 <= j < co.len() ==> digits::are_coefficients(
                key.prime_list(),
                aux.raw@,
                j,
                #[trigger] co[j],
            ),
        is_rounding(d, co, f),
        fold::sound(c),
        c.len() == aux.chunks,
        v.len() == key.len_f162 / 4,
        fold::is_folded(key.prime_at(0), c, prover::columns_of(w), v),
        laws::no_wrap(key.prime_at(0), c, prover::columns_of(w), v.len()),
        0 <= k < key.a@.len(),
        0 <= r < 648,
    ensures
        same(
            ajtai::hat(key.prime_at(k), folded_rounding(c, f), r),
            residual::error_row(
                key.prime_at(k),
                key.a@[k]@,
                fold::integers(v),
                fold::challenge_list(c),
                digits::columns(d),
                r,
            ),
            key.prime_at(k) as int,
        ),
{
    let (q, cl, cols) = (key.prime_at(k), fold::challenge_list(c), prover::columns_of(w));
    let (n, a, vi, m) = (q as int, ajtai::lanes(key.a@[k]@), fold::integers(v), c.len());
    let ch = ajtai::all_hats(q, cl);
    assert(key.prime_list()[k] == q);
    assert(params::limb_prime(key.prime_list()[k]));
    assert(params::limb_prime(key.prime_list()[0]));
    laws::lemma_exact(key.prime_at(0), c, cols, v);
    prover::lemma_columns_shaped(w);
    assert forall|j: int| 0 <= j < cl.len() implies ajtai::sparse(#[trigger] cl[j]) by {
        parity::lemma_sparse(c[j]);
    }
    assert(ajtai::shapes(cl, cols, vi.len()));
    lemma_image_fold(q, a, cl, cols, vi, r, vi.len());
    let y = images_to(q, a, cols, vi.len());
    let z = Seq::new(m, |j: int| ajtai::hats(q, f[j][0]));
    let s = Seq::new(m, |j: int| Seq::new(648, |t: int| y[j][t] + z[j][t]));
    let dc = ajtai::all_hats(q, digits::columns(d));
    assert forall|j: int, t: int| 0 <= j < m && 0 <= t < 648 implies same(
        #[trigger] s[j][t],
        dc[j][t],
        n,
    ) by {
        let col = digits::columns(d)[j];
        assert(digits::are_coefficients(key.prime_list(), aux.raw@, j, co[j]));
        let raw = aux.raw@[k]@[j]@;
        assert(decompose::is_transform(q, raw, poly::ints(co[j][k]@)));
        assert(f[j].len() == 1 && f[j][0].len() == 648);
        assert forall|x: int| 0 <= x < 648 implies same(
            #[trigger] col[x],
            co[j][k]@[x] + f[j][0][x],
            n,
        ) by {
            assert(same(
                digits::value(d, 648 * j + x),
                co[j][k]@[x] + f[j][0][x],
                d.primes@[k] as int,
            ));
        }
        lemma_dropped_hat(q, col, co[j][k]@, f[j][0], raw, t);
        assert(key::is_commitment(
            q,
            key.a@[k]@,
            key::column(w.elements@, key.len_f162 as nat, j),
            raw,
        ));
        assert(raw[t] == y[j][t] % n);
        modular::lemma_reduced(y[j][t], n);
        modular::lemma_add(raw[t] as int, z[j][t], y[j][t], z[j][t], n);
    }
    ajtai::lemma_dot_same(q, ch, s, dc, r, m);
    lemma_dot_plus(q, ch, y, z, s, r, m);
    assert forall|j: int| 0 <= j < m implies (#[trigger] f[j])[0].len() == 648 by {
        assert(f[j].len() == 1);
    }
    assert forall|j: int| 0 <= j < m implies (#[trigger] cl[j]).len() == 648 by {
        assert(ajtai::sparse(cl[j]));
    }
    fold::lemma_fold_transform(q, cl, f, z, 0, m, r);
    let g = ajtai::fold_poly(cl, f, 0, m);
    ajtai::lemma_fold_len(cl, f, 0, m);
    let e = folded_rounding(c, f);
    let zero = Seq::new(648, |x: int| 0int);
    assert(e =~= poly::minus(zero, g));
    poly::lemma_minus(zero, g, 0, 1, scalar::point(q, r));
    poly::lemma_minus(zero, g, r % 2, 2, scalar::point(q, r / 2));
    poly::lemma_absent(zero, 0, 1, scalar::point(q, r));
    poly::lemma_absent(zero, r % 2, 2, scalar::point(q, r / 2));
    assert(ajtai::hat(q, e, r) == 0 - ajtai::hat(q, g, r));
    let (p0, p1, p2, p3) = (
        ajtai::dot(q, a, ajtai::all_hats(q, vi), r, vi.len()),
        ajtai::dot(q, ch, y, r, m),
        ajtai::dot(q, ch, z, r, m),
        ajtai::dot(q, ch, dc, r, m),
    );
    assert(same(p1 + p2, p3, n));
    modular::lemma_sub(p0, p3, p1, p1 + p2, n);
    modular::lemma_sub(0, p2, 0, ajtai::hat(q, g, r), n);
}

/// The error of an honest bit-dropped opening is the negated fold of the rounding errors of the
/// columns, each of them at most half a unit; and if that fold is within the centred range of the
/// product of the primes, its squared norm is what the verifier measures.
pub proof fn honest_dropped(
    key: CommitmentKey,
    w: &Witness,
    aux: AuxData,
    d: Dropped,
    co: Seq<Seq<[u32; 648]>>,
    c: Seq<ShortChallenge>,
    v: Seq<RingElement>,
) -> (f: Seq<Seq<Seq<int>>>)
    requires
        key.wf(),
        w.wf(),
        key.len_f162 == pow2((w.params.witness_log_len - w.params.column_log_len) as nat),
        prover::opens(key, w, aux),
        d.wf(),
        d.primes@ == key.prime_list(),
        d.columns == aux.chunks,
        co.len() == d.columns,
        forall|j: int|
            0 <= j < co.len() ==> digits::are_coefficients(
                key.prime_list(),
                aux.raw@,
                j,
                #[trigger] co[j],
            ) && digits::is_dropped(d, co[j], j),
        fold::sound(c),
        c.len() == aux.chunks,
        v.len() == key.len_f162 / 4,
        fold::is_folded(key.prime_at(0), c, prover::columns_of(w), v),
        laws::no_wrap(key.prime_at(0), c, prover::columns_of(w), v.len()),
    ensures
        is_rounding(d, co, f),
        residual::is_error(
            key,
            fold::integers(v),
            fold::challenge_list(c),
            digits::columns(d),
            folded_rounding(c, f),
        ),
        garner::centred(key.prime_list(), folded_rounding(c, f)) && garner::normsq(
            folded_rounding(c, f),
            648,
        ) <= u128::MAX ==> residual::measures(
            key,
            d,
            c,
            v,
            garner::normsq(folded_rounding(c, f), 648) as u128,
        ),
{
    let f = rounding(d, co);
    let e = folded_rounding(c, f);
    ajtai::lemma_fold_len(fold::challenge_list(c), f, 0, c.len());
    assert forall|k: int, r: int| 0 <= k < key.a@.len() && 0 <= r < 648 implies same(
        #[trigger] ajtai::hat(key.prime_at(k), e, r),
        residual::error_row(
            key.prime_at(k),
            key.a@[k]@,
            fold::integers(v),
            fold::challenge_list(c),
            digits::columns(d),
            r,
        ),
        key.prime_at(k) as int,
    ) by {
        lemma_error_row(key, w, aux, d, co, f, c, v, k, r);
    }
    if garner::centred(key.prime_list(), e) && garner::normsq(e, 648) <= u128::MAX {
        garner::lemma_normsq_prefix(e, e, 648);
        assert(residual::is_residual(key, d, c, v, e, garner::normsq(e, 648) as u128));
    }
    f
}

/// The fold of the rounding errors is within the centred range of the product of the primes, and its
/// squared norm within the cap.
pub open spec fn is_mild(params: Params, c: Seq<ShortChallenge>, f: Seq<Seq<Seq<int>>>) -> bool {
    &&& garner::centred(params.prime_list(), folded_rounding(c, f))
    &&& garner::normsq(folded_rounding(c, f), 648) <= bd::cap_of(
        pow2(params.column_log_len as nat),
        params.bits() as nat,
    )
}

/// An honest bit-dropped opening is accepted: if the prover opens its own commitment, the fold does
/// not wrap around the base modulus and is short, the fold of the rounding errors is within its cap,
/// and the folded row value is that of the honest row evaluation, every check of the verifier holds.
pub proof fn honest_dropped_opening(
    key: CommitmentKey,
    w: &Witness,
    aux: AuxData,
    commitment: Commitment,
    co: Seq<Seq<[u32; 648]>>,
    c: Seq<ShortChallenge>,
    v: Seq<RingElement>,
    point: EvaluationPoint,
    value: F162,
    cap: u64,
)
    requires
        key.wf(),
        w.wf(),
        w.fits(&point),
        key.prime_list() == w.params.prime_list(),
        key.len_f162 == pow2((w.params.witness_log_len - w.params.column_log_len) as nat),
        prover::opens(key, w, aux),
        commitment.wf(),
        commitment.value is Dropped,
        commitment.primes@ == w.params.prime_list(),
        ({
            let d = *commitment.value->Dropped_0;
            &&& d.columns == aux.chunks
            &&& d.dropped_bits == w.params.bits()
            &&& co.len() == d.columns
            &&& forall|j: int|
                0 <= j < co.len() ==> digits::are_coefficients(
                    key.prime_list(),
                    aux.raw@,
                    j,
                    #[trigger] co[j],
                ) && digits::is_dropped(d, co[j], j)
            &&& forall|f: Seq<Seq<Seq<int>>>| #[trigger]
                is_rounding(d, co, f) ==> is_mild(w.params, c, f)
        }),
        bd::cap_of(pow2(w.params.column_log_len as nat), w.params.bits() as nat) <= u64::MAX,
        fold::sound(c),
        c.len() == pow2(w.params.column_log_len as nat),
        v.len() == key.len_f162 / 4,
        fold::is_folded(key.prime_at(0), c, prover::columns_of(w), v),
        laws::no_wrap(key.prime_at(0), c, prover::columns_of(w), v.len()),
        verify::is_short(v, key.prime_at(0), cap),
        value@ == eval::folded_row(
            eval::rows(linear::views(w.elements@), linear::views(point.p0@)),
            c,
            c.len(),
        ),
    ensures
        verify::accepts_dropped(key, w.params, cap, commitment, c, v, point, value),
{
    let d = held(commitment.value->Dropped_0);
    let f = honest_dropped(key, w, aux, d, co, c, v);
    assert(is_mild(w.params, c, f));
    let e = folded_rounding(c, f);
    garner::lemma_normsq_prefix(e, e, 648);
    let n = garner::normsq(folded_rounding(c, f), 648) as u128;
    assert(residual::measures(key, d, c, v, n));
    assert(residual::matched(key, d));
    assert(params::limb_prime(key.prime_list()[0]));
    laws::lemma_exact(key.prime_at(0), c, prover::columns_of(w), v);
    laws::lemma_parity_matches(w, c, v, point.p0@);
}

} // verus!
