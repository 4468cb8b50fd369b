//! The Ajtai map `(w_i) -> sum_i A_i w_i` in the transform domain, and what folding does to it.
use crate::modular;
use crate::modular::same;
use crate::ntt::laws;
use crate::ntt::poly;
use crate::ntt::tree;
use crate::params;
use crate::ring;
use crate::ring::decompose;
use crate::ring::slots;
use crate::ring::Batch32;
use crate::scalar;
use vstd::arithmetic::div_mod::*;
use vstd::arithmetic::mul::*;
use vstd::arithmetic::power::*;
use vstd::prelude::*;

verus! {

/// Row `r` of the transform of `a`: the value at the point of slot `r` for a splitting prime, one of
/// the two coefficients of a leaf for a quadratic-slot one.
pub open spec fn hat(q: u16, a: Seq<int>, r: int) -> int {
    if params::splitting(q) {
        poly::eval(a, scalar::point(q, r))
    } else {
        poly::strided(a, r % 2, 2, scalar::point(q, r / 2))
    }
}

/// The 648 rows of the transform of `a`.
pub open spec fn hats(q: u16, a: Seq<int>) -> Seq<int> {
    Seq::new(648, |r: int| hat(q, a, r))
}

/// Row `r` of the product of two transforms.
pub open spec fn times(q: u16, x: Seq<int>, y: Seq<int>, r: int) -> int {
    if params::splitting(q) {
        x[r] * y[r]
    } else {
        let (e, o) = (2 * (r / 2), 2 * (r / 2) + 1);
        if r % 2 == 0 {
            x[e] * y[e] + scalar::point(q, r / 2) * (x[o] * y[o])
        } else {
            x[e] * y[o] + x[o] * y[e]
        }
    }
}

/// Row `r` of `sum_i A_i y_i` over the first `n` terms.
pub open spec fn dot(q: u16, a: Seq<Seq<int>>, y: Seq<Seq<int>>, r: int, n: nat) -> int
    decreases n,
{
    if n == 0 {
        0
    } else {
        dot(q, a, y, r, (n - 1) as nat) + times(q, a[n - 1], y[n - 1], r)
    }
}

/// Every term transformed.
pub open spec fn all_hats(q: u16, w: Seq<Seq<int>>) -> Seq<Seq<int>> {
    Seq::new(w.len(), |i: int| hats(q, w[i]))
}

/// A challenge as an element of `R_648`: `Z = -X^4`.
pub open spec fn challenge_poly(c: Seq<i8>) -> Seq<int> {
    Seq::new(
        648,
        |x: int|
            if x % 4 != 0 {
                0
            } else if x / 4 % 2 == 0 {
                c[x / 4] as int
            } else {
                -(c[x / 4] as int)
            },
    )
}

/// The value of a challenge at slot `s` of `R_162`.
pub open spec fn chi(q: u16, c: Seq<int>, s: int) -> int {
    decompose::component(q, c, 0, s)
}

/// Slot `t` of class `s` at a splitting prime.
pub open spec fn class_slot(s: int, t: int) -> int {
    slots::slot_of(slots::class(s) + 486 * t)
}

/// Row `r` belongs to class `s`: component slot `s` is read from it.
pub open spec fn in_class(q: u16, r: int, s: int) -> bool {
    if params::splitting(q) {
        exists|t: int| 0 <= t < 4 && r == #[trigger] class_slot(s, t)
    } else {
        exists|b: bool| r / 2 == #[trigger] slots::leaf_of(s, b)
    }
}

/// A polynomial in `X^4` has no other components.
pub open spec fn sparse(c: Seq<int>) -> bool {
    c.len() == 648 && forall|x: int| 0 <= x < 648 && x % 4 != 0 ==> (#[trigger] c[x]) == 0
}

/// At the rows of a class, a polynomial in `X^4` is its value at the class.
proof fn lemma_sparse_hat(q: u16, c: Seq<int>, r: int, s: int)
    requires
        params::limb_prime(q),
        sparse(c),
        0 <= s < 162,
        0 <= r < 648,
        in_class(q, r, s),
    ensures
        params::splitting(q) ==> same(hat(q, c, r), chi(q, c, s), q as int),
        !params::splitting(q) ==> same(hat(q, c, 2 * (r / 2)), chi(q, c, s), q as int) && hat(
            q,
            c,
            2 * (r / 2) + 1,
        ) == 0,
{
    let (n, psi, t) = (q as int, params::psi_of(q) as int, params::tree_of(q));
    params::lemma_limb(q);
    slots::lemma_class(s);
    let v = slots::class(s) as nat;
    let th = decompose::theta(q, s);
    assert forall|k: int| 1 <= k < 4 implies #[trigger] poly::strided(c, k, 4, th) == 0 by {
        poly::lemma_absent(c, k, 4, th);
    }
    assert(poly::strided(c, 1, 4, th) == 0 && poly::strided(c, 2, 4, th) == 0 && poly::strided(
        c,
        3,
        4,
        th,
    ) == 0);
    if params::splitting(q) {
        let k = choose|k: int| 0 <= k < 4 && r == #[trigger] class_slot(s, k);
        let u = v + 486 * (k as nat);
        slots::lemma_slot_of(u as int);
        slots::lemma_slot_exponent(r);
        assert(scalar::point(q, r) == pow(psi, u));
        decompose::lemma_class_value(t, c, v, k as nat);
        let p = pow(psi, v);
        let i = pow(psi, 486);
        assert(p * 0 == 0 && p * p * 0 == 0 && p * p * p * 0 == 0 && i * 0 == 0)
            by (nonlinear_arith);
    } else {
        let b = choose|b: bool| r / 2 == slots::leaf_of(s, b);
        let j = r / 2;
        slots::lemma_leaf_of(s, b);
        slots::lemma_leaf_exponent(j);
        let x = scalar::point(q, j);
        decompose::lemma_leaf_square(q, s, b);
        poly::lemma_split2(c, 0, 2, x);
        poly::lemma_point(c, 0, 4, x * x, th, n);
        poly::lemma_absent(c, 2, 4, x * x);
        poly::lemma_absent(c, 1, 2, x);
        assert(x * 0 == 0) by (nonlinear_arith);
        assert((2 * j) % 2 == 0 && (2 * j) / 2 == j && (2 * j + 1) % 2 == 1 && (2 * j + 1) / 2
            == j);
    }
}

/// `sum over j < m of x[j] f(j)`.
pub open spec fn weighted(x: Seq<int>, f: spec_fn(int) -> int, m: nat) -> int
    decreases m,
{
    if m == 0 {
        0
    } else {
        weighted(x, f, (m - 1) as nat) + x[m - 1] * f(m - 1)
    }
}

/// Congruent terms give congruent sums.
pub proof fn lemma_weighted_same(
    x: Seq<int>,
    f: spec_fn(int) -> int,
    g: spec_fn(int) -> int,
    m: nat,
    q: int,
)
    requires
        q > 0,
        forall|j: int| 0 <= j < m ==> same(#[trigger] f(j), g(j), q),
    ensures
        same(weighted(x, f, m), weighted(x, g, m), q),
    decreases m,
{
    if m > 0 {
        lemma_weighted_same(x, f, g, (m - 1) as nat, q);
        assert(same(f(m - 1), g(m - 1), q));
        modular::lemma_mul(x[m - 1], f(m - 1), x[m - 1], g(m - 1), q);
        modular::lemma_add(
            weighted(x, f, (m - 1) as nat),
            x[m - 1] * f(m - 1),
            weighted(x, g, (m - 1) as nat),
            x[m - 1] * g(m - 1),
            q,
        );
    }
}

/// Weighted sums are linear.
proof fn lemma_weighted_linear(
    x: Seq<int>,
    f: spec_fn(int) -> int,
    g: spec_fn(int) -> int,
    h: spec_fn(int) -> int,
    a: int,
    b: int,
    m: nat,
)
    requires
        forall|j: int| 0 <= j < m ==> #[trigger] h(j) == a * f(j) + b * g(j),
    ensures
        weighted(x, h, m) == a * weighted(x, f, m) + b * weighted(x, g, m),
    decreases m,
{
    if m > 0 {
        let n = (m - 1) as nat;
        lemma_weighted_linear(x, f, g, h, a, b, n);
        assert(h(m - 1) == a * f(m - 1) + b * g(m - 1));
        let (y, u, v) = (x[m - 1], f(m - 1), g(m - 1));
        let (s, t) = (weighted(x, f, n), weighted(x, g, n));
        let (c, d) = (y * u, y * v);
        assert(y * (a * u + b * v) == a * c + b * d) by (nonlinear_arith)
            requires
                c == y * u,
                d == y * v,
        ;
        assert(a * (s + c) == a * s + a * c) by (nonlinear_arith);
        assert(b * (t + d) == b * t + b * d) by (nonlinear_arith);
    } else {
        assert(a * 0 == 0 && b * 0 == 0) by (nonlinear_arith);
    }
}

/// A combination of two congruent numbers.
proof fn lemma_combine(q: int, a: int, x: int, y: int, b: int, u: int, v: int)
    requires
        q > 0,
        same(x, y, q),
        same(u, v, q),
    ensures
        same(a * x + b * u, a * y + b * v, q),
{
    modular::lemma_mul(a, x, a, y, q);
    modular::lemma_mul(b, u, b, v, q);
    modular::lemma_add(a * x, b * u, a * y, b * v, q);
}

/// The transform of a product is the product of the transforms.
pub proof fn lemma_product_hat(q: u16, a: Seq<int>, b: Seq<int>, r: int)
    requires
        params::limb_prime(q),
        a.len() == 648,
        b.len() == 648,
        0 <= r < 648,
    ensures
        same(
            hat(q, laws::reduce_phi(poly::product(a, b)), r),
            times(q, hats(q, a), hats(q, b), r),
            q as int,
        ),
{
    let t = params::tree_of(q);
    let p = poly::product(a, b);
    params::lemma_limb(q);
    laws::remainder_transform(t, p, r);
    if params::splitting(q) {
        assert(r % 1 == 0 && r / 1 == r);
        tree::lemma_place(true, 1, r);
        assert(1 * tree::place(true, 1, r) == tree::place(true, 1, r));
        poly::lemma_eval_product(a, b, scalar::point(q, r));
    } else {
        let j = r / 2;
        tree::lemma_place(false, 1, j);
        assert(1 * tree::place(false, 1, j) == tree::place(false, 1, j));
        poly::lemma_quadratic_product(a, b, scalar::point(q, j));
        assert((2 * j) % 2 == 0 && (2 * j) / 2 == j && (2 * j + 1) % 2 == 1 && (2 * j + 1) / 2
            == j);
    }
}

/// A product with a polynomial in `X^4` is a scaling at the rows of a class.
proof fn lemma_scaled_hat(q: u16, c: Seq<int>, w: Seq<int>, r: int, s: int)
    requires
        params::limb_prime(q),
        sparse(c),
        w.len() == 648,
        0 <= s < 162,
        0 <= r < 648,
        in_class(q, r, s),
    ensures
        same(
            hat(q, laws::reduce_phi(poly::product(c, w)), r),
            chi(q, c, s) * hat(q, w, r),
            q as int,
        ),
{
    let n = q as int;
    lemma_product_hat(q, c, w, r);
    lemma_sparse_hat(q, c, r, s);
    let x = chi(q, c, s);
    if params::splitting(q) {
        modular::lemma_mul(hat(q, c, r), hat(q, w, r), x, hat(q, w, r), n);
    } else {
        let (e, o) = (2 * (r / 2), 2 * (r / 2) + 1);
        let (c0, c1, w0, w1) = (hat(q, c, e), hat(q, c, o), hat(q, w, e), hat(q, w, o));
        let p = scalar::point(q, r / 2);
        assert(0 * w1 == 0 && 0 * w0 == 0 && p * 0 == 0) by (nonlinear_arith);
        modular::lemma_mul(c0, w0, x, w0, n);
        modular::lemma_mul(c0, w1, x, w1, n);
        assert(r == e || r == o);
    }
}

/// `sum over j < m of c_j w_{j, i}` modulo `X^648 - X^324 + 1`, over the integers.
pub open spec fn fold_poly(c: Seq<Seq<int>>, w: Seq<Seq<Seq<int>>>, i: int, m: nat) -> Seq<int>
    decreases m,
{
    if m == 0 {
        Seq::new(648, |x: int| 0)
    } else {
        poly::plus(
            fold_poly(c, w, i, (m - 1) as nat),
            laws::reduce_phi(poly::product(c[m - 1], w[m - 1][i])),
        )
    }
}

pub proof fn lemma_fold_len(c: Seq<Seq<int>>, w: Seq<Seq<Seq<int>>>, i: int, m: nat)
    ensures
        fold_poly(c, w, i, m).len() == 648,
    decreases m,
{
    if m > 0 {
        lemma_fold_len(c, w, i, (m - 1) as nat);
    }
}

/// The values of the challenges at a class.
pub open spec fn chis(q: u16, c: Seq<Seq<int>>, s: int) -> Seq<int> {
    Seq::new(c.len(), |j: int| chi(q, c[j], s))
}

/// Challenges and columns of ring elements.
pub open spec fn shapes(c: Seq<Seq<int>>, w: Seq<Seq<Seq<int>>>, n: nat) -> bool {
    &&& c.len() == w.len()
    &&& forall|j: int| 0 <= j < c.len() ==> sparse(#[trigger] c[j])
    &&& forall|j: int| 0 <= j < w.len() ==> (#[trigger] w[j]).len() == n
    &&& forall|j: int, i: int|
        0 <= j < w.len() && 0 <= i < n ==> (#[trigger] w[j][i]).len() == 648
}

/// The transform of a fold.
proof fn lemma_fold_hat(
    q: u16,
    c: Seq<Seq<int>>,
    w: Seq<Seq<Seq<int>>>,
    i: int,
    m: nat,
    n: nat,
    r: int,
    s: int,
)
    requires
        params::limb_prime(q),
        shapes(c, w, n),
        m <= c.len(),
        0 <= i < n,
        0 <= s < 162,
        0 <= r < 648,
        in_class(q, r, s),
    ensures
        same(
            hat(q, fold_poly(c, w, i, m), r),
            weighted(chis(q, c, s), |j: int| hat(q, w[j][i], r), m),
            q as int,
        ),
    decreases m,
{
    let f = |j: int| hat(q, w[j][i], r);
    let x = chis(q, c, s);
    if m == 0 {
        let z = Seq::new(648, |x: int| 0int);
        poly::lemma_absent(z, 0, 1, scalar::point(q, r));
        poly::lemma_absent(z, r % 2, 2, scalar::point(q, r / 2));
    } else {
        let k = (m - 1) as nat;
        lemma_fold_hat(q, c, w, i, k, n, r, s);
        lemma_fold_len(c, w, i, k);
        let (a, b) = (
            fold_poly(c, w, i, k),
            laws::reduce_phi(poly::product(c[m - 1], w[m - 1][i])),
        );
        assert(sparse(c[m - 1]) && w[m - 1][i].len() == 648);
        lemma_scaled_hat(q, c[m - 1], w[m - 1][i], r, s);
        poly::lemma_plus(a, b, 0, 1, scalar::point(q, r));
        poly::lemma_plus(a, b, r % 2, 2, scalar::point(q, r / 2));
        modular::lemma_add(
            hat(q, a, r),
            hat(q, b, r),
            weighted(x, f, k),
            x[m - 1] * f(m - 1),
            q as int,
        );
    }
}

/// `v` is the fold of `w` modulo `q`.
pub open spec fn is_fold(
    q: u16,
    c: Seq<Seq<int>>,
    w: Seq<Seq<Seq<int>>>,
    v: Seq<Seq<int>>,
) -> bool {
    forall|i: int, x: int|
        0 <= i < v.len() && 0 <= x < 648 ==> same(
            #[trigger] v[i][x],
            fold_poly(c, w, i, c.len())[x],
            q as int,
        )
}

/// Both rows of a leaf belong to its class.
proof fn lemma_class_rows(q: u16, r: int, s: int)
    requires
        !params::splitting(q),
        in_class(q, r, s),
    ensures
        in_class(q, 2 * (r / 2), s),
        in_class(q, 2 * (r / 2) + 1, s),
{
    let b = choose|b: bool| r / 2 == #[trigger] slots::leaf_of(s, b);
    assert((2 * (r / 2)) / 2 == r / 2 && (2 * (r / 2) + 1) / 2 == r / 2);
    assert((2 * (r / 2)) / 2 == slots::leaf_of(s, b));
    assert((2 * (r / 2) + 1) / 2 == slots::leaf_of(s, b));
}

/// The Ajtai image of a fold is the fold of the images, at the rows of a class.
proof fn lemma_dot_fold(
    q: u16,
    a: Seq<Seq<int>>,
    c: Seq<Seq<int>>,
    w: Seq<Seq<Seq<int>>>,
    v: Seq<Seq<int>>,
    r: int,
    s: int,
    n: nat,
)
    requires
        params::limb_prime(q),
        shapes(c, w, v.len()),
        n <= v.len(),
        forall|i: int| 0 <= i < v.len() ==> (#[trigger] v[i]).len() == 648,
        is_fold(q, c, w, v),
        0 <= s < 162,
        0 <= r < 648,
        in_class(q, r, s),
    ensures
        same(
            dot(q, a, all_hats(q, v), r, n),
            weighted(
                chis(q, c, s),
                |j: int| dot(q, a, all_hats(q, w[j]), r, n),
                c.len(),
            ),
            q as int,
        ),
    decreases n,
{
    let (m, p) = (c.len(), q as int);
    let x = chis(q, c, s);
    let f = |j: int| dot(q, a, all_hats(q, w[j]), r, n);
    if n == 0 {
        lemma_weighted_zero(x, f, m);
    } else {
        let k = (n - 1) as nat;
        let i = n - 1;
        lemma_dot_fold(q, a, c, w, v, r, s, k);
        let g = |j: int| dot(q, a, all_hats(q, w[j]), r, k);
        let h = |j: int| times(q, a[i], hats(q, w[j][i]), r);
        lemma_times_fold(q, a[i], c, w, v, i, r, s);
        assert forall|j: int| 0 <= j < m implies #[trigger] f(j) == 1 * g(j) + 1 * h(j) by {
            assert(w[j].len() == v.len());
            assert(all_hats(q, w[j])[i] == hats(q, w[j][i]));
        }
        lemma_weighted_linear(x, g, h, f, 1, 1, m);
        modular::lemma_add(
            dot(q, a, all_hats(q, v), r, k),
            times(q, a[i], hats(q, v[i]), r),
            weighted(x, g, m),
            weighted(x, h, m),
            p,
        );
    }
}

proof fn lemma_weighted_zero(x: Seq<int>, f: spec_fn(int) -> int, m: nat)
    requires
        forall|j: int| 0 <= j < m ==> #[trigger] f(j) == 0,
    ensures
        weighted(x, f, m) == 0,
    decreases m,
{
    if m > 0 {
        lemma_weighted_zero(x, f, (m - 1) as nat);
        assert(f(m - 1) == 0);
        let y = x[m - 1];
        assert(y * 0 == 0) by (nonlinear_arith);
    }
}

/// One term of the Ajtai image of a fold.
proof fn lemma_times_fold(
    q: u16,
    a: Seq<int>,
    c: Seq<Seq<int>>,
    w: Seq<Seq<Seq<int>>>,
    v: Seq<Seq<int>>,
    i: int,
    r: int,
    s: int,
)
    requires
        params::limb_prime(q),
        shapes(c, w, v.len()),
        0 <= i < v.len(),
        v[i].len() == 648,
        is_fold(q, c, w, v),
        0 <= s < 162,
        0 <= r < 648,
        in_class(q, r, s),
    ensures
        same(
            times(q, a, hats(q, v[i]), r),
            weighted(chis(q, c, s), |j: int| times(q, a, hats(q, w[j][i]), r), c.len()),
            q as int,
        ),
{
    let (m, p, n) = (c.len(), q as int, v.len());
    let x = chis(q, c, s);
    let h = |j: int| times(q, a, hats(q, w[j][i]), r);
    let fp = fold_poly(c, w, i, m);
    lemma_fold_len(c, w, i, m);
    assert forall|t: int| 0 <= t < 648 implies same(#[trigger] v[i][t], fp[t], p) by {}
    if params::splitting(q) {
        let f = |j: int| hat(q, w[j][i], r);
        poly::lemma_coefficients(v[i], fp, 0, 1, scalar::point(q, r), p);
        lemma_fold_hat(q, c, w, i, m, n, r, s);
        let y = a[r];
        assert forall|j: int| 0 <= j < m implies #[trigger] h(j) == y * f(j) + 0 * f(j) by {
            assert(0 * f(j) == 0) by (nonlinear_arith);
        }
        lemma_weighted_linear(x, f, f, h, y, 0, m);
        assert(0 * weighted(x, f, m) == 0) by (nonlinear_arith);
        modular::lemma_mul(y, hat(q, v[i], r), y, weighted(x, f, m), p);
    } else {
        let (e, o, d) = (2 * (r / 2), 2 * (r / 2) + 1, scalar::point(q, r / 2));
        lemma_class_rows(q, r, s);
        let f = |j: int| hat(q, w[j][i], e);
        let g = |j: int| hat(q, w[j][i], o);
        assert(e % 2 == 0 && e / 2 == r / 2 && o % 2 == 1 && o / 2 == r / 2);
        poly::lemma_coefficients(v[i], fp, 0, 2, d, p);
        poly::lemma_coefficients(v[i], fp, 1, 2, d, p);
        lemma_fold_hat(q, c, w, i, m, n, e, s);
        lemma_fold_hat(q, c, w, i, m, n, o, s);
        let (y0, y1) = (hat(q, v[i], e), hat(q, v[i], o));
        if r % 2 == 0 {
            let (u0, u1) = (a[e], d * a[o]);
            assert forall|j: int| 0 <= j < m implies #[trigger] h(j) == u0 * f(j) + u1 * g(j) by {
                let (b, z) = (a[o], g(j));
                assert(d * (b * z) == d * b * z) by (nonlinear_arith);
            }
            lemma_weighted_linear(x, f, g, h, u0, u1, m);
            lemma_combine(p, u0, y0, weighted(x, f, m), u1, y1, weighted(x, g, m));
            let b = a[o];
            assert(d * (b * y1) == d * b * y1) by (nonlinear_arith);
        } else {
            let (u0, u1) = (a[o], a[e]);
            assert forall|j: int| 0 <= j < m implies #[trigger] h(j) == u0 * f(j) + u1 * g(j) by {}
            lemma_weighted_linear(x, f, g, h, u0, u1, m);
            lemma_combine(p, u0, y0, weighted(x, f, m), u1, y1, weighted(x, g, m));
        }
    }
}

/// `y` is the combination of the `z_j` with weights `x`, row by row at a class.
spec fn combined(q: u16, x: Seq<int>, z: Seq<Seq<int>>, y: Seq<int>, s: int) -> bool {
    forall|r: int|
        0 <= r < 648 && #[trigger] in_class(q, r, s) ==> same(
            y[r],
            weighted(x, |j: int| z[j][r], z.len()),
            q as int,
        )
}

/// What a class gathers is linear in the rows, at a splitting prime.
#[verifier::rlimit(30)]
proof fn lemma_split_linear(
    q: u16,
    x: Seq<int>,
    z: Seq<Seq<int>>,
    y: Seq<int>,
    k: int,
    s: int,
)
    requires
        params::splitting(q),
        combined(q, x, z, y, s),
        0 <= k < 4,
        0 <= s < 162,
    ensures
        same(
            decompose::gathered(q, y, k, s),
            weighted(x, |j: int| decompose::gathered(q, z[j], k, s), z.len()),
            q as int,
        ),
{
    let (p, m, v) = (q as int, z.len(), slots::class(s));
    params::lemma_limb(q);
    slots::lemma_class(s);
    let i = pow(params::psi_of(q) as int, 486);
    let (r0, r1, r2, r3) = (
        slots::slot_of(v),
        slots::slot_of(v + 486),
        slots::slot_of(v + 972),
        slots::slot_of(v + 1458),
    );
    slots::lemma_slot_of(v);
    slots::lemma_slot_of(v + 486);
    slots::lemma_slot_of(v + 972);
    slots::lemma_slot_of(v + 1458);
    assert(r0 == class_slot(s, 0) && r1 == class_slot(s, 1) && r2 == class_slot(s, 2) && r3
        == class_slot(s, 3));
    assert(in_class(q, r0, s) && in_class(q, r1, s) && in_class(q, r2, s) && in_class(q, r3, s));
    let (f0, f1, f2, f3) = (
        |j: int| z[j][r0],
        |j: int| z[j][r1],
        |j: int| z[j][r2],
        |j: int| z[j][r3],
    );
    let g = |j: int| decompose::gathered(q, z[j], k, s);
    let f = seq![f0, f1, f2, f3];
    let e = seq![y[r0], y[r1], y[r2], y[r3]];
    let gy = decompose::gathered(q, y, k, s);
    assert forall|j: int| 0 <= j < m implies gathers(
        i,
        k,
        #[trigger] g(j),
        f[0](j),
        f[1](j),
        f[2](j),
        f[3](j),
    ) by {}
    assert forall|t: int| 0 <= t < 4 implies same(#[trigger] e[t], weighted(x, f[t], m), p) by {
        if t == 0 {
        } else if t == 1 {
        } else if t == 2 {
        } else {
            assert(t == 3);
        }
    }
    lemma_gathers(p, x, m, f, e, g, gy, i, k);
}

/// What is gathered from four weighted sums.
proof fn lemma_gathers(
    p: int,
    x: Seq<int>,
    m: nat,
    f: Seq<spec_fn(int) -> int>,
    e: Seq<int>,
    g: spec_fn(int) -> int,
    gy: int,
    i: int,
    k: int,
)
    requires
        p > 0,
        0 <= k < 4,
        f.len() == 4,
        e.len() == 4,
        forall|t: int| 0 <= t < 4 ==> same(#[trigger] e[t], weighted(x, f[t], m), p),
        forall|j: int|
            0 <= j < m ==> gathers(i, k, #[trigger] g(j), f[0](j), f[1](j), f[2](j), f[3](j)),
        gathers(i, k, gy, e[0], e[1], e[2], e[3]),
    ensures
        same(gy, weighted(x, g, m), p),
{
    let (f0, f1, f2, f3) = (f[0], f[1], f[2], f[3]);
    if k == 0 {
        lemma_four(p, x, m, f, e, g, gy, 1, 1);
    } else if k == 1 {
        assert forall|j: int| 0 <= j < m implies #[trigger] g(j) == f0(j) + (-1) * f2(j) + (-i) * (
        f1(j) + (-1) * f3(j)) by {
            assert(gathers(i, k, g(j), f0(j), f1(j), f2(j), f3(j)));
            lemma_turns(i, f1(j), f3(j));
        }
        lemma_turns(i, e[1], e[3]);
        lemma_four(p, x, m, f, e, g, gy, -1, -i);
    } else if k == 2 {
        assert forall|j: int| 0 <= j < m implies #[trigger] g(j) == f0(j) + 1 * f2(j) + (-1) * (
        f1(j) + 1 * f3(j)) by {
            assert(gathers(i, k, g(j), f0(j), f1(j), f2(j), f3(j)));
        }
        lemma_four(p, x, m, f, e, g, gy, 1, -1);
    } else {
        assert forall|j: int| 0 <= j < m implies #[trigger] g(j) == f0(j) + (-1) * f2(j) + i * (f1(
            j,
        ) + (-1) * f3(j)) by {
            assert(gathers(i, k, g(j), f0(j), f1(j), f2(j), f3(j)));
            lemma_turns(i, f1(j), f3(j));
        }
        lemma_turns(i, e[1], e[3]);
        lemma_four(p, x, m, f, e, g, gy, -1, i);
    }
}

/// How component `k` is gathered from four values.
spec fn gathers(i: int, k: int, g: int, e0: int, e1: int, e2: int, e3: int) -> bool {
    g == if k == 0 {
        e0 + e2 + (e1 + e3)
    } else if k == 1 {
        e0 - e2 - i * (e1 - e3)
    } else if k == 2 {
        e0 + e2 - (e1 + e3)
    } else {
        e0 - e2 + i * (e1 - e3)
    }
}

/// A combination of four weighted sums.
proof fn lemma_four(
    p: int,
    x: Seq<int>,
    m: nat,
    f: Seq<spec_fn(int) -> int>,
    e: Seq<int>,
    g: spec_fn(int) -> int,
    gy: int,
    sign: int,
    turn: int,
)
    requires
        p > 0,
        f.len() == 4,
        e.len() == 4,
        forall|t: int| 0 <= t < 4 ==> same(#[trigger] e[t], weighted(x, f[t], m), p),
        forall|j: int|
            0 <= j < m ==> #[trigger] g(j) == f[0](j) + sign * f[2](j) + turn * (f[1](j) + sign
                * f[3](j)),
        gy == e[0] + sign * e[2] + turn * (e[1] + sign * e[3]),
    ensures
        same(gy, weighted(x, g, m), p),
{
    let (a, b) = (|j: int| f[0](j) + sign * f[2](j), |j: int| f[1](j) + sign * f[3](j));
    lemma_weighted_linear(x, f[0], f[2], a, 1, sign, m);
    lemma_weighted_linear(x, f[1], f[3], b, 1, sign, m);
    assert forall|j: int| 0 <= j < m implies #[trigger] g(j) == 1 * a(j) + turn * b(j) by {}
    lemma_weighted_linear(x, a, b, g, 1, turn, m);
    assert(same(e[0], weighted(x, f[0], m), p) && same(e[1], weighted(x, f[1], m), p) && same(
        e[2],
        weighted(x, f[2], m),
        p,
    ) && same(e[3], weighted(x, f[3], m), p));
    lemma_combine(p, 1, e[0], weighted(x, f[0], m), sign, e[2], weighted(x, f[2], m));
    lemma_combine(p, 1, e[1], weighted(x, f[1], m), sign, e[3], weighted(x, f[3], m));
    lemma_combine(
        p,
        1,
        e[0] + sign * e[2],
        weighted(x, a, m),
        turn,
        e[1] + sign * e[3],
        weighted(x, b, m),
    );
}

proof fn lemma_turns(i: int, e1: int, e3: int)
    ensures
        (-i) * (e1 - e3) == -(i * (e1 - e3)),
        (-1) * (e1 + e3) == -(e1 + e3),
        (-i) * (1 * e1 + (-1) * e3) == -(i * (e1 - e3)),
        i * (1 * e1 + (-1) * e3) == i * (e1 - e3),
        i * (e1 + (-1) * e3) == i * (e1 - e3),
        (-i) * (e1 + (-1) * e3) == -(i * (e1 - e3)),
{
    let d = e1 - e3;
    assert((-i) * d == -(i * d)) by (nonlinear_arith);
    assert(1 * e1 + (-1) * e3 == d);
}

/// What a class gathers is linear in the rows.
proof fn lemma_gathered_linear(
    q: u16,
    x: Seq<int>,
    z: Seq<Seq<int>>,
    y: Seq<int>,
    k: int,
    s: int,
)
    requires
        params::limb_prime(q),
        combined(q, x, z, y, s),
        0 <= k < 4,
        0 <= s < 162,
    ensures
        same(
            decompose::gathered(q, y, k, s),
            weighted(x, |j: int| decompose::gathered(q, z[j], k, s), z.len()),
            q as int,
        ),
{
    if params::splitting(q) {
        lemma_split_linear(q, x, z, y, k, s);
    } else {
        let (p, m) = (q as int, z.len());
        slots::lemma_leaf_of(s, true);
        slots::lemma_leaf_of(s, false);
        let (rp, rm) = (
            2 * slots::leaf_of(s, true) + k % 2,
            2 * slots::leaf_of(s, false) + k % 2,
        );
        assert(rp / 2 == slots::leaf_of(s, true) && rm / 2 == slots::leaf_of(s, false));
        assert(in_class(q, rp, s) && in_class(q, rm, s));
        let (f, h) = (|j: int| z[j][rp], |j: int| z[j][rm]);
        let g = |j: int| decompose::gathered(q, z[j], k, s);
        if k < 2 {
            assert forall|j: int| 0 <= j < m implies #[trigger] g(j) == 1 * f(j) + 1 * h(j) by {}
            lemma_weighted_linear(x, f, h, g, 1, 1, m);
            lemma_combine(p, 1, y[rp], weighted(x, f, m), 1, y[rm], weighted(x, h, m));
        } else {
            assert forall|j: int| 0 <= j < m implies #[trigger] g(j) == 1 * f(j) + (-1) * h(j) by {}
            lemma_weighted_linear(x, f, h, g, 1, -1, m);
            lemma_combine(p, 1, y[rp], weighted(x, f, m), -1, y[rm], weighted(x, h, m));
        }
    }
}

/// `y` is the Ajtai image of `w`, modulo `q`.
pub open spec fn is_image(q: u16, a: Seq<Seq<int>>, w: Seq<Seq<int>>, y: Seq<int>) -> bool {
    forall|r: int|
        0 <= r < 648 ==> same(#[trigger] y[r], dot(q, a, all_hats(q, w), r, w.len()), q as int)
}

/// Folding commutes with the commitment: if `v = sum_j c_j w_j` then the components of `A v` are
/// `sum_j c_j C_j`, where `C_j` are the components of the commitment `A w_j` of column `j`.
pub proof fn fold_commutes(
    q: u16,
    a: Seq<Seq<int>>,
    c: Seq<Seq<int>>,
    w: Seq<Seq<Seq<int>>>,
    v: Seq<Seq<int>>,
    z: Seq<Seq<int>>,
    y: Seq<int>,
    k: int,
    s: int,
)
    requires
        params::limb_prime(q),
        shapes(c, w, v.len()),
        forall|i: int| 0 <= i < v.len() ==> (#[trigger] v[i]).len() == 648,
        is_fold(q, c, w, v),
        is_image(q, a, v, y),
        z.len() == w.len(),
        forall|j: int| 0 <= j < z.len() ==> is_image(q, a, w[j], #[trigger] z[j]),
        0 <= k < 4,
        0 <= s < 162,
    ensures
        decompose::decomposed(q, y, k, s) == weighted(
            chis(q, c, s),
            |j: int| decompose::decomposed(q, z[j], k, s),
            c.len(),
        ) % (q as int),
{
    let (p, m, n) = (q as int, c.len(), v.len());
    let x = chis(q, c, s);
    params::lemma_limb(q);
    assert forall|r: int| 0 <= r < 648 && #[trigger] in_class(q, r, s) implies same(
        y[r],
        weighted(x, |j: int| z[j][r], m),
        p,
    ) by {
        let f = |j: int| z[j][r];
        let g = |j: int| dot(q, a, all_hats(q, w[j]), r, n);
        lemma_dot_fold(q, a, c, w, v, r, s, n);
        assert forall|j: int| 0 <= j < m implies same(#[trigger] f(j), g(j), p) by {
            assert(is_image(q, a, w[j], z[j]));
            assert(w[j].len() == n);
            assert(same(z[j][r], dot(q, a, all_hats(q, w[j]), r, n), p));
        }
        lemma_weighted_same(x, f, g, m, p);
        assert(same(y[r], dot(q, a, all_hats(q, v), r, n), p));
    }
    lemma_gathered_linear(q, x, z, y, k, s);
    let f = |j: int| decompose::gathered(q, z[j], k, s);
    let g = |j: int| decompose::decomposed(q, z[j], k, s);
    let h = |j: int| decompose::scaling(q, k, s) * decompose::gathered(q, z[j], k, s);
    let t = decompose::scaling(q, k, s);
    assert forall|j: int| 0 <= j < m implies #[trigger] h(j) == t * f(j) + 0 * f(j) by {
        assert(0 * f(j) == 0) by (nonlinear_arith);
    }
    lemma_weighted_linear(x, f, f, h, t, 0, m);
    assert(0 * weighted(x, f, m) == 0) by (nonlinear_arith);
    modular::lemma_mul(t, decompose::gathered(q, y, k, s), t, weighted(x, f, m), p);
    assert forall|j: int| 0 <= j < m implies same(#[trigger] h(j), g(j), p) by {
        lemma_mod_twice(h(j), p);
    }
    lemma_weighted_same(x, h, g, m, p);
}

// ---------------------------------------------------------------------------------------------
// the map, computed
// ---------------------------------------------------------------------------------------------

/// Ring element `p` of a batch, its 648 rows as integers.
pub open spec fn lane(b: Batch32, p: int) -> Seq<int> {
    Seq::new(648, |r: int| b.v@[r]@[p] as int)
}

/// The ring elements of a row of batches.
pub open spec fn lanes(a: Seq<Batch32>) -> Seq<Seq<int>> {
    Seq::new(32 * a.len(), |i: int| lane(a[i / 32], i % 32))
}

/// Ring elements as integer coefficients.
pub open spec fn elements(w: Seq<[u32; 648]>) -> Seq<Seq<int>> {
    Seq::new(w.len(), |i: int| poly::ints(w[i]@))
}

/// The points of the leaves of a quadratic-slot limb, reduced; empty for a splitting one.
pub open spec fn are_points(q: u16, p: Seq<u64>) -> bool {
    params::splitting(q) || (p.len() == 324 && forall|j: int|
        0 <= j < 324 ==> (#[trigger] p[j]) == scalar::point(q, j) % (q as int))
}

pub(crate) fn leaf_points(q: u16) -> (p: Vec<u64>)
    requires
        params::limb_prime(q),
    ensures
        are_points(q, p@),
{
    let mut p: Vec<u64> = Vec::new();
    if params::quadratic_slots(q) {
        let t = params::limb_tree(q);
        let mut j: u64 = 0;
        while j < 324
            invariant
                j <= 324,
                ring::quadratic(q),
                t == params::tree_of(q),
                p@.len() == j,
                forall|i: int| 0 <= i < j ==> (#[trigger] p@[i]) == scalar::point(q, i) % (q as int),
            decreases 324 - j,
        {
            let e: u64 = tree::place_of(false, 1, j);
            p.push(modular::pow_mod(t.psi, e, q as u64));
            j += 1;
        }
    }
    p
}

/// Congruent rows have congruent products.
pub proof fn lemma_times_same(
    q: u16,
    x: Seq<int>,
    y: Seq<int>,
    u: Seq<int>,
    v: Seq<int>,
    r: int,
)
    requires
        q > 0,
        0 <= r < 648,
        forall|i: int| 0 <= i < 648 ==> same(#[trigger] x[i], u[i], q as int),
        forall|i: int| 0 <= i < 648 ==> same(#[trigger] y[i], v[i], q as int),
    ensures
        same(times(q, x, y, r), times(q, u, v, r), q as int),
{
    let n = q as int;
    if params::splitting(q) {
        assert(same(x[r], u[r], n) && same(y[r], v[r], n));
        modular::lemma_mul(x[r], y[r], u[r], v[r], n);
    } else {
        let (e, o, d) = (2 * (r / 2), 2 * (r / 2) + 1, scalar::point(q, r / 2));
        assert(0 <= e < 648 && 0 <= o < 648);
        assert(same(x[e], u[e], n) && same(y[e], v[e], n));
        assert(same(x[o], u[o], n) && same(y[o], v[o], n));
        if r % 2 == 0 {
            modular::lemma_mul(x[e], y[e], u[e], v[e], n);
            modular::lemma_mul(x[o], y[o], u[o], v[o], n);
            modular::lemma_mul(d, x[o] * y[o], d, u[o] * v[o], n);
            modular::lemma_add(x[e] * y[e], d * (x[o] * y[o]), u[e] * v[e], d * (u[o] * v[o]), n);
        } else {
            modular::lemma_mul(x[e], y[o], u[e], v[o], n);
            modular::lemma_mul(x[o], y[e], u[o], v[e], n);
            modular::lemma_add(x[e] * y[o], x[o] * y[e], u[e] * v[o], u[o] * v[e], n);
        }
    }
}

/// Congruent rows have congruent images.
pub proof fn lemma_dot_same(
    q: u16,
    a: Seq<Seq<int>>,
    y: Seq<Seq<int>>,
    z: Seq<Seq<int>>,
    r: int,
    n: nat,
)
    requires
        q > 0,
        0 <= r < 648,
        n <= y.len(),
        n <= z.len(),
        forall|i: int, x: int|
            0 <= i < n && 0 <= x < 648 ==> same(#[trigger] y[i][x], z[i][x], q as int),
    ensures
        same(dot(q, a, y, r, n), dot(q, a, z, r, n), q as int),
    decreases n,
{
    if n > 0 {
        let k = (n - 1) as nat;
        lemma_dot_same(q, a, y, z, r, k);
        lemma_times_same(q, a[n - 1], y[n - 1], a[n - 1], z[n - 1], r);
        modular::lemma_add(
            dot(q, a, y, r, k),
            times(q, a[n - 1], y[n - 1], r),
            dot(q, a, z, r, k),
            times(q, a[n - 1], z[n - 1], r),
            q as int,
        );
    }
}

/// One product added into a sum, at a splitting prime.
pub(crate) fn add_product(q: u64, s: u32, x: u32, y: u32) -> (r: u32)
    requires
        2 <= q < 0x8000,
        s < q,
        x < q,
        y < q,
    ensures
        r == (s + x * y) % (q as int),
        r < q,
{
    proof {
        tree::lemma_product(x as u64, y as u64);
    }
    ((s as u64 + x as u64 * y as u64) % q) as u32
}

/// One product added into a sum, at a leaf of a quadratic-slot prime.
fn add_leaf(q: u64, c: u64, s: (u32, u32), x: (u32, u32), y: (u32, u32), Ghost(d): Ghost<int>) -> (r: (
    u32,
    u32,
))
    requires
        2 <= q < 0x8000,
        c == d % (q as int),
        s.0 < q,
        s.1 < q,
        x.0 < q,
        x.1 < q,
        y.0 < q,
        y.1 < q,
    ensures
        r.0 == (s.0 + (x.0 * y.0 + d * (x.1 * y.1))) % (q as int),
        r.1 == (s.1 + (x.0 * y.1 + x.1 * y.0)) % (q as int),
        r.0 < q,
        r.1 < q,
{
    let (x0, x1, y0, y1) = (x.0 as u64, x.1 as u64, y.0 as u64, y.1 as u64);
    proof {
        tree::lemma_product(x0, y0);
        tree::lemma_product(x1, y1);
        tree::lemma_product(x0, y1);
        tree::lemma_product(x1, y0);
        lemma_mod_bound(d, q as int);
    }
    let m: u64 = x1 * y1 % q;
    proof {
        tree::lemma_product(c, m);
        let (n, z) = (q as int, x1 * y1);
        modular::lemma_reduced(z, n);
        modular::lemma_reduced(d, n);
        modular::lemma_mul(c as int, m as int, d, z, n);
        modular::lemma_add(x0 * y0, c * m, x0 * y0, d * z, n);
        modular::lemma_add(s.0 as int, x0 * y0 + c * m, s.0 as int, x0 * y0 + d * z, n);
    }
    let r0: u64 = (s.0 as u64 + x0 * y0 + c * m) % q;
    let r1: u64 = (s.1 as u64 + x0 * y1 + x1 * y0) % q;
    (r0 as u32, r1 as u32)
}

/// `s + x y`, row by row.
pub(crate) fn accumulate(q: u16, points: &[u64], s: &mut [u32; 648], x: &[u32; 648], y: &[u32; 648])
    requires
        params::limb_prime(q),
        are_points(q, points@),
        scalar::in_range(old(s)@, q),
        scalar::in_range(x@, q),
        scalar::in_range(y@, q),
    ensures
        scalar::in_range(final(s)@, q),
        forall|r: int|
            0 <= r < 648 ==> (#[trigger] final(s)@[r]) == (old(s)@[r] + times(
                q,
                poly::ints(x@),
                poly::ints(y@),
                r,
            )) % (q as int),
{
    let ghost before = s@;
    let ghost (xs, ys) = (poly::ints(x@), poly::ints(y@));
    let m: u64 = q as u64;
    if params::quadratic_slots(q) {
        let mut j: usize = 0;
        while j < 324
            invariant
                j <= 324,
                m == q,
                2917 <= q < 0x8000,
                !params::splitting(q),
                are_points(q, points@),
                xs == poly::ints(x@),
                ys == poly::ints(y@),
                scalar::in_range(s@, q),
                scalar::in_range(x@, q),
                scalar::in_range(y@, q),
                forall|r: int|
                    0 <= r < 2 * j ==> (#[trigger] s@[r]) == (before[r] + times(q, xs, ys, r)) % (
                    q as int),
                forall|r: int| 2 * j <= r < 648 ==> (#[trigger] s@[r]) == before[r],
            decreases 324 - j,
        {
            let (e, o): (usize, usize) = (2 * j, 2 * j + 1);
            assert(s@[e as int] < q && s@[o as int] < q && x@[e as int] < q && x@[o as int] < q
                && y@[e as int] < q && y@[o as int] < q);
            assert(points@[j as int] == scalar::point(q, j as int) % (q as int));
            let t = add_leaf(
                m,
                points[j],
                (s[e], s[o]),
                (x[e], x[o]),
                (y[e], y[o]),
                Ghost(scalar::point(q, j as int)),
            );
            s[e] = t.0;
            s[o] = t.1;
            assert(e / 2 == j && o / 2 == j && e % 2 == 0 && o % 2 == 1);
            j += 1;
        }
    } else {
        let mut r: usize = 0;
        while r < 648
            invariant
                r <= 648,
                m == q,
                2917 <= q < 0x8000,
                params::splitting(q),
                xs == poly::ints(x@),
                ys == poly::ints(y@),
                scalar::in_range(s@, q),
                scalar::in_range(x@, q),
                scalar::in_range(y@, q),
                forall|i: int|
                    0 <= i < r ==> (#[trigger] s@[i]) == (before[i] + times(q, xs, ys, i)) % (
                    q as int),
                forall|i: int| r <= i < 648 ==> (#[trigger] s@[i]) == before[i],
            decreases 648 - r,
        {
            assert(s@[r as int] < q && x@[r as int] < q && y@[r as int] < q);
            s[r] = add_product(m, s[r], x[r], y[r]);
            r += 1;
        }
    }
}

/// Ring element `p` of a batch, reduced.
pub fn batch_lane(b: &Batch32, p: usize, q: u16) -> (out: [u32; 648])
    requires
        p < 32,
        q > 0,
    ensures
        scalar::in_range(out@, q),
        forall|r: int| 0 <= r < 648 ==> (#[trigger] out@[r]) == lane(*b, p as int)[r] % (q as int),
{
    let mut out: [u32; 648] = [0;648];
    let mut r: usize = 0;
    while r < 648
        invariant
            r <= 648,
            p < 32,
            q > 0,
            forall|i: int|
                0 <= i < r ==> (#[trigger] out@[i]) == lane(*b, p as int)[i] % (q as int) && out@[i]
                    < q,
        decreases 648 - r,
    {
        out[r] = ring::element::residue(b.v[r][p], q);
        r += 1;
    }
    out
}

/// `sum_i A_i y_i` for transforms `y_i`, reduced.
pub fn inner_product(q: u16, a: &[Batch32], y: &[[u32; 648]]) -> (s: [u32; 648])
    requires
        params::limb_prime(q),
        y@.len() <= 32 * a@.len(),
        forall|i: int| 0 <= i < y@.len() ==> scalar::in_range((#[trigger] y@[i])@, q),
    ensures
        scalar::in_range(s@, q),
        forall|r: int|
            0 <= r < 648 ==> (#[trigger] s@[r]) == dot(
                q,
                lanes(a@),
                elements(y@),
                r,
                y@.len(),
            ) % (q as int),
{
    let n: usize = y.len();
    let points = leaf_points(q);
    let ghost (aa, yy) = (lanes(a@), elements(y@));
    let mut s: [u32; 648] = [0;648];
    let mut i: usize = 0;
    proof {
        assert(0int % (q as int) == 0) by {
            lemma_small_mod(0, q as nat);
        }
    }
    while i < n
        invariant
            i <= n == y@.len(),
            n <= 32 * a@.len(),
            params::limb_prime(q),
            are_points(q, points@),
            aa == lanes(a@),
            yy == elements(y@),
            scalar::in_range(s@, q),
            forall|i: int| 0 <= i < y@.len() ==> scalar::in_range((#[trigger] y@[i])@, q),
            forall|r: int|
                0 <= r < 648 ==> (#[trigger] s@[r]) == dot(q, aa, yy, r, i as nat) % (q as int),
        decreases n - i,
    {
        let x = batch_lane(&a[i / 32], i % 32, q);
        let ghost before = s@;
        assert(scalar::in_range(y@[i as int]@, q));
        accumulate(q, points.as_slice(), &mut s, &x, &y[i]);
        proof {
            let ghost m = q as int;
            assert forall|r: int| 0 <= r < 648 implies (#[trigger] s@[r]) == dot(
                q,
                aa,
                yy,
                r,
                (i + 1) as nat,
            ) % m by {
                let (d, t) = (dot(q, aa, yy, r, i as nat), times(q, poly::ints(x@), yy[i as int], r));
                let u = times(q, aa[i as int], yy[i as int], r);
                assert forall|z: int| 0 <= z < 648 implies same(
                    #[trigger] poly::ints(x@)[z],
                    aa[i as int][z],
                    m,
                ) by {
                    assert(x@[z] == lane(a@[i as int / 32], i as int % 32)[z] % m);
                    modular::lemma_reduced(aa[i as int][z], m);
                }
                lemma_times_same(q, poly::ints(x@), yy[i as int], aa[i as int], yy[i as int], r);
                assert(before[r] == d % m);
                modular::lemma_reduced(d, m);
                modular::lemma_add(before[r] as int, t, d, u, m);
            }
        }
        i += 1;
    }
    s
}

/// The transforms of ring elements.
pub fn transforms(q: u16, w: &[[u32; 648]]) -> (y: Vec<[u32; 648]>)
    requires
        params::limb_prime(q),
    ensures
        y@.len() == w@.len(),
        forall|i: int|
            0 <= i < y@.len() ==> scalar::in_range((#[trigger] y@[i])@, q)
                && decompose::is_transform(q, y@[i]@, poly::ints(w@[i]@)),
{
    let n: usize = w.len();
    let mut y: Vec<[u32; 648]> = Vec::new();
    let mut i: usize = 0;
    while i < n
        invariant
            i <= n == w@.len(),
            y@.len() == i,
            params::limb_prime(q),
            forall|i: int|
                0 <= i < y@.len() ==> scalar::in_range((#[trigger] y@[i])@, q)
                    && decompose::is_transform(q, y@[i]@, poly::ints(w@[i]@)),
        decreases n - i,
    {
        y.push(scalar::transform(q, &w[i]));
        i += 1;
    }
    y
}

/// The rows of a transform.
pub proof fn lemma_rows(q: u16, y: Seq<u32>, a: Seq<int>, r: int)
    requires
        params::limb_prime(q),
        decompose::is_transform(q, y, a),
        0 <= r < 648,
    ensures
        y[r] == hat(q, a, r) % (q as int),
        same(y[r] as int, hat(q, a, r), q as int),
{
    modular::lemma_reduced(hat(q, a, r), q as int);
    assert(y[r] == y[r]);
}

/// The Ajtai image of ring elements, from their transforms.
pub proof fn lemma_image(q: u16, a: Seq<Seq<int>>, w: Seq<Seq<int>>, y: Seq<[u32; 648]>, s: Seq<u32>)
    requires
        params::limb_prime(q),
        y.len() == w.len(),
        forall|i: int| 0 <= i < y.len() ==> decompose::is_transform(q, (#[trigger] y[i])@, w[i]),
        forall|r: int|
            0 <= r < 648 ==> (#[trigger] s[r]) == dot(q, a, elements(y), r, y.len()) % (q as int),
    ensures
        forall|r: int|
            0 <= r < 648 ==> (#[trigger] s[r]) == dot(q, a, all_hats(q, w), r, w.len()) % (
            q as int),
{
    assert forall|r: int| 0 <= r < 648 implies (#[trigger] s[r]) == dot(
        q,
        a,
        all_hats(q, w),
        r,
        w.len(),
    ) % (q as int) by {
        assert forall|i: int, x: int| 0 <= i < w.len() && 0 <= x < 648 implies same(
            #[trigger] elements(y)[i][x],
            all_hats(q, w)[i][x],
            q as int,
        ) by {
            assert(decompose::is_transform(q, y[i]@, w[i]));
            lemma_rows(q, y[i]@, w[i], x);
        }
        lemma_dot_same(q, a, elements(y), all_hats(q, w), r, w.len());
    }
}

/// The Ajtai image of ring elements.
pub fn image(q: u16, a: &[Batch32], w: &[[u32; 648]]) -> (s: [u32; 648])
    requires
        params::limb_prime(q),
        w@.len() <= 32 * a@.len(),
    ensures
        scalar::in_range(s@, q),
        forall|r: int|
            0 <= r < 648 ==> (#[trigger] s@[r]) == dot(
                q,
                lanes(a@),
                all_hats(q, elements(w@)),
                r,
                w@.len(),
            ) % (q as int),
{
    let y = transforms(q, w);
    let s = inner_product(q, a, y.as_slice());
    proof {
        lemma_image(q, lanes(a@), elements(w@), y@, s@);
    }
    s
}


/// `sum over i < n of a_i w_i` modulo `X^648 - X^324 + 1`.
pub open spec fn product_sum(a: Seq<Seq<int>>, w: Seq<Seq<int>>, n: nat) -> Seq<int>
    decreases n,
{
    if n == 0 {
        Seq::new(648, |x: int| 0)
    } else {
        poly::plus(
            product_sum(a, w, (n - 1) as nat),
            laws::reduce_phi(poly::product(a[n - 1], w[n - 1])),
        )
    }
}

/// The product of rows in the transform domain is the transform of the sum of the ring products of
/// the terms: the Ajtai image of `w` is `sum_i a_i w_i` in the ring, no term left out.
pub proof fn dot_is_product(q: u16, a: Seq<Seq<int>>, w: Seq<Seq<int>>, r: int, n: nat)
    requires
        params::limb_prime(q),
        n <= a.len(),
        n <= w.len(),
        forall|i: int| 0 <= i < n ==> (#[trigger] a[i]).len() == 648,
        forall|i: int| 0 <= i < n ==> (#[trigger] w[i]).len() == 648,
        0 <= r < 648,
    ensures
        product_sum(a, w, n).len() == 648,
        same(
            dot(q, all_hats(q, a), all_hats(q, w), r, n),
            hat(q, product_sum(a, w, n), r),
            q as int,
        ),
    decreases n,
{
    if n == 0 {
        let z = Seq::new(648, |x: int| 0int);
        poly::lemma_absent(z, 0, 1, scalar::point(q, r));
        poly::lemma_absent(z, r % 2, 2, scalar::point(q, r / 2));
    } else {
        let k = (n - 1) as nat;
        dot_is_product(q, a, w, r, k);
        let (x, y) = (product_sum(a, w, k), laws::reduce_phi(poly::product(a[n - 1], w[n - 1])));
        lemma_product_hat(q, a[n - 1], w[n - 1], r);
        poly::lemma_plus(x, y, 0, 1, scalar::point(q, r));
        poly::lemma_plus(x, y, r % 2, 2, scalar::point(q, r / 2));
        modular::lemma_add(
            dot(q, all_hats(q, a), all_hats(q, w), r, k),
            times(q, hats(q, a[n - 1]), hats(q, w[n - 1]), r),
            hat(q, x, r),
            hat(q, y, r),
            q as int,
        );
    }
}


/// Rows that agree modulo `q` have products that agree.
pub proof fn lemma_dot_rows(
    q: u16,
    a: Seq<Seq<int>>,
    b: Seq<Seq<int>>,
    y: Seq<Seq<int>>,
    r: int,
    n: nat,
)
    requires
        q > 0,
        0 <= r < 648,
        forall|i: int, t: int|
            0 <= i < n && 0 <= t < 648 ==> same(#[trigger] a[i][t], b[i][t], q as int),
    ensures
        same(dot(q, a, y, r, n), dot(q, b, y, r, n), q as int),
    decreases n,
{
    if n > 0 {
        let m = q as int;
        let k = (n - 1) as nat;
        lemma_dot_rows(q, a, b, y, r, k);
        let (u, v, w) = (a[n - 1], b[n - 1], y[n - 1]);
        if params::splitting(q) {
            modular::lemma_mul(u[r], w[r], v[r], w[r], m);
        } else {
            let (e, o, p) = (2 * (r / 2), 2 * (r / 2) + 1, scalar::point(q, r / 2));
            assert(same(u[e], v[e], m) && same(u[o], v[o], m));
            if r % 2 == 0 {
                modular::lemma_mul(u[e], w[e], v[e], w[e], m);
                modular::lemma_mul(u[o], w[o], v[o], w[o], m);
                modular::lemma_mul(p, u[o] * w[o], p, v[o] * w[o], m);
                modular::lemma_add(
                    u[e] * w[e],
                    p * (u[o] * w[o]),
                    v[e] * w[e],
                    p * (v[o] * w[o]),
                    m,
                );
            } else {
                modular::lemma_mul(u[e], w[o], v[e], w[o], m);
                modular::lemma_mul(u[o], w[e], v[o], w[e], m);
                modular::lemma_add(u[e] * w[o], u[o] * w[e], v[e] * w[o], v[o] * w[e], m);
            }
        }
        modular::lemma_add(
            dot(q, a, y, r, k),
            times(q, u, w, r),
            dot(q, b, y, r, k),
            times(q, v, w, r),
            m,
        );
    }
}

} // verus!
