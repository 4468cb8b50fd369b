//! The four `R_162` components of an `R_648` element, read off its transform.
//!
//! With `Y = X^4` an element is `y_0(Y) + X y_1(Y) + X^2 y_2(Y) + X^3 y_3(Y)`, and slot `s` of
//! component `k` is `y_k` at the root of unity of class `s`.
use super::element::PowerOfThreeRingElement;
use super::slots;
use crate::modular;
use crate::modular::same;
use crate::ntt::poly;
use crate::ntt::tree;
use crate::ntt::tree::Tree;
use crate::params;
use crate::ring;
use crate::scalar;
use vstd::arithmetic::div_mod::*;
use vstd::arithmetic::mul::*;
use vstd::arithmetic::power::*;
use vstd::prelude::*;

verus! {

/// The point of class `s`: the fourth power of a slot's point for a splitting prime, the square of
/// a leaf's for a quadratic-slot one.
pub open spec fn theta(q: u16, s: int) -> int {
    pow(
        params::psi_of(q) as int,
        ((if params::splitting(q) {
            4
        } else {
            2int
        }) * slots::class(s)) as nat,
    )
}

/// Slot `s` of component `k` of the ring element `a`.
pub open spec fn component(q: u16, a: Seq<int>, k: int, s: int) -> int {
    poly::strided(a, k, 4, theta(q, s))
}

/// `y` is the transform of `a`.
pub open spec fn is_transform(q: u16, y: Seq<u32>, a: Seq<int>) -> bool {
    if params::splitting(q) {
        scalar::is_ntt(q, y, a)
    } else {
        scalar::is_ntt_quad(q, y, a)
    }
}

/// The rows of class `s` are those of the transform of `a`.
pub open spec fn class_holds(q: u16, y: Seq<u32>, a: Seq<int>, s: int) -> bool {
    if params::splitting(q) {
        forall|j: int|
            0 <= j < 648 && slots::slot_exponent(j) % 486 == slots::class(s) ==> (#[trigger] y[j])
                == poly::eval(a, scalar::point(q, j)) % (q as int)
    } else {
        forall|j: int|
            0 <= j < 648 && slots::leaf_exponent(j / 2) % 486 == slots::class(s) ==> (
            #[trigger] y[j]) == poly::strided(a, j % 2, 2, scalar::point(q, j / 2)) % (q as int)
    }
}

/// The sums and differences of the values of class `s` that component `k` is read from.
pub open spec fn gathered(q: u16, y: Seq<int>, k: int, s: int) -> int {
    if params::splitting(q) {
        let (v, i) = (slots::class(s), pow(params::psi_of(q) as int, 486));
        let (e0, e1, e2, e3) = (
            y[slots::slot_of(v)],
            y[slots::slot_of(v + 486)],
            y[slots::slot_of(v + 972)],
            y[slots::slot_of(v + 1458)],
        );
        if k == 0 {
            e0 + e2 + (e1 + e3)
        } else if k == 1 {
            e0 - e2 - i * (e1 - e3)
        } else if k == 2 {
            e0 + e2 - (e1 + e3)
        } else {
            e0 - e2 + i * (e1 - e3)
        }
    } else {
        let (ep, em) = (
            y[2 * slots::leaf_of(s, true) + k % 2],
            y[2 * slots::leaf_of(s, false) + k % 2],
        );
        if k < 2 {
            ep + em
        } else {
            ep - em
        }
    }
}

/// What the sum is scaled by: `4^-1 psi^(-k v)` at a splitting prime, and `2^-1` or `2^-1 psi^-v` at a
/// quadratic-slot one, for the class `v`.
pub open spec fn scaling(q: u16, k: int, s: int) -> int {
    let psi = params::psi_of(q) as int;
    if params::splitting(q) {
        if k == 0 {
            (3 * q + 1) / 4
        } else {
            (3 * q + 1) / 4 * pow(psi, (1944 - k * slots::class(s)) as nat)
        }
    } else if k < 2 {
        (q + 1) / 2
    } else {
        (q + 1) / 2 * pow(psi, (1944 - slots::class(s)) as nat)
    }
}

/// Slot `s` of component `k`, from the 648 slots `y`.
pub open spec fn decomposed(q: u16, y: Seq<int>, k: int, s: int) -> int {
    scaling(q, k, s) * gathered(q, y, k, s) % (q as int)
}

/// `out` holds the components read from the slots `y`.
pub open spec fn is_decomposed(q: u16, out: Seq<[u32; 162]>, y: Seq<int>) -> bool {
    forall|k: int, s: int|
        0 <= k < 4 && 0 <= s < 162 ==> (#[trigger] out[k]@[s]) == decomposed(q, y, k, s)
}

/// A scaled sum, computed with reductions in between.
proof fn lemma_scaled(q: int, m: int, g: int, c: int, p: int, x: int)
    requires
        q > 0,
        same(m, g, q),
        same(p, x, q),
    ensures
        m * c % q * p % q == c * x * g % q,
        m * c % q == c * g % q,
{
    modular::lemma_mul(m, c, g, c, q);
    modular::lemma_reduced(m * c, q);
    modular::lemma_mul(m * c % q, p, g * c, x, q);
    assert(g * c * x == c * x * g && g * c == c * g) by (nonlinear_arith);
}

/// A value split by the exponent modulo 4.
pub proof fn lemma_quarters(a: Seq<int>, x: int)
    ensures
        ({
            let (xx, y) = (x * x, x * x * (x * x));
            &&& poly::eval(a, x) == poly::strided(a, 0, 4, y) + x * poly::strided(a, 1, 4, y) + xx
                * poly::strided(a, 2, 4, y) + xx * x * poly::strided(a, 3, 4, y)
            &&& poly::strided(a, 0, 2, xx) == poly::strided(a, 0, 4, y) + xx * poly::strided(
                a,
                2,
                4,
                y,
            )
            &&& poly::strided(a, 1, 2, xx) == poly::strided(a, 1, 4, y) + xx * poly::strided(
                a,
                3,
                4,
                y,
            )
        }),
{
    let (xx, y) = (x * x, x * x * (x * x));
    poly::lemma_split2(a, 0, 1, x);
    poly::lemma_split2(a, 0, 2, xx);
    poly::lemma_split2(a, 1, 2, xx);
    let (c1, c3) = (poly::strided(a, 1, 4, y), poly::strided(a, 3, 4, y));
    assert(x * (c1 + xx * c3) == x * c1 + xx * x * c3) by (nonlinear_arith);
}

/// The four values of a class determine its four components.
proof fn lemma_four_points(q: int, i: int, c: (int, int, int, int), e: (int, int, int, int))
    requires
        q > 0,
        same(i * i, -1, q),
        same(e.0, c.0 + c.1 + c.2 + c.3, q),
        same(e.1, c.0 + i * c.1 - c.2 - i * c.3, q),
        same(e.2, c.0 - c.1 + c.2 - c.3, q),
        same(e.3, c.0 - i * c.1 - c.2 + i * c.3, q),
    ensures
        same(e.0 + e.2 + (e.1 + e.3), 4 * c.0, q),
        same(e.0 - e.2 - i * (e.1 - e.3), 4 * c.1, q),
        same(e.0 + e.2 - (e.1 + e.3), 4 * c.2, q),
        same(e.0 - e.2 + i * (e.1 - e.3), 4 * c.3, q),
{
    let (f0, f1, f2, f3) = (
        c.0 + c.1 + c.2 + c.3,
        c.0 + i * c.1 - c.2 - i * c.3,
        c.0 - c.1 + c.2 - c.3,
        c.0 - i * c.1 - c.2 + i * c.3,
    );
    modular::lemma_add(e.0, e.2, f0, f2, q);
    modular::lemma_add(e.1, e.3, f1, f3, q);
    modular::lemma_sub(e.0, e.2, f0, f2, q);
    modular::lemma_sub(e.1, e.3, f1, f3, q);
    modular::lemma_add(e.0 + e.2, e.1 + e.3, f0 + f2, f1 + f3, q);
    modular::lemma_sub(e.0 + e.2, e.1 + e.3, f0 + f2, f1 + f3, q);
    let d = f1 - f3;
    modular::lemma_mul(i, e.1 - e.3, i, d, q);
    assert(i * d == i * i * (2 * c.1 - 2 * c.3)) by (nonlinear_arith)
        requires
            d == c.0 + i * c.1 - c.2 - i * c.3 - (c.0 - i * c.1 - c.2 + i * c.3),
    ;
    modular::lemma_mul(i * i, 2 * c.1 - 2 * c.3, -1, 2 * c.1 - 2 * c.3, q);
    assert(-1 * (2 * c.1 - 2 * c.3) == 2 * c.3 - 2 * c.1);
    let g = i * (e.1 - e.3);
    assert(same(g, 2 * c.3 - 2 * c.1, q));
    modular::lemma_sub(e.0 - e.2, g, f0 - f2, 2 * c.3 - 2 * c.1, q);
    modular::lemma_add(e.0 - e.2, g, f0 - f2, 2 * c.3 - 2 * c.1, q);
}

/// The powers of the point with exponent `v + 486 t`.
proof fn lemma_point_powers(t: Tree, v: nat, k: nat) -> (r: (int, int))
    requires
        t.wf(),
        t.split,
    ensures
        ({
            let (p, i) = (pow(t.psi as int, v), pow(t.psi as int, 486));
            let x = pow(t.psi as int, v + 486 * k);
            let y = x * x * (x * x);
            &&& r.0 == x
            &&& r.1 == pow(i, k)
            &&& x == p * pow(i, k)
            &&& same(y, pow(t.psi as int, 4 * v), t.q as int)
        }),
{
    let psi = t.psi as int;
    let (p, i) = (pow(psi, v), pow(psi, 486));
    let e = v + 486 * k;
    let x = pow(psi, e);
    lemma_pow_adds(psi, v, 486 * k);
    lemma_pow_multiplies(psi, 486, k);
    lemma_pow_adds(psi, e, e);
    lemma_pow_adds(psi, e + e, e + e);
    assert(e + e + (e + e) == 4 * v + 1944 * k);
    lemma_pow_adds(psi, 4 * v, 1944 * k);
    modular::lemma_order(psi, 1944, k, t.q as int);
    modular::lemma_mul(pow(psi, 4 * v), pow(psi, 1944 * k), pow(psi, 4 * v), 1, t.q as int);
    assert(pow(psi, 4 * v) * 1 == pow(psi, 4 * v));
    (x, pow(i, k))
}

/// The value at the point with exponent `v + 486 t` in terms of the class's components.
pub proof fn lemma_class_value(t: Tree, a: Seq<int>, v: nat, k: nat)
    requires
        t.wf(),
        t.split,
        k < 4,
    ensures
        ({
            let (p, i, q) = (pow(t.psi as int, v), pow(t.psi as int, 486), t.q as int);
            let y = pow(t.psi as int, 4 * v);
            let (c0, c1, c2, c3) = (
                poly::strided(a, 0, 4, y),
                p * poly::strided(a, 1, 4, y),
                p * p * poly::strided(a, 2, 4, y),
                p * p * p * poly::strided(a, 3, 4, y),
            );
            let e = poly::eval(a, pow(t.psi as int, v + 486 * k));
            same(
                e,
                if k == 0 {
                    c0 + c1 + c2 + c3
                } else if k == 1 {
                    c0 + i * c1 - c2 - i * c3
                } else if k == 2 {
                    c0 - c1 + c2 - c3
                } else {
                    c0 - i * c1 - c2 + i * c3
                },
                q,
            )
        }),
{
    let (p, i, q) = (pow(t.psi as int, v), pow(t.psi as int, 486), t.q as int);
    let y = pow(t.psi as int, 4 * v);
    let (x, w) = lemma_point_powers(t, v, k);
    let z = x * x * (x * x);
    lemma_quarters(a, x);
    poly::lemma_point(a, 0, 4, z, y, q);
    poly::lemma_point(a, 1, 4, z, y, q);
    poly::lemma_point(a, 2, 4, z, y, q);
    poly::lemma_point(a, 3, 4, z, y, q);
    let (s0, s1, s2, s3) = (
        poly::strided(a, 0, 4, z),
        poly::strided(a, 1, 4, z),
        poly::strided(a, 2, 4, z),
        poly::strided(a, 3, 4, z),
    );
    let (r0, r1, r2, r3) = (
        poly::strided(a, 0, 4, y),
        poly::strided(a, 1, 4, y),
        poly::strided(a, 2, 4, y),
        poly::strided(a, 3, 4, y),
    );
    let (c1, c2, c3) = (p * r1, p * p * r2, p * p * p * r3);
    // the powers of i
    lemma_pow_adds(t.psi as int, 486, 486);
    assert(same(i * i, -1, q));
    lemma_pow0(i);
    lemma_pow1(i);
    lemma_pow_adds(i, 1, 1);
    lemma_pow_adds(i, 1, 2);
    assert(pow(i, 2) == i * i);
    assert(pow(i, 3) == i * (i * i));
    let (w1, w2, w3) = if k == 0 {
        (1int, 1int, 1int)
    } else if k == 1 {
        (i, -1int, -i)
    } else if k == 2 {
        (-1int, 1int, -1int)
    } else {
        (-i, -1int, i)
    };
    modular::lemma_mul(i, i * i, i, -1, q);
    assert(i * -1 == -i);
    modular::lemma_mul(-1, -1, -1, -1, q);
    // w^k for k = 1, 2, 3
    assert(same(w, w1, q));
    modular::lemma_mul(w, w, w1, w1, q);
    assert(w1 * w1 == (if k == 1 || k == 3 {
        i * i
    } else {
        1
    })) by (nonlinear_arith)
        requires
            k == 0 ==> w1 == 1,
            k == 1 ==> w1 == i,
            k == 2 ==> w1 == -1,
            k == 3 ==> w1 == -i,
            k < 4,
    ;
    assert(same(w * w, w2, q));
    modular::lemma_mul(w * w, w, w2, w1, q);
    assert(w2 * w1 == w3) by (nonlinear_arith)
        requires
            k == 0 ==> w1 == 1 && w2 == 1 && w3 == 1,
            k == 1 ==> w1 == i && w2 == -1 && w3 == -i,
            k == 2 ==> w1 == -1 && w2 == 1 && w3 == -1,
            k == 3 ==> w1 == -i && w2 == -1 && w3 == i,
            k < 4,
    ;
    // x = p w
    modular::lemma_mul(x, s1, x, r1, q);
    modular::lemma_mul(x * x, s2, x * x, r2, q);
    modular::lemma_mul(x * x * x, s3, x * x * x, r3, q);
    assert(x * r1 == w * c1) by (nonlinear_arith)
        requires
            x == p * w,
            c1 == p * r1,
    ;
    assert(x * x * r2 == w * w * c2) by (nonlinear_arith)
        requires
            x == p * w,
            c2 == p * p * r2,
    ;
    assert(x * x * x * r3 == w * w * w * c3) by (nonlinear_arith)
        requires
            x == p * w,
            c3 == p * p * p * r3,
    ;
    modular::lemma_mul(w, c1, w1, c1, q);
    modular::lemma_mul(w * w, c2, w2, c2, q);
    modular::lemma_mul(w * w * w, c3, w3, c3, q);
    modular::lemma_add(s0, x * s1, r0, w1 * c1, q);
    modular::lemma_add(s0 + x * s1, x * x * s2, r0 + w1 * c1, w2 * c2, q);
    modular::lemma_add(
        s0 + x * s1 + x * x * s2,
        x * x * x * s3,
        r0 + w1 * c1 + w2 * c2,
        w3 * c3,
        q,
    );
    assert(-i * c3 == -(i * c3) && -i * c1 == -(i * c1)) by (nonlinear_arith);
    assert(1 * c1 == c1 && 1 * c2 == c2 && 1 * c3 == c3);
    assert(-1 * c1 == -c1 && -1 * c2 == -c2 && -1 * c3 == -c3);
    if k == 0 {
        assert(w1 * c1 == c1 && w2 * c2 == c2 && w3 * c3 == c3);
    } else if k == 1 {
        assert(w1 * c1 == i * c1 && w2 * c2 == -c2 && w3 * c3 == -(i * c3));
    } else if k == 2 {
        assert(w1 * c1 == -c1 && w2 * c2 == c2 && w3 * c3 == -c3);
    } else {
        assert(w1 * c1 == -(i * c1) && w2 * c2 == -c2 && w3 * c3 == i * c3);
    }
}

/// Undoes the scaling of a component: `m = 4 p^k c`.
proof fn lemma_unscale(q: int, scale: int, n: int, p: int, pi: int, m: int, c: int, r: int)
    requires
        q > 0,
        same(n * scale, 1, q),
        same(p * pi, 1, q),
        same(m, n * (p * c), q),
        r == m * scale % q * pi % q,
    ensures
        r == c % q,
{
    modular::lemma_mul(m, scale, n * (p * c), scale, q);
    modular::lemma_reduced(m * scale, q);
    assert(n * (p * c) * scale == n * scale * (p * c)) by (nonlinear_arith);
    modular::lemma_mul(n * scale, p * c, 1, p * c, q);
    assert(1 * (p * c) == p * c);
    assert(same(m * scale % q, p * c, q));
    modular::lemma_mul(m * scale % q, pi, p * c, pi, q);
    assert(p * c * pi == p * pi * c) by (nonlinear_arith);
    modular::lemma_mul(p * pi, c, 1, c, q);
    assert(1 * c == c);
}

/// `psi^e psi^(1944 - e) = 1`.
proof fn lemma_turn(t: Tree, e: nat)
    requires
        t.wf(),
        e <= 1944,
    ensures
        same(pow(t.psi as int, e) * pow(t.psi as int, (1944 - e) as nat), 1, t.q as int),
{
    crate::ntt::inverse::lemma_inverse_root(t, e);
}

/// One slot of the four components at a splitting prime.
proof fn lemma_split_slot(
    q: u16,
    y: Seq<u32>,
    a: Seq<int>,
    s: int,
    i: int,
    m: (int, int, int, int),
)
    requires
        params::splitting(q),
        params::tree_of(q).wf(),
        0 <= s < 162,
        class_holds(q, y, a, s),
        same(i, pow(params::psi_of(q) as int, 486), q as int),
        ({
            let v = slots::class(s);
            let (e0, e1, e2, e3) = (
                y[slots::slot_of(v)] as int,
                y[slots::slot_of(v + 486)] as int,
                y[slots::slot_of(v + 972)] as int,
                y[slots::slot_of(v + 1458)] as int,
            );
            &&& same(m.0, e0 + e2 + (e1 + e3), q as int)
            &&& same(m.1, e0 - e2 - i * (e1 - e3), q as int)
            &&& same(m.2, e0 + e2 - (e1 + e3), q as int)
            &&& same(m.3, e0 - e2 + i * (e1 - e3), q as int)
        }),
    ensures
        ({
            let (v, psi) = (slots::class(s) as nat, params::psi_of(q) as int);
            &&& same(m.0, 4 * (pow(psi, 0) * component(q, a, 0, s)), q as int)
            &&& same(m.1, 4 * (pow(psi, v) * component(q, a, 1, s)), q as int)
            &&& same(m.2, 4 * (pow(psi, 2 * v) * component(q, a, 2, s)), q as int)
            &&& same(m.3, 4 * (pow(psi, 3 * v) * component(q, a, 3, s)), q as int)
        }),
{
    let t = params::tree_of(q);
    let (n, psi) = (q as int, params::psi_of(q) as int);
    slots::lemma_class(s);
    let v = slots::class(s) as nat;
    let (p, ii) = (pow(psi, v), pow(psi, 486));
    lemma_slot_value(q, y, a, s, v, 0);
    lemma_slot_value(q, y, a, s, v, 1);
    lemma_slot_value(q, y, a, s, v, 2);
    lemma_slot_value(q, y, a, s, v, 3);
    lemma_class_value(t, a, v, 0);
    lemma_class_value(t, a, v, 1);
    lemma_class_value(t, a, v, 2);
    lemma_class_value(t, a, v, 3);
    let z = pow(psi, 4 * v);
    let c = (
        poly::strided(a, 0, 4, z),
        p * poly::strided(a, 1, 4, z),
        p * p * poly::strided(a, 2, 4, z),
        p * p * p * poly::strided(a, 3, 4, z),
    );
    let e = (
        y[slots::slot_of(v as int)] as int,
        y[slots::slot_of((v + 486) as int)] as int,
        y[slots::slot_of((v + 972) as int)] as int,
        y[slots::slot_of((v + 1458) as int)] as int,
    );
    lemma_pow_adds(psi, 486, 486);
    lemma_four_points(n, ii, c, e);
    modular::lemma_mul(i, e.1 - e.3, ii, e.1 - e.3, n);
    modular::lemma_sub(e.0 - e.2, i * (e.1 - e.3), e.0 - e.2, ii * (e.1 - e.3), n);
    modular::lemma_add(e.0 - e.2, i * (e.1 - e.3), e.0 - e.2, ii * (e.1 - e.3), n);
    lemma_pow0(psi);
    lemma_pow_adds(psi, v, v);
    lemma_pow_adds(psi, 2 * v, v);
    assert(1 * component(q, a, 0, s) == component(q, a, 0, s));
}

/// What a slot of a transform holds.
proof fn lemma_slot_value(q: u16, y: Seq<u32>, a: Seq<int>, s: int, v: nat, k: nat)
    requires
        params::splitting(q),
        0 <= s < 162,
        v == slots::class(s),
        class_holds(q, y, a, s),
        k < 4,
    ensures
        same(
            y[slots::slot_of((v + 486 * k) as int)] as int,
            poly::eval(a, pow(params::psi_of(q) as int, v + 486 * k)),
            q as int,
        ),
{
    let u = v + 486 * k;
    slots::lemma_class(s);
    assert(u as int % 486 == v) by {
        lemma_mod_multiples_vanish(k as int, v as int, 486);
        lemma_small_mod(v, 486);
    }
    assert(u as int % 6 == v as int % 6);
    slots::lemma_slot_of(u as int);
    let j = slots::slot_of(u as int);
    slots::lemma_slot_exponent(j);
    assert(scalar::point(q, j) == pow(params::psi_of(q) as int, u));
    assert(y[j] == poly::eval(a, scalar::point(q, j)) % (q as int));
    modular::lemma_reduced(poly::eval(a, scalar::point(q, j)), q as int);
}

/// Slot `s` of the four components at a splitting prime.
fn split_slot(t: &Tree, q: u16, y: &[u32; 648], s: usize, i: u64) -> (r: (u64, u64, u64, u64))
    requires
        params::splitting(q),
        scalar::in_range(y@, q),
        *t == params::tree_of(q),
        t.wf(),
        s < 162,
        i < q,
        same(i as int, pow(params::psi_of(q) as int, 486), q as int),
    ensures
        r.0 == decomposed(q, poly::ints(y@), 0, s as int),
        r.1 == decomposed(q, poly::ints(y@), 1, s as int),
        r.2 == decomposed(q, poly::ints(y@), 2, s as int),
        r.3 == decomposed(q, poly::ints(y@), 3, s as int),
        r.0 < q && r.1 < q && r.2 < q && r.3 < q,
{
    let n: u64 = q as u64;
    let quarter: u64 = (3 * n + 1) / 4;
    let ghost psi = params::psi_of(q) as int;
    let v: u64 = slots::class_of(s);
    proof {
        slots::lemma_class(s as int);
    }
    let u: usize = v as usize;
    let e0: u64 = y[slots::slot_index(u)] as u64;
    let e1: u64 = y[slots::slot_index(u + 486)] as u64;
    let e2: u64 = y[slots::slot_index(u + 972)] as u64;
    let e3: u64 = y[slots::slot_index(u + 1458)] as u64;
    let d: u64 = (e1 + n - e3) % n;
    proof {
        tree::lemma_product(d, i);
    }
    let id: u64 = d * i % n;
    let m0: u64 = (e0 + e2 + (e1 + e3)) % n;
    let m1: u64 = (e0 + n - e2 + (n - id)) % n;
    let m2: u64 = (e0 + e2 + (2 * n - (e1 + e3))) % n;
    let m3: u64 = (e0 + n - e2 + id) % n;
    let ghost yy = poly::ints(y@);
    proof {
        let nn = n as int;
        lemma_butterfly(nn, i as int, e0 as int, e1 as int, e2 as int, e3 as int);
        let (ii, d13) = (pow(psi, 486), e1 - e3);
        modular::lemma_mul(i as int, d13, ii, d13, nn);
        modular::lemma_sub(e0 - e2, i * d13, e0 - e2, ii * d13, nn);
        modular::lemma_add(e0 - e2, i * d13, e0 - e2, ii * d13, nn);
        assert(same(m0 as int, gathered(q, yy, 0, s as int), nn));
        assert(same(m1 as int, gathered(q, yy, 1, s as int), nn));
        assert(same(m2 as int, gathered(q, yy, 2, s as int), nn));
        assert(same(m3 as int, gathered(q, yy, 3, s as int), nn));
        modular::lemma_reduced(1, nn);
        lemma_scaled(nn, m0 as int, gathered(q, yy, 0, s as int), quarter as int, 1, 1);
        tree::lemma_product(m0, quarter);
    }
    let r1: u64 = scaled_by(m1, quarter, t.psi, 1944 - v, n);
    let r2: u64 = scaled_by(m2, quarter, t.psi, 1944 - 2 * v, n);
    let r3: u64 = scaled_by(m3, quarter, t.psi, 1944 - 3 * v, n);
    proof {
        let nn = n as int;
        let (x1, x2, x3) = (
            pow(psi, (1944 - v) as nat),
            pow(psi, (1944 - 2 * v) as nat),
            pow(psi, (1944 - 3 * v) as nat),
        );
        lemma_times(nn, quarter * x1, m1 as int, gathered(q, yy, 1, s as int));
        lemma_times(nn, quarter * x2, m2 as int, gathered(q, yy, 2, s as int));
        lemma_times(nn, quarter * x3, m3 as int, gathered(q, yy, 3, s as int));
    }
    (m0 * quarter % n, r1, r2, r3)
}

proof fn lemma_times(q: int, c: int, x: int, y: int)
    requires
        q > 0,
        same(x, y, q),
    ensures
        c * x % q == c * y % q,
{
    modular::lemma_mul(c, x, c, y, q);
}

/// `m c x^e mod n`.
fn scaled_by(m: u64, c: u64, x: u64, e: u64, n: u64) -> (r: u64)
    requires
        2917 <= n <= 19441,
        m < n,
        c < n,
    ensures
        r == c * pow(x as int, e as nat) * m % (n as int),
        r < n,
{
    proof {
        tree::lemma_product(m, c);
    }
    let d: u64 = m * c % n;
    let p: u64 = modular::pow_mod(x, e, n);
    proof {
        tree::lemma_product(d, p);
        modular::lemma_reduced(pow(x as int, e as nat), n as int);
        lemma_scaled(n as int, m as int, m as int, c as int, p as int, pow(x as int, e as nat));
    }
    d * p % n
}

/// The components at a splitting prime.
fn split_components(q: u16, y: &[u32; 648]) -> (out: [[u32; 162]; 4])
    requires
        params::splitting(q),
        scalar::in_range(y@, q),
    ensures
        is_decomposed(q, out@, poly::ints(y@)),
        forall|k: int| 0 <= k < 4 ==> scalar::in_range((#[trigger] out@[k])@, q),
{
    let t = params::limb_tree(q);
    let i: u64 = modular::pow_mod(t.psi, 486, q as u64);
    let ghost yy = poly::ints(y@);
    proof {
        modular::lemma_reduced(pow(params::psi_of(q) as int, 486), q as int);
    }
    let mut o0: [u32; 162] = [0;162];
    let mut o1: [u32; 162] = [0;162];
    let mut o2: [u32; 162] = [0;162];
    let mut o3: [u32; 162] = [0;162];
    let mut s: usize = 0;
    while s < 162
        invariant
            s <= 162,
            params::splitting(q),
            scalar::in_range(y@, q),
            t == params::tree_of(q),
            t.wf(),
            yy == poly::ints(y@),
            i < q,
            same(i as int, pow(params::psi_of(q) as int, 486), q as int),
            forall|j: int| 0 <= j < s ==> (#[trigger] o0@[j]) == decomposed(q, yy, 0, j),
            forall|j: int| 0 <= j < s ==> (#[trigger] o1@[j]) == decomposed(q, yy, 1, j),
            forall|j: int| 0 <= j < s ==> (#[trigger] o2@[j]) == decomposed(q, yy, 2, j),
            forall|j: int| 0 <= j < s ==> (#[trigger] o3@[j]) == decomposed(q, yy, 3, j),
        decreases 162 - s,
    {
        let (r0, r1, r2, r3) = split_slot(&t, q, y, s, i);
        o0[s] = r0 as u32;
        o1[s] = r1 as u32;
        o2[s] = r2 as u32;
        o3[s] = r3 as u32;
        s += 1;
    }
    gather(q, Ghost(yy), o0, o1, o2, o3)
}

/// The four rows as one array.
fn gather(
    q: u16,
    Ghost(y): Ghost<Seq<int>>,
    o0: [u32; 162],
    o1: [u32; 162],
    o2: [u32; 162],
    o3: [u32; 162],
) -> (out: [[u32; 162]; 4])
    requires
        q >= 1,
        forall|j: int| 0 <= j < 162 ==> (#[trigger] o0@[j]) == decomposed(q, y, 0, j),
        forall|j: int| 0 <= j < 162 ==> (#[trigger] o1@[j]) == decomposed(q, y, 1, j),
        forall|j: int| 0 <= j < 162 ==> (#[trigger] o2@[j]) == decomposed(q, y, 2, j),
        forall|j: int| 0 <= j < 162 ==> (#[trigger] o3@[j]) == decomposed(q, y, 3, j),
    ensures
        is_decomposed(q, out@, y),
        forall|k: int| 0 <= k < 4 ==> scalar::in_range((#[trigger] out@[k])@, q),
{
    let out: [[u32; 162]; 4] = [o0, o1, o2, o3];
    proof {
        assert(out@[0] == o0 && out@[1] == o1 && out@[2] == o2 && out@[3] == o3);
        assert forall|k: int, s: int| 0 <= k < 4 && 0 <= s < 162 implies (#[trigger] out@[k]@[s])
            == decomposed(q, y, k, s) by {
            if k == 0 {
                assert(out@[k]@[s] == o0@[s]);
            } else if k == 1 {
                assert(out@[k]@[s] == o1@[s]);
            } else if k == 2 {
                assert(out@[k]@[s] == o2@[s]);
            } else {
                assert(out@[k]@[s] == o3@[s]);
            }
        }
        assert forall|k: int| 0 <= k < 4 implies scalar::in_range((#[trigger] out@[k])@, q) by {
            assert forall|i: int| 0 <= i < 162 implies (#[trigger] out@[k]@[i]) < q by {
                assert(out@[k]@[i] == decomposed(q, y, k, i));
                lemma_mod_bound(scaling(q, k, i) * gathered(q, y, k, i), q as int);
            }
        }
    }
    out
}

/// The sums and differences of the four values.
proof fn lemma_butterfly(q: int, i: int, e0: int, e1: int, e2: int, e3: int)
    requires
        q > 0,
    ensures
        ({
            let id = (e1 + q - e3) % q * i % q;
            &&& same((e0 + e2 + (e1 + e3)) % q, e0 + e2 + (e1 + e3), q)
            &&& same((e0 + q - e2 + (q - id)) % q, e0 - e2 - i * (e1 - e3), q)
            &&& same((e0 + e2 + (2 * q - (e1 + e3))) % q, e0 + e2 - (e1 + e3), q)
            &&& same((e0 + q - e2 + id) % q, e0 - e2 + i * (e1 - e3), q)
        }),
{
    let d = (e1 + q - e3) % q;
    let id = d * i % q;
    modular::lemma_multiple(e1 - e3, 1, q);
    modular::lemma_reduced(e1 + q - e3, q);
    modular::lemma_mul(d, i, e1 - e3, i, q);
    modular::lemma_reduced(d * i, q);
    assert((e1 - e3) * i == i * (e1 - e3)) by (nonlinear_arith);
    let g = i * (e1 - e3);
    assert(same(id, g, q));
    modular::lemma_reduced(e0 + e2 + (e1 + e3), q);
    modular::lemma_reduced(e0 + q - e2 + (q - id), q);
    modular::lemma_multiple(e0 - e2 - id, 2, q);
    modular::lemma_sub(e0 - e2, id, e0 - e2, g, q);
    modular::lemma_reduced(e0 + e2 + (2 * q - (e1 + e3)), q);
    modular::lemma_multiple(e0 + e2 - (e1 + e3), 2, q);
    modular::lemma_reduced(e0 + q - e2 + id, q);
    modular::lemma_multiple(e0 - e2 + id, 1, q);
    modular::lemma_add(e0 - e2, id, e0 - e2, g, q);
}

/// The point of a leaf of class `s` is a square root of the class's point.
pub proof fn lemma_leaf_square(q: u16, s: int, plus: bool)
    requires
        ring::quadratic(q),
        params::tree_of(q).wf(),
        0 <= s < 162,
    ensures
        ({
            let x = scalar::point(q, slots::leaf_of(s, plus));
            let c = pow(params::psi_of(q) as int, slots::class(s) as nat);
            &&& same(
                x,
                if plus {
                    c
                } else {
                    -c
                },
                q as int,
            )
            &&& same(x * x, theta(q, s), q as int)
            &&& c * c == theta(q, s)
        }),
{
    let (n, psi) = (q as int, params::psi_of(q) as int);
    let v = slots::class(s) as nat;
    slots::lemma_class(s);
    slots::lemma_leaf_of(s, plus);
    let j = slots::leaf_of(s, plus);
    slots::lemma_leaf_exponent(j);
    let u = slots::leaf_exponent(j) as nat;
    let e = if plus {
        v
    } else {
        v + 486
    };
    let c = pow(psi, v);
    let m = (u as int / 972) as nat;
    lemma_fundamental_div_mod(u as int, 972);
    assert(u == e + 972 * m);
    lemma_pow_adds(psi, e, 972 * m);
    modular::lemma_order(psi, 972, m, n);
    modular::lemma_mul(pow(psi, e), pow(psi, 972 * m), pow(psi, e), 1, n);
    assert(pow(psi, e) * 1 == pow(psi, e));
    if !plus {
        lemma_pow_adds(psi, v, 486);
        modular::lemma_mul(c, pow(psi, 486), c, -1, n);
        assert(c * -1 == -c);
    }
    let x = scalar::point(q, j);
    let y = if plus {
        c
    } else {
        -c
    };
    assert(same(x, y, n));
    modular::lemma_mul(x, x, y, y, n);
    assert(y * y == c * c) by (nonlinear_arith)
        requires
            y == c || y == -c,
    ;
    lemma_pow_adds(psi, v, v);
}

proof fn lemma_nines(u: int, v: int, plus: bool)
    requires
        0 <= v < 486,
        u % 972 == v + (if plus {
            0int
        } else {
            486
        }),
    ensures
        u % 486 == v,
{
    let m = u / 972;
    let e = if plus {
        0int
    } else {
        1
    };
    assert(u == 486 * (2 * m + e) + v);
    assert(u % 486 == v);
}

/// What a leaf of a transform holds.
proof fn lemma_leaf_value(q: u16, y: Seq<u32>, a: Seq<int>, s: int, plus: bool, k: int)
    requires
        ring::quadratic(q),
        params::tree_of(q).wf(),
        0 <= s < 162,
        class_holds(q, y, a, s),
        0 <= k < 2,
    ensures
        ({
            let c = pow(params::psi_of(q) as int, slots::class(s) as nat);
            let sign = if plus {
                1int
            } else {
                -1
            };
            same(
                y[2 * slots::leaf_of(s, plus) + k] as int,
                component(q, a, k, s) + sign * c * component(q, a, k + 2, s),
                q as int,
            )
        }),
{
    let n = q as int;
    let c = pow(params::psi_of(q) as int, slots::class(s) as nat);
    let sign = if plus {
        1int
    } else {
        -1
    };
    slots::lemma_leaf_of(s, plus);
    lemma_leaf_square(q, s, plus);
    let j = slots::leaf_of(s, plus);
    let x = sign * c;
    assert(1 * c == c && -1 * c == -c);
    let i = 2 * j + k;
    assert(i % 2 == k && i / 2 == j);
    slots::lemma_class(s);
    lemma_nines(slots::leaf_exponent(j), slots::class(s), plus);
    let w = scalar::point(q, j);
    let f = poly::strided(a, k, 2, w);
    assert(y[i] == f % n);
    modular::lemma_reduced(f, n);
    poly::lemma_point(a, k, 2, w, x, n);
    poly::lemma_split2(a, k, 2, x);
    assert(x * x == c * c) by (nonlinear_arith)
        requires
            x == sign * c,
            sign == 1 || sign == -1,
    ;
}

/// The components at a quadratic-slot prime.
fn quad_components(q: u16, y: &[u32; 648]) -> (out: [[u32; 162]; 4])
    requires
        ring::quadratic(q),
        scalar::in_range(y@, q),
    ensures
        is_decomposed(q, out@, poly::ints(y@)),
        forall|k: int| 0 <= k < 4 ==> scalar::in_range((#[trigger] out@[k])@, q),
{
    let t = params::limb_tree(q);
    let n: u64 = q as u64;
    let half: u64 = (n + 1) / 2;
    let ghost yy = poly::ints(y@);
    let mut o0: [u32; 162] = [0;162];
    let mut o1: [u32; 162] = [0;162];
    let mut o2: [u32; 162] = [0;162];
    let mut o3: [u32; 162] = [0;162];
    let mut s: usize = 0;
    while s < 162
        invariant
            s <= 162,
            ring::quadratic(q),
            scalar::in_range(y@, q),
            t == params::tree_of(q),
            n == q,
            half == (n + 1) / 2,
            yy == poly::ints(y@),
            forall|j: int| 0 <= j < s ==> (#[trigger] o0@[j]) == decomposed(q, yy, 0, j),
            forall|j: int| 0 <= j < s ==> (#[trigger] o1@[j]) == decomposed(q, yy, 1, j),
            forall|j: int| 0 <= j < s ==> (#[trigger] o2@[j]) == decomposed(q, yy, 2, j),
            forall|j: int| 0 <= j < s ==> (#[trigger] o3@[j]) == decomposed(q, yy, 3, j),
        decreases 162 - s,
    {
        let v: u64 = slots::class_of(s);
        let jp: usize = slots::leaf_index(s, true);
        let jm: usize = slots::leaf_index(s, false);
        let pi: u64 = modular::pow_mod(t.psi, 1944 - v, n);
        let (r0, r2): (u64, u64) = half_pair(y[2 * jp] as u64, y[2 * jm] as u64, n, half, pi);
        let (r1, r3): (u64, u64) = half_pair(
            y[2 * jp + 1] as u64,
            y[2 * jm + 1] as u64,
            n,
            half,
            pi,
        );
        proof {
            let nn = n as int;
            let x = pow(params::psi_of(q) as int, (1944 - v) as nat);
            modular::lemma_reduced(x, nn);
            lemma_halves(
                nn,
                half as int,
                y@[2 * jp as int] as int,
                y@[2 * jm as int] as int,
                pi as int,
                x,
            );
            lemma_halves(
                nn,
                half as int,
                y@[2 * jp + 1] as int,
                y@[2 * jm + 1] as int,
                pi as int,
                x,
            );
        }
        o0[s] = r0 as u32;
        o1[s] = r1 as u32;
        o2[s] = r2 as u32;
        o3[s] = r3 as u32;
        s += 1;
    }
    gather(q, Ghost(yy), o0, o1, o2, o3)
}

/// A transform holds the rows of every class.
pub proof fn lemma_classes(q: u16, y: Seq<u32>, a: Seq<int>, s: int)
    requires
        is_transform(q, y, a),
    ensures
        class_holds(q, y, a, s),
{
}

/// The rows of a class decompose into the slots of the components.
pub proof fn class_decomposes(q: u16, y: Seq<u32>, a: Seq<int>, k: int, s: int)
    requires
        params::limb_prime(q),
        y.len() == 648,
        0 <= k < 4,
        0 <= s < 162,
        class_holds(q, y, a, s),
    ensures
        decomposed(q, poly::ints(y), k, s) == component(q, a, k, s) % (q as int),
{
    if params::splitting(q) {
        lemma_split_decomposes(q, y, a, k, s);
    } else {
        lemma_quad_decomposes(q, y, a, k, s);
    }
}

/// The slots of a ring element's transform decompose into the slots of its components.
pub proof fn transform_decomposes(q: u16, y: Seq<u32>, a: Seq<int>, k: int, s: int)
    requires
        params::limb_prime(q),
        y.len() == 648,
        is_transform(q, y, a),
        0 <= k < 4,
        0 <= s < 162,
    ensures
        decomposed(q, poly::ints(y), k, s) == component(q, a, k, s) % (q as int),
{
    lemma_classes(q, y, a, s);
    class_decomposes(q, y, a, k, s);
}

/// What the sums of a class are at a splitting prime.
proof fn lemma_split_gathered(q: u16, y: Seq<u32>, a: Seq<int>, k: int, s: int)
    requires
        params::splitting(q),
        y.len() == 648,
        0 <= k < 4,
        0 <= s < 162,
        class_holds(q, y, a, s),
    ensures
        same(
            gathered(q, poly::ints(y), k, s),
            4 * (pow(params::psi_of(q) as int, (k * slots::class(s)) as nat) * component(
                q,
                a,
                k,
                s,
            )),
            q as int,
        ),
{
    let psi = params::psi_of(q) as int;
    let yy = poly::ints(y);
    let v = slots::class(s);
    params::lemma_limb(q);
    slots::lemma_class(s);
    slots::lemma_slot_of(v);
    slots::lemma_slot_of(v + 486);
    slots::lemma_slot_of(v + 972);
    slots::lemma_slot_of(v + 1458);
    lemma_split_slot(
        q,
        y,
        a,
        s,
        pow(psi, 486),
        (
            gathered(q, yy, 0, s),
            gathered(q, yy, 1, s),
            gathered(q, yy, 2, s),
            gathered(q, yy, 3, s),
        ),
    );
    if k == 0 {
        assert(k * v == 0);
    } else if k == 1 {
        assert(k * v == v);
    } else if k == 2 {
        assert(k * v == 2 * v);
    } else {
        assert(k * v == 3 * v);
    }
}

proof fn lemma_split_decomposes(q: u16, y: Seq<u32>, a: Seq<int>, k: int, s: int)
    requires
        params::splitting(q),
        y.len() == 648,
        0 <= k < 4,
        0 <= s < 162,
        class_holds(q, y, a, s),
    ensures
        decomposed(q, poly::ints(y), k, s) == component(q, a, k, s) % (q as int),
{
    let (n, psi, t) = (q as int, params::psi_of(q) as int, params::tree_of(q));
    let g = gathered(q, poly::ints(y), k, s);
    let c = component(q, a, k, s);
    let quarter = (3 * n + 1) / 4;
    let v = slots::class(s);
    lemma_split_gathered(q, y, a, k, s);
    params::lemma_limb(q);
    slots::lemma_class(s);
    modular::lemma_multiple(1, 3, n);
    assert(4 * quarter == 1 + 3 * n);
    assert(0 <= k * v <= 1944) by (nonlinear_arith)
        requires
            0 <= k < 4,
            0 <= v < 486,
    ;
    let e = (k * v) as nat;
    let (p, pi) = (pow(psi, e), pow(psi, (1944 - e) as nat));
    lemma_turn(t, e);
    if k == 0 {
        lemma_pow0(psi);
        assert(e == 0);
        lemma_scaled(n, g, g, quarter, 1, 1);
        lemma_mod_twice(g * quarter, n);
        assert(g * quarter % n * 1 == g * quarter % n);
        assert(1 * 1 == 1int);
        lemma_unscale(n, quarter, 4, 1, 1, g, c, g * quarter % n * 1 % n);
    } else {
        lemma_scaled(n, g, g, quarter, pi, pi);
        lemma_unscale(n, quarter, 4, p, pi, g, c, g * quarter % n * pi % n);
    }
}

proof fn lemma_quad_decomposes(q: u16, y: Seq<u32>, a: Seq<int>, k: int, s: int)
    requires
        ring::quadratic(q),
        y.len() == 648,
        0 <= k < 4,
        0 <= s < 162,
        class_holds(q, y, a, s),
    ensures
        decomposed(q, poly::ints(y), k, s) == component(q, a, k, s) % (q as int),
{
    let (n, psi, t) = (q as int, params::psi_of(q) as int, params::tree_of(q));
    let v = slots::class(s) as nat;
    let half = (n + 1) / 2;
    params::lemma_limb(q);
    slots::lemma_class(s);
    modular::lemma_multiple(1, 1, n);
    assert(2 * half == 1 + 1 * n);
    let (j, x) = (k % 2, pow(psi, (1944 - v) as nat));
    slots::lemma_leaf_of(s, true);
    slots::lemma_leaf_of(s, false);
    lemma_leaf_value(q, y, a, s, true, j);
    lemma_leaf_value(q, y, a, s, false, j);
    lemma_turn(t, v);
    let (ep, em) = (
        y[2 * slots::leaf_of(s, true) + j] as int,
        y[2 * slots::leaf_of(s, false) + j] as int,
    );
    lemma_pair(
        n,
        half,
        pow(psi, v),
        x,
        ep,
        em,
        component(q, a, j, s),
        component(q, a, j + 2, s),
    );
    lemma_halves(n, half, ep, em, x, x);
}

/// Half the sum, and half the difference over the class's root.
fn half_pair(ep: u64, em: u64, n: u64, half: u64, pi: u64) -> (r: (u64, u64))
    requires
        2917 <= n <= 19441,
        ep < n,
        em < n,
        half < n,
        pi < n,
    ensures
        r.0 == (ep + em) as int % n as int * half % n as int,
        r.1 == (ep + n - em) as int % n as int * half % n as int * pi % n as int,
        r.0 < n,
        r.1 < n,
{
    let s: u64 = (ep + em) % n;
    let d: u64 = (ep + n - em) % n;
    proof {
        tree::lemma_product(s, half);
        tree::lemma_product(d, half);
    }
    let e: u64 = d * half % n;
    proof {
        tree::lemma_product(e, pi);
    }
    (s * half % n, e * pi % n)
}

proof fn lemma_halves(q: int, half: int, ep: int, em: int, pi: int, x: int)
    requires
        q > 0,
        same(pi, x, q),
    ensures
        (ep + em) % q * half % q == half * (ep + em) % q,
        (ep + q - em) % q * half % q * pi % q == half * x * (ep - em) % q,
{
    modular::lemma_reduced(ep + em, q);
    lemma_scaled(q, (ep + em) % q, ep + em, half, pi, x);
    modular::lemma_multiple(ep - em, 1, q);
    modular::lemma_reduced(ep + q - em, q);
    lemma_scaled(q, (ep + q - em) % q, ep - em, half, pi, x);
}

proof fn lemma_pair(q: int, half: int, c: int, pi: int, ep: int, em: int, x: int, z: int)
    requires
        q > 0,
        same(2 * half, 1, q),
        same(c * pi, 1, q),
        same(ep, x + 1 * c * z, q),
        same(em, x + -1 * c * z, q),
    ensures
        (ep + em) % q * half % q == x % q,
        (ep + q - em) % q * half % q * pi % q == z % q,
{
    assert(-1 * c * z == -(c * z) && 1 * c * z == c * z) by (nonlinear_arith);
    modular::lemma_add(ep, em, x + c * z, x - c * z, q);
    modular::lemma_reduced(ep + em, q);
    modular::lemma_mul((ep + em) % q, half, 2 * x, half, q);
    assert(2 * x * half == 2 * half * x) by (nonlinear_arith);
    modular::lemma_mul(2 * half, x, 1, x, q);
    assert(1 * x == x);
    modular::lemma_sub(ep, em, x + c * z, x - c * z, q);
    modular::lemma_multiple(ep - em, 1, q);
    modular::lemma_reduced(ep + q - em, q);
    lemma_unscale(
        q,
        half,
        2,
        c,
        pi,
        (ep + q - em) % q,
        z,
        (ep + q - em) % q * half % q * pi % q,
    );
}

/// The components of a ring element at any limb, from its transform.
pub fn components(q: u16, y: &[u32; 648]) -> (out: [[u32; 162]; 4])
    requires
        params::limb_prime(q),
        scalar::in_range(y@, q),
    ensures
        is_decomposed(q, out@, poly::ints(y@)),
        forall|k: int| 0 <= k < 4 ==> scalar::in_range((#[trigger] out@[k])@, q),
{
    if params::quadratic_slots(q) {
        quad_components(q, y)
    } else {
        split_components(q, y)
    }
}

/// The components at a splitting prime, fully reduced.
pub fn decompose_648_to_4x162<const Q: u16>(y: &[u32; 648]) -> (out: [[u32; 162]; 4])
    requires
        params::splitting(Q),
        scalar::in_range(y@, Q),
    ensures
        is_decomposed(Q, out@, poly::ints(y@)),
        forall|k: int| 0 <= k < 4 ==> scalar::in_range((#[trigger] out@[k])@, Q),
{
    split_components(Q, y)
}

/// The components at a quadratic-slot prime, fully reduced.
pub fn decompose_quad_648_to_4x162<const Q: u16>(y: &[u32; 648]) -> (out: [[u32; 162]; 4])
    requires
        ring::quadratic(Q),
        scalar::in_range(y@, Q),
    ensures
        is_decomposed(Q, out@, poly::ints(y@)),
        forall|k: int| 0 <= k < 4 ==> scalar::in_range((#[trigger] out@[k])@, Q),
{
    quad_components(Q, y)
}

/// The centred representative of a residue.
pub fn centred(x: u32, q: u16) -> (r: i16)
    requires
        x < q <= 0x7FFF,
    ensures
        r == crate::wire::uniform::centre(x as int, q as int),
{
    if x > (q as u32 - 1) / 2 {
        (x as i32 - q as i32) as i16
    } else {
        x as i16
    }
}

/// The four components for any limb, centred.
pub fn components_of(q: u16, y: &[u32; 648]) -> (out: [PowerOfThreeRingElement; 4])
    requires
        params::limb_prime(q),
        scalar::in_range(y@, q),
    ensures
        forall|k: int, s: int|
            0 <= k < 4 && 0 <= s < 162 ==> (#[trigger] out@[k].v@[s])
                == crate::wire::uniform::centre(
                decomposed(q, poly::ints(y@), k, s),
                q as int,
            ),
{
    let c = components(q, y);
    let z = PowerOfThreeRingElement::zero();
    let mut out: [PowerOfThreeRingElement; 4] = [z, z, z, z];
    let mut k: usize = 0;
    while k < 4
        invariant
            k <= 4,
            2917 <= q <= 19441,
            forall|k: int| 0 <= k < 4 ==> scalar::in_range((#[trigger] c@[k])@, q),
            forall|i: int, s: int|
                0 <= i < k && 0 <= s < 162 ==> (#[trigger] out@[i].v@[s])
                    == crate::wire::uniform::centre(c@[i]@[s] as int, q as int),
        decreases 4 - k,
    {
        let mut p = z;
        let mut s: usize = 0;
        while s < 162
            invariant
                s <= 162,
                k < 4,
                2917 <= q <= 19441,
                scalar::in_range(c@[k as int]@, q),
                forall|j: int|
                    0 <= j < s ==> (#[trigger] p.v@[j]) == crate::wire::uniform::centre(
                        c@[k as int]@[j] as int,
                        q as int,
                    ),
            decreases 162 - s,
        {
            p.v[s] = centred(c[k][s], q);
            s += 1;
        }
        out[k] = p;
        k += 1;
    }
    out
}

/// The first `n` terms of `sum_m a_(4 m + k) psi^(e m)`.
pub open spec fn power_sum(a: Seq<int>, k: int, psi: int, e: nat, n: nat) -> int
    decreases n,
{
    if n == 0 {
        0
    } else {
        power_sum(a, k, psi, e, (n - 1) as nat) + a[4 * (n - 1) + k] * pow(
            psi,
            e * (n - 1) as nat,
        )
    }
}

/// Horner's rule is the sum of the powers.
proof fn lemma_power_sum(a: Seq<int>, k: int, psi: int, e: nat, n: nat)
    requires
        a.len() == 648,
        0 <= k < 4,
        n <= 162,
    ensures
        poly::strided(a, k, 4, pow(psi, e)) == power_sum(a, k, psi, e, n) + pow(psi, e * n)
            * poly::strided(a, 4 * n + k, 4, pow(psi, e)),
    decreases n,
{
    let x = pow(psi, e);
    if n == 0 {
        assert(e * n == 0) by (nonlinear_arith)
            requires
                n == 0,
        ;
        lemma_pow0(psi);
        let y = poly::strided(a, k, 4, x);
        assert(1 * y == y) by (nonlinear_arith);
    } else {
        let m = (n - 1) as nat;
        lemma_power_sum(a, k, psi, e, m);
        lemma_pow_adds(psi, e * m, e);
        assert(e * m + e == e * n) by (nonlinear_arith)
            requires
                n == m + 1,
        ;
        let (p, c, y) = (
            pow(psi, e * m),
            a[4 * m + k],
            poly::strided(a, 4 * n + k, 4, x),
        );
        assert(poly::strided(a, 4 * m + k, 4, x) == c + x * y);
        assert(p * (c + x * y) == c * p + (p * x) * y) by (nonlinear_arith);
    }
}

/// The components of a transform by their definition: slot `s` of component `k` of the transform of
/// `a` is `sum_m a_(4 m + k) psi^(4 m v_s)` modulo a splitting prime, where `v_s` is the class of the
/// slot.
pub proof fn components_are_values(q: u16, y: Seq<u32>, a: Seq<int>, k: int, s: int)
    requires
        params::splitting(q),
        y.len() == 648,
        a.len() == 648,
        is_transform(q, y, a),
        0 <= k < 4,
        0 <= s < 162,
    ensures
        decomposed(q, poly::ints(y), k, s) == power_sum(
            a,
            k,
            params::psi_of(q) as int,
            (4 * slots::class(s)) as nat,
            162,
        ) % (q as int),
{
    let psi = params::psi_of(q) as int;
    slots::lemma_class(s);
    let e = (4 * slots::class(s)) as nat;
    transform_decomposes(q, y, a, k, s);
    lemma_power_sum(a, k, psi, e, 162);
    let p = pow(psi, e * 162);
    assert(poly::strided(a, 4 * 162 + k, 4, pow(psi, e)) == 0);
    assert(p * 0 == 0) by (nonlinear_arith);
}

} // verus!
