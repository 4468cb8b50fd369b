//! The 648 rows of a ring element from its four `R_162` components.
//!
//! Row `j` is the value of `c_0 + c_1 X + c_2 X^2 + c_3 X^3` at the row's point, where `c_k` is the
//! slot of component `k` of the row's class; at a quadratic-slot prime it is that polynomial's
//! remainder by `X^2` minus the leaf's point.
use super::decompose;
use super::slots;
use crate::modular;
use crate::modular::same;
use crate::ntt::poly;
use crate::ntt::tree;
use crate::params;
use crate::scalar;
use vstd::arithmetic::div_mod::*;
use vstd::arithmetic::power::*;
use vstd::prelude::*;

verus! {

/// The slot of `R_162` whose class the row or leaf with the digits `b`, `c` and `x` is in.
pub open spec fn slot_in_class(b: int, c: int, x: int) -> int {
    81 * b + slots::reversed((slots::reversed(x) + 61 * c) % 81)
}

/// Two slots of one class are one.
proof fn lemma_one_class(s: int, t: int)
    requires
        0 <= s < 162,
        0 <= t < 162,
        slots::class(s) == slots::class(t),
    ensures
        s == t,
{
    slots::class_order(s);
    slots::class_order(t);
    let (j, i) = (s + 243 * (s / 81), t + 243 * (t / 81));
    assert(slots::slot_exponent(i) % 486 == slots::class(s));
    assert(slots::slot_exponent(j) % 486 == slots::class(t));
    assert(i == j);
}

proof fn lemma_slot_in_class(b: int, c: int, x: int)
    requires
        0 <= b < 2,
        0 <= c < 4,
        0 <= x < 81,
    ensures
        0 <= slot_in_class(b, c, x) < 162,
        slots::class(slot_in_class(b, c, x)) == (1 + 4 * b + 6 * c + 24 * slots::reversed(x)) % 486,
{
    slots::lemma_reversed(x);
    let r = slots::reversed(x);
    let d = (r + 61 * c) % 81;
    slots::lemma_reversed(d);
    let s = slot_in_class(b, c, x);
    assert(s / 81 == b && s % 81 == slots::reversed(d));
    let m = (r + 61 * c) / 81;
    assert(r + 61 * c == 81 * m + d);
    let (u, w) = (1 + 4 * b + 24 * d, 1 + 4 * b + 6 * c + 24 * r);
    assert(u == w + 486 * (3 * c - 4 * m));
    lemma_mod_multiples_vanish(3 * c - 4 * m, w, 486);
}

/// The slot of `R_162` in whose class row `j` is.
pub open spec fn row_slot(q: u16, j: int) -> int {
    if params::splitting(q) {
        slot_in_class(j / 324, j / 162 % 2 + 2 * (j / 81 % 2), j % 81)
    } else {
        slot_in_class(j / 324, j / 2 / 81 % 2, j / 2 % 81)
    }
}

proof fn lemma_row_slot(q: u16, j: int)
    requires
        0 <= j < 648,
    ensures
        0 <= row_slot(q, j) < 162,
        slots::class(row_slot(q, j)) == (if params::splitting(q) {
            slots::slot_exponent(j) % 486
        } else {
            slots::leaf_exponent(j / 2) % 486
        }),
{
    if params::splitting(q) {
        lemma_slot_in_class(j / 324, j / 162 % 2 + 2 * (j / 81 % 2), j % 81);
    } else {
        assert(j / 324 == j / 2 / 162);
        lemma_slot_in_class(j / 324, j / 2 / 81 % 2, j / 2 % 81);
    }
}

/// The four slots `s` as the coefficients of a polynomial.
pub open spec fn slot_poly(c: Seq<[u32; 162]>, s: int) -> Seq<int> {
    seq![c[0]@[s] as int, c[1]@[s] as int, c[2]@[s] as int, c[3]@[s] as int]
}

/// The component of a polynomial of degree three.
proof fn lemma_short(a: Seq<int>, k: int, x: int)
    requires
        a.len() == 4,
        0 <= k < 4,
    ensures
        poly::strided(a, k, 4, x) == a[k],
        k < 2 ==> poly::strided(a, k, 2, x) == a[k] + x * a[k + 2],
        poly::eval(a, x) == a[0] + x * (a[1] + x * (a[2] + x * a[3])),
{
    assert(x * 0 == 0) by (nonlinear_arith);
    assert(poly::strided(a, k + 4, 4, x) == 0);
    if k < 2 {
        assert(poly::strided(a, k + 4, 2, x) == 0);
        assert(poly::strided(a, k + 2, 2, x) == a[k + 2] + x * 0);
    }
    assert(poly::strided(a, 4, 1, x) == 0);
    assert(poly::strided(a, 3, 1, x) == a[3] + x * 0);
    assert(poly::strided(a, 2, 1, x) == a[2] + x * a[3]);
    assert(poly::strided(a, 1, 1, x) == a[1] + x * (a[2] + x * a[3]));
}

/// `c + x y` modulo `n`.
fn step(c: u64, x: u64, y: u64, n: u64, Ghost(z): Ghost<int>, Ghost(w): Ghost<int>) -> (r: u64)
    requires
        2917 <= n <= 19441,
        c < n,
        x < n,
        y < n,
        same(x as int, z, n as int),
        same(y as int, w, n as int),
    ensures
        r < n,
        same(r as int, c + z * w, n as int),
        r == (c + z * w) % (n as int),
{
    proof {
        tree::lemma_product(x, y);
    }
    let p: u64 = x * y % n;
    proof {
        let m = n as int;
        modular::lemma_mul(x as int, y as int, z, w, m);
        modular::lemma_reduced(x * y, m);
        modular::lemma_add(c as int, p as int, c as int, z * w, m);
        modular::lemma_reduced(c + p, m);
    }
    (c + p) % n
}

/// Row `j` from the components.
fn row(q: u16, c: &[[u32; 162]; 4], j: usize, psi: u64) -> (r: u32)
    requires
        params::limb_prime(q),
        psi == params::psi_of(q),
        forall|k: int| 0 <= k < 4 ==> scalar::in_range((#[trigger] c@[k])@, q),
        j < 648,
    ensures
        r < q,
        params::splitting(q) ==> r == poly::eval(
            slot_poly(c@, row_slot(q, j as int)),
            scalar::point(q, j as int),
        ) % (q as int),
        !params::splitting(q) ==> r == poly::strided(
            slot_poly(c@, row_slot(q, j as int)),
            j as int % 2,
            2,
            scalar::point(q, j as int / 2),
        ) % (q as int),
{
    let n: u64 = q as u64;
    let quad = params::quadratic_slots(q);
    proof {
        params::lemma_limb(q);
        lemma_row_slot(q, j as int);
        slots::lemma_reversed(j as int % 81);
        slots::lemma_reversed(j as int / 2 % 81);
    }
    let leaf: usize = if quad {
        j / 2
    } else {
        j
    };
    let d: usize = if quad {
        leaf / 81 % 2
    } else {
        leaf / 162 % 2 + 2 * (leaf / 81 % 2)
    };
    let e: u64 = tree::place_of(!quad, 1, leaf as u64);
    let s: usize = 81 * (j / 324) + slots::reverse((slots::reverse(leaf % 81) + 61 * d) % 81);
    let x: u64 = modular::pow_mod(psi, e, n);
    let ghost z = pow(params::psi_of(q) as int, e as nat);
    let ghost a = slot_poly(c@, s as int);
    proof {
        modular::lemma_reduced(z, n as int);
        assert(scalar::in_range(c@[0]@, q));
        assert(scalar::in_range(c@[1]@, q));
        assert(scalar::in_range(c@[2]@, q));
        assert(scalar::in_range(c@[3]@, q));
        lemma_short(a, 0, z);
        lemma_short(a, j as int % 2, z);
    }
    if quad {
        let k: usize = j % 2;
        let hi: u64 = c[k + 2][s] as u64;
        proof {
            modular::lemma_reduced(hi as int, n as int);
        }
        let r: u64 = step(c[k][s] as u64, x, hi, n, Ghost(z), Ghost(hi as int));
        r as u32
    } else {
        let c3: u64 = c[3][s] as u64;
        proof {
            modular::lemma_reduced(c3 as int, n as int);
        }
        let r2: u64 = step(c[2][s] as u64, x, c3, n, Ghost(z), Ghost(c3 as int));
        let r1: u64 = step(c[1][s] as u64, x, r2, n, Ghost(z), Ghost(a[2] + z * a[3]));
        let r: u64 = step(
            c[0][s] as u64,
            x,
            r1,
            n,
            Ghost(z),
            Ghost(a[1] + z * (a[2] + z * a[3])),
        );
        r as u32
    }
}

/// The 648 rows in `[0, q)` whose components are `c`.
pub fn recombine(q: u16, c: &[[u32; 162]; 4]) -> (y: [u32; 648])
    requires
        params::limb_prime(q),
        forall|k: int| 0 <= k < 4 ==> scalar::in_range((#[trigger] c@[k])@, q),
    ensures
        scalar::in_range(y@, q),
        decompose::is_decomposed(q, c@, poly::ints(y@)),
{
    let t = params::limb_tree(q);
    let mut y: [u32; 648] = [0;648];
    let mut j: usize = 0;
    while j < 648
        invariant
            j <= 648,
            params::limb_prime(q),
            t.psi == params::psi_of(q),
            forall|k: int| 0 <= k < 4 ==> scalar::in_range((#[trigger] c@[k])@, q),
            forall|i: int| 0 <= i < j ==> (#[trigger] y@[i]) < q,
            params::splitting(q) ==> forall|i: int|
                0 <= i < j ==> (#[trigger] y@[i]) == poly::eval(
                    slot_poly(c@, row_slot(q, i)),
                    scalar::point(q, i),
                ) % (q as int),
            !params::splitting(q) ==> forall|i: int|
                0 <= i < j ==> (#[trigger] y@[i]) == poly::strided(
                    slot_poly(c@, row_slot(q, i)),
                    i % 2,
                    2,
                    scalar::point(q, i / 2),
                ) % (q as int),
        decreases 648 - j,
    {
        y[j] = row(q, c, j, t.psi);
        j += 1;
    }
    proof {
        assert forall|k: int, s: int| 0 <= k < 4 && 0 <= s < 162 implies (#[trigger] c@[k]@[s])
            == decompose::decomposed(q, poly::ints(y@), k, s) by {
            let a = slot_poly(c@, s);
            assert forall|i: int|
                0 <= i < 648 && slots::class(row_slot(q, i)) == slots::class(s) implies #[trigger] row_slot(
                q,
                i,
            ) == s by {
                lemma_row_slot(q, i);
                lemma_one_class(row_slot(q, i), s);
            }
            assert(decompose::class_holds(q, y@, a, s)) by {
                assert forall|i: int| 0 <= i < 648 implies slots::class(#[trigger] row_slot(q, i))
                    == (if params::splitting(q) {
                    slots::slot_exponent(i) % 486
                } else {
                    slots::leaf_exponent(i / 2) % 486
                }) by {
                    lemma_row_slot(q, i);
                }
            }
            decompose::class_decomposes(q, y@, a, k, s);
            lemma_short(a, k, decompose::theta(q, s));
            assert(scalar::in_range(c@[k]@, q));
            lemma_small_mod(c@[k]@[s] as nat, q as nat);
        }
    }
    y
}

// ---------------------------------------------------------------------------------------------
// laws
// ---------------------------------------------------------------------------------------------

/// The fourth power of a slot's point, or the square of a leaf's, is the point of its class.
proof fn lemma_class_point(q: u16, s: int, u: nat)
    requires
        params::limb_prime(q),
        0 <= s < 162,
        u as int % 486 == slots::class(s),
    ensures
        ({
            let x = pow(params::psi_of(q) as int, u);
            &&& params::splitting(q) ==> same(
                x * x * (x * x),
                decompose::theta(q, s),
                q as int,
            )
            &&& !params::splitting(q) ==> same(x * x, decompose::theta(q, s), q as int)
        }),
{
    let (n, psi) = (q as int, params::psi_of(q) as int);
    params::lemma_limb(q);
    slots::lemma_class(s);
    let v = slots::class(s) as nat;
    let k = (u as int / 486) as nat;
    lemma_fundamental_div_mod(u as int, 486);
    lemma_pow_adds(psi, u, u);
    lemma_pow_adds(psi, u + u, u + u);
    let (m, order): (nat, nat) = if params::splitting(q) {
        (4, 1944)
    } else {
        (2, 972)
    };
    assert(m * u == m * v + order * k) by (nonlinear_arith)
        requires
            u == 486 * k + v,
            order == 486 * m,
    ;
    lemma_pow_adds(psi, m * v, order * k);
    modular::lemma_order(psi, order, k, n);
    modular::lemma_mul(pow(psi, m * v), pow(psi, order * k), pow(psi, m * v), 1, n);
    assert(pow(psi, m * v) * 1 == pow(psi, m * v));
}

/// The rows of the transform of `a`.
spec fn transformed(q: u16, a: Seq<int>) -> Seq<u32> {
    Seq::new(
        648,
        |j: int|
            (if params::splitting(q) {
                poly::eval(a, scalar::point(q, j)) % (q as int)
            } else {
                poly::strided(a, j % 2, 2, scalar::point(q, j / 2)) % (q as int)
            }) as u32,
    )
}

/// Elements whose components agree agree in a row of the transform.
proof fn lemma_row_agrees(q: u16, a: Seq<int>, b: Seq<int>, j: int)
    requires
        params::limb_prime(q),
        0 <= j < 648,
        forall|k: int, s: int|
            0 <= k < 4 && 0 <= s < 162 ==> same(
                #[trigger] decompose::component(q, a, k, s),
                decompose::component(q, b, k, s),
                q as int,
            ),
    ensures
        params::splitting(q) ==> same(
            poly::eval(a, scalar::point(q, j)),
            poly::eval(b, scalar::point(q, j)),
            q as int,
        ),
        !params::splitting(q) ==> same(
            poly::strided(a, j % 2, 2, scalar::point(q, j / 2)),
            poly::strided(b, j % 2, 2, scalar::point(q, j / 2)),
            q as int,
        ),
{
    let n = q as int;
    params::lemma_limb(q);
    lemma_row_slot(q, j);
    let s = row_slot(q, j);
    let z = decompose::theta(q, s);
    if params::splitting(q) {
        slots::lemma_slot_exponent(j);
        slots::lemma_reversed(j % 81);
        let x = scalar::point(q, j);
        lemma_class_point(q, s, scalar::exponent(q, j));
        let (xx, y) = (x * x, x * x * (x * x));
        decompose::lemma_quarters(a, x);
        decompose::lemma_quarters(b, x);
        lemma_same_part(q, a, b, 0, s, y);
        lemma_same_part(q, a, b, 1, s, y);
        lemma_same_part(q, a, b, 2, s, y);
        lemma_same_part(q, a, b, 3, s, y);
        let (a0, a1, a2, a3) = (
            poly::strided(a, 0, 4, y),
            poly::strided(a, 1, 4, y),
            poly::strided(a, 2, 4, y),
            poly::strided(a, 3, 4, y),
        );
        let (b0, b1, b2, b3) = (
            poly::strided(b, 0, 4, y),
            poly::strided(b, 1, 4, y),
            poly::strided(b, 2, 4, y),
            poly::strided(b, 3, 4, y),
        );
        modular::lemma_mul(x, a1, x, b1, n);
        modular::lemma_mul(xx, a2, xx, b2, n);
        modular::lemma_mul(xx * x, a3, xx * x, b3, n);
        modular::lemma_add(a0, x * a1, b0, x * b1, n);
        modular::lemma_add(a0 + x * a1, xx * a2, b0 + x * b1, xx * b2, n);
        modular::lemma_add(
            a0 + x * a1 + xx * a2,
            xx * x * a3,
            b0 + x * b1 + xx * b2,
            xx * x * b3,
            n,
        );
    } else {
        slots::lemma_leaf_exponent(j / 2);
        slots::lemma_reversed(j / 2 % 81);
        let x = scalar::point(q, j / 2);
        lemma_class_point(q, s, scalar::exponent(q, j / 2));
        let (k, y) = (j % 2, x * x);
        poly::lemma_split2(a, k, 2, x);
        poly::lemma_split2(b, k, 2, x);
        lemma_same_part(q, a, b, k, s, y);
        lemma_same_part(q, a, b, k + 2, s, y);
        let (a0, a2) = (poly::strided(a, k, 4, y), poly::strided(a, k + 2, 4, y));
        let (b0, b2) = (poly::strided(b, k, 4, y), poly::strided(b, k + 2, 4, y));
        modular::lemma_mul(x, a2, x, b2, n);
        modular::lemma_add(a0, x * a2, b0, x * b2, n);
    }
}

proof fn lemma_same_part(q: u16, a: Seq<int>, b: Seq<int>, k: int, s: int, y: int)
    requires
        params::limb_prime(q),
        0 <= k < 4,
        0 <= s < 162,
        same(y, decompose::theta(q, s), q as int),
        same(decompose::component(q, a, k, s), decompose::component(q, b, k, s), q as int),
    ensures
        same(poly::strided(a, k, 4, y), poly::strided(b, k, 4, y), q as int),
{
    params::lemma_limb(q);
    poly::lemma_point(a, k, 4, y, decompose::theta(q, s), q as int);
    poly::lemma_point(b, k, 4, y, decompose::theta(q, s), q as int);
}

/// A ring element is determined modulo `q` by the slots of its four components.
pub proof fn components_determine(q: u16, a: Seq<int>, b: Seq<int>)
    requires
        params::limb_prime(q),
        a.len() == 648,
        b.len() == 648,
        forall|k: int, s: int|
            0 <= k < 4 && 0 <= s < 162 ==> same(
                #[trigger] decompose::component(q, a, k, s),
                decompose::component(q, b, k, s),
                q as int,
            ),
    ensures
        forall|i: int| 0 <= i < 648 ==> same(#[trigger] a[i], b[i], q as int),
{
    params::lemma_limb(q);
    let y = transformed(q, a);
    assert forall|j: int| 0 <= j < 648 implies (#[trigger] y[j]) == (if params::splitting(q) {
        poly::eval(a, scalar::point(q, j)) % (q as int)
    } else {
        poly::strided(a, j % 2, 2, scalar::point(q, j / 2)) % (q as int)
    }) && y[j] == (if params::splitting(q) {
        poly::eval(b, scalar::point(q, j)) % (q as int)
    } else {
        poly::strided(b, j % 2, 2, scalar::point(q, j / 2)) % (q as int)
    }) by {
        lemma_row_agrees(q, a, b, j);
    }
    assert(decompose::is_transform(q, y, a));
    assert(decompose::is_transform(q, y, b));
    scalar::transform_determines_residues(q, y, a, b);
}

} // verus!
