//! What the transforms keep.
use super::inverse;
use super::poly;
use super::tree;
use super::tree::Tree;
use crate::modular;
use crate::modular::same;
use vstd::arithmetic::div_mod::*;
use vstd::arithmetic::mul::*;
use vstd::arithmetic::power::*;
use vstd::prelude::*;

verus! {

/// The polynomial vanishes modulo every node of size `g`.
pub open spec fn vanishes(t: Tree, d: Seq<int>, g: int) -> bool {
    let n = g * tree::leaf(t.split);
    forall|s: int|
        0 <= s < 648 ==> same(
            #[trigger] poly::strided(d, s % n, n, t.root(g, s / n)),
            0,
            t.q as int,
        )
}

/// The residue of the polynomial at coefficient `i` of node `k` of size `g`.
spec fn entry(t: Tree, d: Seq<int>, g: int, k: int, i: int) -> int {
    poly::strided(d, i, g * tree::leaf(t.split), t.root(g, k))
}

proof fn lemma_entry_zero(t: Tree, d: Seq<int>, g: int, k: int, i: int)
    requires
        tree::size(t.split, g),
        vanishes(t, d, g),
        0 <= k < tree::nodes(t.split, g),
        0 <= i < g * tree::leaf(t.split),
    ensures
        same(entry(t, d, g, k, i), 0, t.q as int),
{
    let n = g * tree::leaf(t.split);
    tree::lemma_level(t.split, g);
    tree::lemma_span(k, tree::nodes(t.split, g), n);
    tree::lemma_entry(k, n, i);
    let s = k * n + i;
    assert(same(poly::strided(d, s % n, n, t.root(g, s / n)), 0, t.q as int));
}

/// The entries of a child in terms of those of its node.
proof fn lemma_entry_split(t: Tree, d: Seq<int>, g: int, k: int, j: int, i: int)
    requires
        t.wf(),
        tree::size(t.split, g),
        g > 1,
        0 <= k,
        0 <= j < tree::radix(g),
        0 <= i < g / tree::radix(g) * tree::leaf(t.split),
    ensures
        ({
            let (p, h) = (tree::radix(g), g / tree::radix(g));
            let m = h * tree::leaf(t.split);
            let y = t.root(h, k * p + j);
            let (d0, d1, d2) = (
                entry(t, d, g, k, i),
                entry(t, d, g, k, i + m),
                entry(t, d, g, k, i + 2 * m),
            );
            same(
                entry(t, d, h, k * p + j, i),
                if p == 2 {
                    d0 + y * d1
                } else {
                    d0 + y * d1 + y * y * d2
                },
                t.q as int,
            )
        }),
{
    let (p, h, q) = (tree::radix(g), g / tree::radix(g), t.q as int);
    let m = h * tree::leaf(t.split);
    let n = g * tree::leaf(t.split);
    tree::lemma_level(t.split, g);
    t.lemma_roots(g, k, j);
    let (y, r) = (t.root(h, k * p + j), t.root(g, k));
    let (d0, d1) = (poly::strided(d, i, n, r), poly::strided(d, i + m, n, r));
    if p == 2 {
        let c = y * y;
        poly::lemma_split2(d, i, m, y);
        poly::lemma_point(d, i, n, c, r, q);
        poly::lemma_point(d, i + m, n, c, r, q);
        let (u0, u1) = (poly::strided(d, i, n, c), poly::strided(d, i + m, n, c));
        modular::lemma_mul(y, u1, y, d1, q);
        modular::lemma_add(u0, y * u1, d0, y * d1, q);
    } else {
        let c = y * y * y;
        poly::lemma_split3(d, i, m, y);
        poly::lemma_point(d, i, n, c, r, q);
        poly::lemma_point(d, i + m, n, c, r, q);
        poly::lemma_point(d, i + 2 * m, n, c, r, q);
        let d2 = poly::strided(d, i + 2 * m, n, r);
        let (u0, u1, u2) = (
            poly::strided(d, i, n, c),
            poly::strided(d, i + m, n, c),
            poly::strided(d, i + 2 * m, n, c),
        );
        modular::lemma_mul(y, u1, y, d1, q);
        modular::lemma_mul(y * y, u2, y * y, d2, q);
        modular::lemma_add(u0, y * u1, d0, y * d1, q);
        modular::lemma_add(u0 + y * u1, y * y * u2, d0 + y * d1, y * y * d2, q);
    }
}

/// Where position `s` of the children of size `g / radix` stands.
proof fn lemma_locate(split: bool, g: int, s: int)
    requires
        tree::size(split, g),
        0 <= s < 648,
    ensures
        ({
            let n = g * tree::leaf(split);
            0 <= s / n < tree::nodes(split, g) && 0 <= s % n < n
        }),
{
    let n = g * tree::leaf(split);
    tree::lemma_level(split, g);
    lemma_fundamental_div_mod(s, n);
    lemma_mod_bound(s, n);
    lemma_div_pos_is_pos(s, n);
    let (k, c) = (s / n, tree::nodes(split, g));
    assert(k < c) by (nonlinear_arith)
        requires
            n * k <= s,
            s < c * n,
            n > 0,
    ;
}

/// What vanishes modulo the nodes of one size vanishes modulo their children.
proof fn lemma_vanishes_down(t: Tree, d: Seq<int>, g: int)
    requires
        t.wf(),
        tree::size(t.split, g),
        g > 1,
        vanishes(t, d, g),
    ensures
        vanishes(t, d, g / tree::radix(g)),
{
    let (p, h, q) = (tree::radix(g), g / tree::radix(g), t.q as int);
    let m = h * tree::leaf(t.split);
    tree::lemma_level(t.split, g);
    assert forall|s: int| 0 <= s < 648 implies same(
        #[trigger] poly::strided(d, s % m, m, t.root(h, s / m)),
        0,
        q,
    ) by {
        lemma_locate(t.split, h, s);
        let (c, i) = (s / m, s % m);
        let (k, j) = (c / p, c % p);
        lemma_fundamental_div_mod(c, p);
        lemma_mod_bound(c, p);
        lemma_div_pos_is_pos(c, p);
        assert(c == k * p + j) by (nonlinear_arith)
            requires
                c == p * k + j,
        ;
        let count = tree::nodes(t.split, g);
        assert(k < count) by (nonlinear_arith)
            requires
                p * k <= c,
                c < count * p,
                p > 0,
        ;
        lemma_entry_split(t, d, g, k, j, i);
        assert(p == 2 ==> i + m < g * tree::leaf(t.split));
        lemma_entry_zero(t, d, g, k, i);
        lemma_entry_zero(t, d, g, k, i + m);
        let y = t.root(h, c);
        let (d0, d1, d2) = (
            entry(t, d, g, k, i),
            entry(t, d, g, k, i + m),
            entry(t, d, g, k, i + 2 * m),
        );
        modular::lemma_mul(y, d1, y, 0, q);
        assert(y * 0 == 0 && y * y * 0 == 0) by (nonlinear_arith);
        modular::lemma_add(d0, y * d1, 0, 0, q);
        if p == 3 {
            lemma_entry_zero(t, d, g, k, i + 2 * m);
            modular::lemma_mul(y * y, d2, y * y, 0, q);
            modular::lemma_add(d0 + y * d1, y * y * d2, 0, 0, q);
        }
    }
}

/// A factor that is a unit can be taken away.
proof fn lemma_unit(x: int, u: int, ui: int, q: int)
    requires
        q > 0,
        same(u * ui, 1, q),
        same(u * x, 0, q),
    ensures
        same(x, 0, q),
{
    modular::lemma_mul(ui, u * x, ui, 0, q);
    assert(ui * (u * x) == u * ui * x) by (nonlinear_arith);
    modular::lemma_mul(u * ui, x, 1, x, q);
    assert(1 * x == x && ui * 0 == 0) by (nonlinear_arith);
}

/// `psi^e` is a unit.
proof fn lemma_root_unit(t: Tree, e: nat) -> (i: int)
    requires
        t.wf(),
        e <= 1944,
    ensures
        same(pow(t.psi as int, e) * i, 1, t.q as int),
{
    inverse::lemma_inverse_root(t, e);
    pow(t.psi as int, (1944 - e) as nat)
}

/// What vanishes modulo the children of a node vanishes modulo the node.
proof fn lemma_node_vanishes(t: Tree, d: Seq<int>, g: int, k: int, i: int)
    requires
        t.wf(),
        tree::size(t.split, g),
        g > 1,
        vanishes(t, d, g / tree::radix(g)),
        0 <= k < tree::nodes(t.split, g),
        0 <= i < g / tree::radix(g) * tree::leaf(t.split),
    ensures
        ({
            let m = g / tree::radix(g) * tree::leaf(t.split);
            &&& same(entry(t, d, g, k, i), 0, t.q as int)
            &&& same(entry(t, d, g, k, i + m), 0, t.q as int)
            &&& tree::radix(g) == 3 ==> same(entry(t, d, g, k, i + 2 * m), 0, t.q as int)
        }),
{
    let (p, h, q) = (tree::radix(g), g / tree::radix(g), t.q as int);
    let m = h * tree::leaf(t.split);
    tree::lemma_level(t.split, g);
    let count = tree::nodes(t.split, g);
    assert(0 <= k * p && k * p + p <= count * p) by (nonlinear_arith)
        requires
            0 <= k < count,
            p > 0,
    ;
    let (d0, d1, d2) = (
        entry(t, d, g, k, i),
        entry(t, d, g, k, i + m),
        entry(t, d, g, k, i + 2 * m),
    );
    lemma_entry_zero(t, d, h, k * p, i);
    lemma_entry_zero(t, d, h, k * p + 1, i);
    assert(k * p + 0 == k * p);
    lemma_entry_split(t, d, g, k, 0, i);
    lemma_entry_split(t, d, g, k, 1, i);
    t.lemma_roots(g, k, 0);
    t.lemma_roots(g, k, 1);
    tree::lemma_place_bound(t.split, g, k);
    let e = (h * tree::place(t.split, g, k)) as nat;
    let (x, gg) = (tree::place(t.split, g, k), g);
    assert(0 <= h * x <= gg * x) by (nonlinear_arith)
        requires
            0 <= h <= gg,
            0 <= x,
    ;
    let z = t.root(h, k * p);
    let zi = lemma_root_unit(t, e);
    let y1 = t.root(h, k * p + 1);
    let (half, third) = ((q + 1) / 2, (2 * q + 1) / 3);
    modular::lemma_multiple(1, 1, q);
    modular::lemma_multiple(1, 2, q);
    if p == 2 {
        // d0 + z d1 = 0 and d0 - z d1 = 0
        modular::lemma_mul(y1, d1, -z, d1, q);
        assert(-z * d1 == -(z * d1)) by (nonlinear_arith);
        modular::lemma_add(d0, y1 * d1, d0, -(z * d1), q);
        modular::lemma_add(d0 + z * d1, d0 - z * d1, 0, 0, q);
        assert(2 * half == 1 + 1 * q);
        lemma_unit(d0, 2, half, q);
        modular::lemma_sub(d0 + z * d1, d0, 0, 0, q);
        lemma_unit(d1, z, zi, q);
    } else {
        let w = pow(t.psi as int, 648);
        let u = w * w;
        lemma_entry_zero(t, d, h, k * p + 2, i);
        lemma_entry_split(t, d, g, k, 2, i);
        t.lemma_roots(g, k, 2);
        let y2 = t.root(h, k * p + 2);
        let (e1, e2) = (z * d1, z * z * d2);
        // the three sums vanish
        let (s0, s1, s2) = (d0 + e1 + e2, d0 + u * e1 + w * e2, d0 + w * e1 + u * e2);
        assert(same(s0, 0, q));
        assert(y1 * d1 == w * e1) by (nonlinear_arith)
            requires
                y1 == z * w,
                e1 == z * d1,
        ;
        assert(y1 * y1 * d2 == u * e2) by (nonlinear_arith)
            requires
                y1 == z * w,
                u == w * w,
                e2 == z * z * d2,
        ;
        assert(same(s2, 0, q));
        assert(y2 * d1 == u * e1) by (nonlinear_arith)
            requires
                y2 == z * (w * w),
                u == w * w,
                e1 == z * d1,
        ;
        assert(y2 * y2 * d2 == w * w * w * (w * e2)) by (nonlinear_arith)
            requires
                y2 == z * (w * w),
                e2 == z * z * d2,
        ;
        tree::lemma_cube(t);
        modular::lemma_mul(w * w * w, w * e2, 1, w * e2, q);
        assert(1 * (w * e2) == w * e2);
        modular::lemma_add(d0 + y2 * d1, y2 * y2 * d2, d0 + u * e1, w * e2, q);
        assert(same(s1, 0, q));
        inverse::lemma_sums(q, w, u, d0, e1, e2);
        modular::lemma_add(s0, s1, 0, 0, q);
        modular::lemma_add(s0 + s1, s2, 0, 0, q);
        modular::lemma_mul(w, s1, w, 0, q);
        modular::lemma_mul(u, s2, u, 0, q);
        modular::lemma_mul(u, s1, u, 0, q);
        modular::lemma_mul(w, s2, w, 0, q);
        assert(w * 0 == 0 && u * 0 == 0) by (nonlinear_arith);
        modular::lemma_add(s0, w * s1, 0, 0, q);
        modular::lemma_add(s0 + w * s1, u * s2, 0, 0, q);
        modular::lemma_add(s0, u * s1, 0, 0, q);
        modular::lemma_add(s0 + u * s1, w * s2, 0, 0, q);
        assert(3 * third == 1 + 2 * q);
        lemma_unit(d0, 3, third, q);
        lemma_unit(e1, 3, third, q);
        lemma_unit(e2, 3, third, q);
        lemma_unit(d1, z, zi, q);
        assert(z * z * d2 == z * (z * d2)) by (nonlinear_arith);
        lemma_unit(z * d2, z, zi, q);
        lemma_unit(d2, z, zi, q);
    }
}

/// What vanishes modulo the children of the nodes of one size vanishes modulo the nodes.
proof fn lemma_vanishes_up(t: Tree, d: Seq<int>, g: int)
    requires
        t.wf(),
        tree::size(t.split, g),
        g > 1,
        vanishes(t, d, g / tree::radix(g)),
    ensures
        vanishes(t, d, g),
{
    let (p, h, q) = (tree::radix(g), g / tree::radix(g), t.q as int);
    let m = h * tree::leaf(t.split);
    let n = g * tree::leaf(t.split);
    tree::lemma_level(t.split, g);
    assert forall|s: int| 0 <= s < 648 implies same(
        #[trigger] poly::strided(d, s % n, n, t.root(g, s / n)),
        0,
        q,
    ) by {
        lemma_locate(t.split, g, s);
        let (k, i) = (s / n, s % n);
        assert(p == 2 ==> n == 2 * m);
        assert(p == 3 ==> n == 3 * m);
        if i < m {
            lemma_node_vanishes(t, d, g, k, i);
        } else if i < 2 * m {
            lemma_node_vanishes(t, d, g, k, i - m);
        } else {
            lemma_node_vanishes(t, d, g, k, i - 2 * m);
        }
    }
}

/// A polynomial of 648 coefficients that vanishes modulo every leaf has vanishing coefficients.
proof fn lemma_vanishing(t: Tree, d: Seq<int>)
    requires
        t.wf(),
        d.len() == 648,
        vanishes(t, d, 1),
    ensures
        forall|i: int| 0 <= i < 648 ==> same(#[trigger] d[i], 0, t.q as int),
{
    let q = t.q as int;
    assert(3int / 3 == 1 && 9int / 3 == 3 && 27int / 3 == 9 && 81int / 3 == 27);
    assert(162int / 2 == 81 && 324int / 2 == 162);
    lemma_vanishes_up(t, d, 3);
    lemma_vanishes_up(t, d, 9);
    lemma_vanishes_up(t, d, 27);
    lemma_vanishes_up(t, d, 81);
    lemma_vanishes_up(t, d, 162);
    if t.split {
        lemma_vanishes_up(t, d, 324);
    }
    let g = tree::top(t.split);
    assert(g * tree::leaf(t.split) == 324);
    assert(vanishes(t, d, g));
    let (z, r) = (pow(t.psi as int, g as nat), t.root(g, 1));
    tree::lemma_top(t);
    let e = 2 * z - 1;
    let third = (2 * q + 1) / 3;
    modular::lemma_multiple(1, 2, q);
    assert(3 * third == 1 + 2 * q);
    let p = z * z - z + 1;
    assert(e * e == 4 * p - 3) by (nonlinear_arith)
        requires
            e == 2 * z - 1,
            p == z * z - z + 1,
    ;
    modular::lemma_mul(4, p, 4, 0, q);
    modular::lemma_sub(4 * p, 3, 0, 3, q);
    let ei = -(e * third);
    assert(e * ei == -(e * e * third)) by (nonlinear_arith)
        requires
            ei == -(e * third),
    ;
    modular::lemma_mul(e * e, third, -3, third, q);
    modular::lemma_sub(0, e * e * third, 0, -3 * third, q);
    assert(same(e * ei, 1, q));
    assert forall|i: int| 0 <= i < 324 implies same(#[trigger] d[i], 0, q) && same(
        d[i + 324],
        0,
        q,
    ) by {
        assert(same(poly::strided(d, i % 324, 324, t.root(g, i / 324)), 0, q));
        let s = i + 324;
        assert(same(poly::strided(d, s % 324, 324, t.root(g, s / 324)), 0, q));
        assert(s % 324 == i && s / 324 == 1);
        tree::lemma_two(d, i, z);
        tree::lemma_two(d, i, r);
        let (d0, d1) = (d[i], d[i + 324]);
        modular::lemma_mul(r, d1, 1 - z, d1, q);
        modular::lemma_add(d0, r * d1, d0, (1 - z) * d1, q);
        modular::lemma_sub(d0 + z * d1, d0 + (1 - z) * d1, 0, 0, q);
        assert(d0 + z * d1 - (d0 + (1 - z) * d1) == e * d1) by (nonlinear_arith)
            requires
                e == 2 * z - 1,
        ;
        lemma_unit(d1, e, ei, q);
        modular::lemma_mul(z, d1, z, 0, q);
        assert(z * 0 == 0) by (nonlinear_arith);
        modular::lemma_sub(d0 + z * d1, z * d1, 0, 0, q);
    }
    assert forall|i: int| 0 <= i < 648 implies same(#[trigger] d[i], 0, q) by {
        if i >= 324 {
            assert(same(d[i - 324], 0, q));
        }
    }
}

/// A polynomial is determined by its transform: two that agree modulo every leaf agree in every
/// coefficient, modulo the prime.
pub proof fn transform_injective(t: Tree, v: Seq<u64>, a: Seq<int>, b: Seq<int>)
    requires
        t.wf(),
        a.len() == 648,
        b.len() == 648,
        t.holds(v, a, 1),
        t.holds(v, b, 1),
    ensures
        forall|i: int| 0 <= i < 648 ==> same(#[trigger] a[i], b[i], t.q as int),
{
    let (q, d) = (t.q as int, poly::minus(a, b));
    let n = 1 * tree::leaf(t.split);
    assert forall|s: int| 0 <= s < 648 implies same(
        #[trigger] poly::strided(d, s % n, n, t.root(1, s / n)),
        0,
        q,
    ) by {
        assert(v[s] < t.q);
        let (i, x) = (s % n, t.root(1, s / n));
        poly::lemma_minus(a, b, i, n, x);
        modular::lemma_sub(
            poly::strided(a, i, n, x),
            poly::strided(b, i, n, x),
            v[s] as int,
            v[s] as int,
            q,
        );
    }
    lemma_vanishing(t, d);
    assert forall|i: int| 0 <= i < 648 implies same(#[trigger] a[i], b[i], q) by {
        assert(same(d[i], 0, q));
        modular::lemma_add(d[i], b[i], 0, b[i], q);
    }
}

/// `c mod X^648 - X^324 + 1` for a polynomial of 1296 coefficients.
pub open spec fn reduce_phi(c: Seq<int>) -> Seq<int> {
    Seq::new(
        648,
        |i: int|
            if i < 324 {
                c[i] - c[i + 648] - c[i + 972]
            } else {
                c[i] + c[i + 324]
            },
    )
}

/// The same polynomial with zeros behind it.
spec fn widened(a: Seq<int>) -> Seq<int> {
    Seq::new(1296, |i: int| if i < a.len() { a[i] } else { 0 })
}

proof fn lemma_widened(a: Seq<int>, i: int, n: int, x: int)
    requires
        a.len() == 648,
    ensures
        poly::strided(widened(a), i, n, x) == poly::strided(a, i, n, x),
    decreases poly::left(1296, i),
{
    if 0 <= i < 1296 && n > 0 {
        lemma_widened(a, i + n, n, x);
        if i >= 648 {
            assert(x * 0 == 0) by (nonlinear_arith);
        }
    }
}

/// A polynomial and its remainder have the same residues modulo every leaf.
pub proof fn remainder_transform(t: Tree, c: Seq<int>, s: int)
    requires
        t.wf(),
        c.len() == 1296,
        0 <= s < 648,
    ensures
        ({
            let n = tree::leaf(t.split);
            same(
                poly::strided(reduce_phi(c), s % n, n, t.root(1, s / n)),
                poly::strided(c, s % n, n, t.root(1, s / n)),
                t.q as int,
            )
        }),
{
    let q = t.q as int;
    let r = reduce_phi(c);
    let d = poly::minus(c, widened(r));
    let g = tree::top(t.split);
    let z = pow(t.psi as int, g as nat);
    tree::lemma_top(t);
    assert forall|s: int| 0 <= s < 648 implies same(
        #[trigger] poly::strided(d, s % 324, 324, t.root(g, s / 324)),
        0,
        q,
    ) by {
        let (i, y) = (s % 324, t.root(g, s / 324));
        lemma_four(d, i, y);
        let p = y * y - y + 1;
        if s < 324 {
            assert(y == z);
        } else {
            // (1 - z)^2 - (1 - z) + 1 = z^2 - z + 1
            modular::lemma_mul(y, y, 1 - z, 1 - z, q);
            modular::lemma_sub(y * y, y, (1 - z) * (1 - z), 1 - z, q);
            modular::lemma_add(y * y - y, 1, (1 - z) * (1 - z) - (1 - z), 1, q);
            assert((1 - z) * (1 - z) - (1 - z) + 1 == z * z - z + 1) by (nonlinear_arith);
        }
        assert(same(p, 0, q));
        let (c2, c3) = (c[i + 648], c[i + 972]);
        assert(d[i] == c2 + c3 && d[i + 324] == -c2 && d[i + 648] == c2 && d[i + 972] == c3);
        assert(c2 + c3 + y * (-c2) + y * y * c2 + y * y * y * c3 == p * (c2 + (y + 1) * c3))
            by (nonlinear_arith)
            requires
                p == y * y - y + 1,
        ;
        modular::lemma_mul(p, c2 + (y + 1) * c3, 0, c2 + (y + 1) * c3, q);
        assert(0 * (c2 + (y + 1) * c3) == 0) by (nonlinear_arith);
    }
    assert(3int / 3 == 1 && 9int / 3 == 3 && 27int / 3 == 9 && 81int / 3 == 27);
    assert(162int / 2 == 81 && 324int / 2 == 162);
    assert(g * tree::leaf(t.split) == 324);
    if t.split {
        lemma_vanishes_down(t, d, 324);
    }
    lemma_vanishes_down(t, d, 162);
    lemma_vanishes_down(t, d, 81);
    lemma_vanishes_down(t, d, 27);
    lemma_vanishes_down(t, d, 9);
    lemma_vanishes_down(t, d, 3);
    let n = tree::leaf(t.split);
    assert(1 * n == n);
    let (i, y) = (s % n, t.root(1, s / n));
    assert(same(poly::strided(d, i, n, y), 0, q));
    poly::lemma_minus(c, widened(r), i, n, y);
    lemma_widened(r, i, n, y);
    let (x, w) = (poly::strided(c, i, n, y), poly::strided(r, i, n, y));
    modular::lemma_add(x - w, w, 0, w, q);
}

/// A polynomial of 1296 coefficients read with stride 324.
proof fn lemma_four(d: Seq<int>, i: int, y: int)
    requires
        d.len() == 1296,
        0 <= i < 324,
    ensures
        poly::strided(d, i, 324, y) == d[i] + y * d[i + 324] + y * y * d[i + 648] + y * y * y * d[i
            + 972],
{
    reveal_with_fuel(poly::strided, 5);
    let (a, b, c) = (d[i + 324], d[i + 648], d[i + 972]);
    assert(y * 0 == 0) by (nonlinear_arith);
    assert(y * (a + y * (b + y * c)) == y * a + y * y * b + y * y * y * c) by (nonlinear_arith);
}

} // verus!
