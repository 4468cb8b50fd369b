//! The tree of subrings `Z_q[X]/(X^n - c)` both transforms walk.
//!
//! `X^648 - X^324 + 1` is `(X^324 - z)(X^324 - z^-1)` for a primitive sixth root of unity `z`, and a
//! node `X^n - c` splits into `X^(n/p) - y` over the `p`-th roots `y` of `c`. A fully splitting
//! prime ends at degree 1, a quadratic-slot prime at degree 2.
use super::poly;
use crate::modular;
use crate::modular::same;
use vstd::arithmetic::div_mod::*;
use vstd::arithmetic::mul::*;
use vstd::arithmetic::power::*;
use vstd::prelude::*;

verus! {

/// A prime, the root of unity its slots are powers of, and the degree of its leaves.
#[derive(Clone, Copy)]
pub struct Tree {
    pub q: u64,
    pub psi: u64,
    pub split: bool,
}

/// The order of the root of unity.
pub open spec fn order(split: bool) -> nat {
    if split {
        1944
    } else {
        972
    }
}

/// The degree of a leaf.
pub open spec fn leaf(split: bool) -> int {
    if split {
        1
    } else {
        2
    }
}

/// The first node size, counted in leaves.
pub open spec fn top(split: bool) -> int {
    if split {
        324
    } else {
        162
    }
}

/// A node size of the tree, counted in leaves.
pub open spec fn size(split: bool, g: int) -> bool {
    g == 162 || g == 81 || g == 27 || g == 9 || g == 3 || g == 1 || (split && g == 324)
}

/// The number of children of a node.
pub open spec fn radix(g: int) -> int {
    if g % 2 == 0 {
        2
    } else {
        3
    }
}

/// The size of the parent of a node.
pub open spec fn parent(g: int) -> int {
    if g >= 81 {
        2 * g
    } else {
        3 * g
    }
}

/// What the exponent of a slot gains from one child of a node to the next.
pub open spec fn step(split: bool, g: int) -> int {
    if !split && g == 162 {
        6
    } else {
        1944int / g
    }
}

/// The exponent of node `k` of size `g`, counted in units of `g`.
pub open spec fn place(split: bool, g: int, k: int) -> int
    decreases 1000 - g,
{
    if g <= 0 || g >= top(split) {
        1 + 4 * k
    } else {
        let p = radix(parent(g));
        place(split, parent(g), k / p) + (k % p) * step(split, parent(g))
    }
}

impl Tree {
    /// `psi` is a root of unity of the right order.
    pub open spec fn wf(&self) -> bool {
        let q = self.q as int;
        let (psi, z, w) = (
            self.psi as int,
            pow(self.psi as int, top(self.split) as nat),
            pow(self.psi as int, 648),
        );
        &&& 2917 <= q <= 19441
        &&& q % 6 == 1
        &&& self.psi < q
        &&& same(pow(psi, order(self.split)), 1, q)
        &&& same(pow(psi, order(self.split) / 2), -1, q)
        &&& same(z * z - z + 1, 0, q)
        &&& same(w * w + w + 1, 0, q)
    }

    /// The constant `c` of node `k` of size `g`.
    pub open spec fn root(&self, g: int, k: int) -> int {
        pow(self.psi as int, (g * place(self.split, g, k)) as nat)
    }

    /// `v` holds, node by node, `a` modulo the nodes of size `g`.
    pub open spec fn holds(&self, v: Seq<u64>, a: Seq<int>, g: int) -> bool {
        let n = g * leaf(self.split);
        forall|t: int|
            0 <= t < 648 ==> (#[trigger] v[t]) < self.q && same(
                v[t] as int,
                poly::strided(a, t % n, n, self.root(g, t / n)),
                self.q as int,
            )
    }
}

pub proof fn lemma_place(split: bool, g: int, k: int)
    requires
        size(split, g),
        0 <= k,
    ensures
        1 <= place(split, g, k),
    decreases 1000 - g,
{
    if g < top(split) {
        let p = radix(parent(g));
        lemma_place(split, parent(g), k / p);
        assert(k % p >= 0);
        let s = step(split, parent(g));
        assert((k % p) * s >= 0) by (nonlinear_arith)
            requires
                k % p >= 0,
                s >= 0,
        ;
    }
}

/// What a node's children are: child `j` of node `k` has the place of the node and `j` steps.
proof fn lemma_child(split: bool, g: int, k: int, j: int)
    requires
        size(split, g),
        g > 1,
        0 <= k,
        0 <= j < radix(g),
    ensures
        size(split, g / radix(g)),
        parent(g / radix(g)) == g,
        g / radix(g) < top(split),
        g / radix(g) * radix(g) == g,
        place(split, g / radix(g), k * radix(g) + j) == place(split, g, k) + j * step(split, g),
{
    let p = radix(g);
    lemma_fundamental_div_mod_converse(k * p + j, p, k, j);
}

impl Tree {
    /// The `p`-th power of a child's constant is the node's, and the children of a node differ by
    /// powers of one primitive `p`-th root of unity.
    pub proof fn lemma_roots(&self, g: int, k: int, j: int)
        requires
            self.wf(),
            size(self.split, g),
            g > 1,
            0 <= k,
            0 <= j < radix(g),
        ensures
            ({
                let (p, h) = (radix(g), g / radix(g));
                let (z, y) = (self.root(h, k * p), self.root(h, k * p + j));
                let w = pow(self.psi as int, 648);
                let q = self.q as int;
                &&& z == pow(self.psi as int, (h * place(self.split, g, k)) as nat)
                &&& p == 2 ==> same(y * y, self.root(g, k), q)
                &&& p == 3 ==> same(y * y * y, self.root(g, k), q)
                &&& p == 2 && j == 1 ==> same(y, -z, q)
                &&& p == 3 && j == 1 ==> y == z * w
                &&& p == 3 && j == 2 ==> y == z * (w * w)
            }),
    {
        let (p, h, s) = (radix(g), g / radix(g), self.split);
        let psi = self.psi as int;
        let q = self.q as int;
        let (r, d) = (place(s, g, k), step(s, g));
        lemma_child(s, g, k, 0);
        lemma_child(s, g, k, j);
        lemma_place(s, g, k);
        lemma_place(s, h, k * p + j);
        assert(k * p + 0 == k * p);
        assert(0 * d == 0);
        let e = (h * (r + j * d)) as nat;
        let e0 = (h * r) as nat;
        let f = (h * d) as nat;
        assert(d > 0 && h > 0);
        assert(h * (r + j * d) == h * r + j * (h * d)) by (nonlinear_arith);
        assert(h * r >= 0 && h * d >= 0) by (nonlinear_arith)
            requires
                h > 0,
                r >= 1,
                d > 0,
        ;
        lemma_pow1(psi);
        if p == 2 {
            assert(f == order(s) / 2);
            lemma_pow_adds(psi, e, e);
            assert(e + e == (g * r + j * (g * d)) as nat) by (nonlinear_arith)
                requires
                    e == h * (r + j * d),
                    g == h * 2,
            ;
            assert(g * d == order(s));
        } else {
            assert(f == 648);
            lemma_pow_adds(psi, e, e);
            lemma_pow_adds(psi, e + e, e);
            assert(e + e + e == (g * r + j * (g * d)) as nat) by (nonlinear_arith)
                requires
                    e == h * (r + j * d),
                    g == h * 3,
            ;
            assert(g * d == 1944);
        }
        let m = (g * d) as nat;
        let base = (g * r) as nat;
        assert(g * r >= 0) by (nonlinear_arith)
            requires
                g > 0,
                r >= 1,
        ;
        assert(j * (g * d) == j * m);
        if s || p == 2 {
            modular::lemma_order(psi, order(s), j as nat, q);
            assert(order(s) * (j as nat) == j * m) by (nonlinear_arith)
                requires
                    order(s) == m,
                    j >= 0,
            ;
        } else {
            modular::lemma_order(psi, order(s), (2 * j) as nat, q);
            assert(order(s) * ((2 * j) as nat) == j * m);
        }
        lemma_pow_adds(psi, base, (j * m) as nat);
        modular::lemma_mul(
            pow(psi, base),
            pow(psi, (j * m) as nat),
            pow(psi, base),
            1,
            q,
        );
        assert(pow(psi, base) * 1 == pow(psi, base));
        if j == 1 {
            assert(e == e0 + f);
            lemma_pow_adds(psi, e0, f);
            if p == 2 {
                modular::lemma_mul(pow(psi, e0), pow(psi, f), pow(psi, e0), -1, q);
                assert(pow(psi, e0) * -1 == -pow(psi, e0));
            }
        } else if j == 2 {
            assert(e == e0 + (f + f));
            lemma_pow_adds(psi, f, f);
            lemma_pow_adds(psi, e0, f + f);
        }
    }
}

/// The number of nodes of size `g`.
pub open spec fn nodes(split: bool, g: int) -> int {
    let n: int = if g == 324 {
        2
    } else if g == 162 {
        4
    } else if g == 81 {
        8
    } else if g == 27 {
        24
    } else if g == 9 {
        72
    } else if g == 3 {
        216
    } else {
        648
    };
    if split {
        n
    } else {
        n / 2
    }
}

proof fn lemma_quotients(g: int)
    requires
        size(true, g),
    ensures
        1944int / g == (if g == 324 {
            6
        } else if g == 162 {
            12
        } else if g == 81 {
            24
        } else if g == 27 {
            72
        } else if g == 9 {
            216
        } else if g == 3 {
            648
        } else {
            1944int
        }),
{
    assert(1944int / 324 == 6 && 1944int / 162 == 12 && 1944int / 81 == 24);
    assert(1944int / 27 == 72 && 1944int / 9 == 216 && 1944int / 3 == 648 && 1944int / 1 == 1944);
}

/// Exponents stay below the largest order.
pub proof fn lemma_place_bound(split: bool, g: int, k: int)
    requires
        size(split, g),
        0 <= k < nodes(split, g),
    ensures
        1 <= place(split, g, k) <= 1944int / g - 1,
        g * place(split, g, k) <= 1944 - g,
    decreases 1000 - g,
{
    lemma_place(split, g, k);
    if g < top(split) {
        let p = radix(parent(g));
        lemma_place_bound(split, parent(g), k / p);
        let (s, r) = (step(split, parent(g)), k % p);
        assert(r * s <= (p - 1) * s) by (nonlinear_arith)
            requires
                0 <= r <= p - 1,
                s >= 0,
        ;
        lemma_quotients(g);
        lemma_quotients(parent(g));
        assert(1944int / g == p * (1944int / parent(g)));
        assert(s <= 1944int / parent(g));
        if p == 2 {
            assert(r * s <= s);
        } else {
            assert(r * s <= 2 * s);
        }
    }
    lemma_quotients(g);
    let x = place(split, g, k);
    assert(g * x <= g * (1944int / g - 1)) by (nonlinear_arith)
        requires
            x <= 1944int / g - 1,
            g >= 1,
    ;
}

/// The exponent of node `k` of size `g`, counted in units of `g`.
pub fn place_of(split: bool, g: u64, k: u64) -> (r: u64)
    requires
        size(split, g as int),
        k < nodes(split, g as int),
    ensures
        r == place(split, g as int, k as int),
        r < 1944,
    decreases 1000 - g,
{
    proof {
        lemma_place_bound(split, g as int, k as int);
    }
    let first: u64 = if split {
        324
    } else {
        162
    };
    if g >= first {
        return 1 + 4 * k;
    }
    let up: u64 = if g >= 81 {
        2 * g
    } else {
        3 * g
    };
    let p: u64 = if up % 2 == 0 {
        2
    } else {
        3
    };
    let s: u64 = if !split && up == 162 {
        6
    } else {
        1944 / up
    };
    let r: u64 = place_of(split, up, k / p);
    proof {
        let (x, d) = ((k % p) as int, s as int);
        assert(0 <= x * d <= 2 * 1944) by (nonlinear_arith)
            requires
                0 <= x <= 2,
                0 <= d <= 1944,
        ;
    }
    r + (k % p) * s
}

pub proof fn lemma_product(x: u64, y: u64)
    requires
        x < 0x8000,
        y < 0x8000,
    ensures
        x * y < 0x4000_0000,
{
    assert(x * y < 0x4000_0000) by (nonlinear_arith)
        requires
            x < 0x8000,
            y < 0x8000,
    ;
}

/// The roots of the first two nodes.
pub proof fn lemma_top(t: Tree)
    requires
        t.wf(),
    ensures
        ({
            let z = pow(t.psi as int, top(t.split) as nat);
            t.root(top(t.split), 0) == z && same(t.root(top(t.split), 1), 1 - z, t.q as int)
        }),
{
    let (psi, g, q) = (t.psi as int, top(t.split) as nat, t.q as int);
    let z = pow(psi, g);
    lemma_pow_adds(psi, g, g);
    lemma_pow_adds(psi, g + g, g);
    lemma_pow_adds(psi, g + g + g, g + g);
    assert(pow(psi, 5 * g) == z * z * z * (z * z));
    modular::lemma_sub(z * z - z + 1, 1 - z, 0, 1 - z, q);
    assert(same(z * z, z - 1, q));
    modular::lemma_mul(z * z, z, z - 1, z, q);
    assert((z - 1) * z == z * z - z) by (nonlinear_arith);
    modular::lemma_sub(z * z - z + 1, 1, 0, 1, q);
    assert(same(z * z * z, -1, q));
    modular::lemma_mul(z * z * z, z * z, -1, z - 1, q);
    assert(-1 * (z - 1) == 1 - z);
}

/// The split of `X^648 - X^324 + 1`.
fn split_top(t: &Tree, a: &[u32; 648]) -> (v: [u64; 648])
    requires
        t.wf(),
    ensures
        t.holds(v@, poly::ints(a@), top(t.split)),
{
    let q: u64 = t.q;
    let g: u64 = if t.split {
        324
    } else {
        162
    };
    let z: u64 = modular::pow_mod(t.psi, g, q);
    let ghost s = poly::ints(a@);
    let ghost zz = pow(t.psi as int, g as nat);
    let mut v: [u64; 648] = [0;648];
    proof {
        lemma_top(*t);
        modular::lemma_reduced(zz, q as int);
    }
    let mut i: usize = 0;
    while i < 324
        invariant
            i <= 324,
            t.wf(),
            q == t.q,
            z < q,
            g == top(t.split),
            zz == pow(t.psi as int, g as nat),
            same(z as int, zz, q as int),
            t.root(top(t.split), 0) == zz,
            same(t.root(top(t.split), 1), 1 - zz, q as int),
            s == poly::ints(a@),
            forall|j: int|
                0 <= j < 648 && (j < i || 324 <= j < 324 + i) ==> (#[trigger] v@[j]) < q && same(
                    v@[j] as int,
                    poly::strided(s, j % 324, 324, t.root(top(t.split), j / 324)),
                    q as int,
                ),
        decreases 324 - i,
    {
        let a0: u64 = a[i] as u64 % q;
        let a1: u64 = a[i + 324] as u64 % q;
        proof {
            lemma_product(a1, z);
        }
        let x: u64 = a1 * z % q;
        v[i] = (a0 + x) % q;
        v[i + 324] = (a0 + a1 + q - x) % q;
        proof {
            let m = q as int;
            let (b0, b1) = (s[i as int], s[i + 324]);
            let c = t.root(top(t.split), 1);
            modular::lemma_reduced(b0, m);
            modular::lemma_reduced(b1, m);
            modular::lemma_mul(a1 as int, z as int, b1, zz, m);
            modular::lemma_reduced(a1 * z, m);
            modular::lemma_add(a0 as int, x as int, b0, b1 * zz, m);
            modular::lemma_reduced(a0 + x, m);
            modular::lemma_add(a0 as int, a1 as int, b0, b1, m);
            modular::lemma_sub(a0 + a1, x as int, b0 + b1, b1 * zz, m);
            modular::lemma_multiple(a0 + a1 - x, 1, m);
            modular::lemma_reduced(a0 + a1 + q - x, m);
            assert(b0 + b1 - b1 * zz == b0 + b1 * (1 - zz)) by (nonlinear_arith);
            assert(b1 * (1 - zz) == (1 - zz) * b1 && b1 * zz == zz * b1) by (nonlinear_arith);
            modular::lemma_mul(c, b1, 1 - zz, b1, m);
            modular::lemma_add(b0, c * b1, b0, (1 - zz) * b1, m);
            lemma_two(s, i as int, zz);
            lemma_two(s, i as int, c);
        }
        i += 1;
    }
    v
}

/// A polynomial of 648 coefficients read with stride 324.
pub proof fn lemma_two(s: Seq<int>, i: int, c: int)
    requires
        s.len() == 648,
        0 <= i < 324,
    ensures
        poly::strided(s, i, 324, c) == s[i] + c * s[i + 324],
{
    reveal_with_fuel(poly::strided, 3);
    assert(c * 0 == 0) by (nonlinear_arith);
}

/// One node with two children.
fn split2(v: &[u64; 648], out: &mut [u64; 648], q: u64, base: usize, m: usize, y: u64)
    requires
        2917 <= q <= 19441,
        y < q,
        base + 2 * m <= 648,
        forall|j: int| 0 <= j < 648 ==> (#[trigger] v@[j]) < q,
    ensures
        forall|j: int|
            0 <= j < base || base + 2 * m <= j < 648 ==> (#[trigger] final(out)@[j]) == old(
                out,
            )@[j],
        forall|j: int|
            base <= j < base + m ==> (#[trigger] final(out)@[j]) < q && same(
                final(out)@[j] as int,
                v@[j] + y * v@[j + m],
                q as int,
            ),
        forall|j: int|
            base + m <= j < base + 2 * m ==> (#[trigger] final(out)@[j]) < q && same(
                final(out)@[j] as int,
                v@[j - m] - y * v@[j],
                q as int,
            ),
{
    let mut i: usize = 0;
    while i < m
        invariant
            i <= m,
            2917 <= q <= 19441,
            y < q,
            base + 2 * m <= 648,
            forall|j: int| 0 <= j < 648 ==> (#[trigger] v@[j]) < q,
            forall|j: int|
                0 <= j < base || base + i <= j < base + m || base + m + i <= j < 648 ==> (
                #[trigger] out@[j]) == old(out)@[j],
            forall|j: int|
                base <= j < base + i ==> (#[trigger] out@[j]) < q && same(
                    out@[j] as int,
                    v@[j] + y * v@[j + m],
                    q as int,
                ),
            forall|j: int|
                base + m <= j < base + m + i ==> (#[trigger] out@[j]) < q && same(
                    out@[j] as int,
                    v@[j - m] - y * v@[j],
                    q as int,
                ),
        decreases m - i,
    {
        let a0: u64 = v[base + i];
        let a1: u64 = v[base + m + i];
        proof {
            lemma_product(a1, y);
        }
        let x: u64 = a1 * y % q;
        out[base + i] = (a0 + x) % q;
        out[base + m + i] = (a0 + q - x) % q;
        proof {
            let n = q as int;
            modular::lemma_reduced(a1 * y, n);
            assert(a1 * y == y * a1) by (nonlinear_arith);
            modular::lemma_add(a0 as int, x as int, a0 as int, y * a1, n);
            modular::lemma_reduced(a0 + x, n);
            modular::lemma_sub(a0 as int, x as int, a0 as int, y * a1, n);
            modular::lemma_multiple(a0 - x, 1, n);
            modular::lemma_reduced(a0 + q - x, n);
        }
        i += 1;
    }
}

/// One node with three children; `w` is the cube root of unity.
fn split3(v: &[u64; 648], out: &mut [u64; 648], q: u64, base: usize, m: usize, y: u64, w: u64)
    requires
        2917 <= q <= 19441,
        y < q,
        w < q,
        base + 3 * m <= 648,
        forall|j: int| 0 <= j < 648 ==> (#[trigger] v@[j]) < q,
    ensures
        forall|j: int|
            0 <= j < base || base + 3 * m <= j < 648 ==> (#[trigger] final(out)@[j]) == old(
                out,
            )@[j],
        forall|j: int|
            base <= j < base + m ==> (#[trigger] final(out)@[j]) < q && same(
                final(out)@[j] as int,
                v@[j] + y * v@[j + m] + y * y * v@[j + 2 * m],
                q as int,
            ),
        forall|j: int|
            base + m <= j < base + 2 * m ==> (#[trigger] final(out)@[j]) < q && same(
                final(out)@[j] as int,
                v@[j - m] + w * (y * v@[j]) + w * w * (y * y * v@[j + m]),
                q as int,
            ),
        forall|j: int|
            base + 2 * m <= j < base + 3 * m ==> (#[trigger] final(out)@[j]) < q && same(
                final(out)@[j] as int,
                v@[j - 2 * m] + w * w * (y * v@[j - m]) + w * (y * y * v@[j]),
                q as int,
            ),
{
    proof {
        lemma_product(w, w);
        lemma_product(y, y);
        modular::lemma_reduced(w * w, q as int);
        modular::lemma_reduced(y * y, q as int);
    }
    let w2: u64 = w * w % q;
    let y2: u64 = y * y % q;
    let mut i: usize = 0;
    while i < m
        invariant
            i <= m,
            2917 <= q <= 19441,
            y < q,
            w < q,
            w2 < q,
            y2 < q,
            same(w2 as int, w * w, q as int),
            same(y2 as int, y * y, q as int),
            base + 3 * m <= 648,
            forall|j: int| 0 <= j < 648 ==> (#[trigger] v@[j]) < q,
            forall|j: int|
                0 <= j < base || base + i <= j < base + m || base + m + i <= j < base + 2 * m
                    || base + 2 * m + i <= j < 648 ==> (#[trigger] out@[j]) == old(out)@[j],
            forall|j: int|
                base <= j < base + i ==> (#[trigger] out@[j]) < q && same(
                    out@[j] as int,
                    v@[j] + y * v@[j + m] + y * y * v@[j + 2 * m],
                    q as int,
                ),
            forall|j: int|
                base + m <= j < base + m + i ==> (#[trigger] out@[j]) < q && same(
                    out@[j] as int,
                    v@[j - m] + w * (y * v@[j]) + w * w * (y * y * v@[j + m]),
                    q as int,
                ),
            forall|j: int|
                base + 2 * m <= j < base + 2 * m + i ==> (#[trigger] out@[j]) < q && same(
                    out@[j] as int,
                    v@[j - 2 * m] + w * w * (y * v@[j - m]) + w * (y * y * v@[j]),
                    q as int,
                ),
        decreases m - i,
    {
        let a0: u64 = v[base + i];
        let a1: u64 = v[base + m + i];
        let a2: u64 = v[base + 2 * m + i];
        proof {
            lemma_product(a1, y);
            lemma_product(a2, y2);
        }
        let t1: u64 = a1 * y % q;
        let t2: u64 = a2 * y2 % q;
        proof {
            lemma_product(w, t1);
            lemma_product(w, t2);
            lemma_product(w2, t1);
            lemma_product(w2, t2);
            lemma_three(q as int, a0 as int, a1 as int, a2 as int, y as int, y2 as int, w as int, w2 as int);
        }
        out[base + i] = (a0 + t1 + t2) % q;
        out[base + m + i] = (a0 + w * t1 + w2 * t2) % q;
        out[base + 2 * m + i] = (a0 + w2 * t1 + w * t2) % q;
        i += 1;
    }
}

/// The arithmetic of a node with three children.
proof fn lemma_three(q: int, a0: int, a1: int, a2: int, y: int, y2: int, w: int, w2: int)
    requires
        q > 0,
        same(w2, w * w, q),
        same(y2, y * y, q),
    ensures
        ({
            let (t1, t2) = (a1 * y % q, a2 * y2 % q);
            &&& same((a0 + t1 + t2) % q, a0 + y * a1 + y * y * a2, q)
            &&& same((a0 + w * t1 + w2 * t2) % q, a0 + w * (y * a1) + w * w * (y * y * a2), q)
            &&& same((a0 + w2 * t1 + w * t2) % q, a0 + w * w * (y * a1) + w * (y * y * a2), q)
        }),
{
    let (t1, t2) = (a1 * y % q, a2 * y2 % q);
    let (u1, u2) = (y * a1, y * y * a2);
    assert(a1 * y == y * a1) by (nonlinear_arith);
    modular::lemma_reduced(a1 * y, q);
    modular::lemma_mul(a2, y2, a2, y * y, q);
    assert(a2 * (y * y) == y * y * a2) by (nonlinear_arith);
    modular::lemma_reduced(a2 * y2, q);
    assert(same(t1, u1, q) && same(t2, u2, q));
    modular::lemma_add(a0, t1, a0, u1, q);
    modular::lemma_add(a0 + t1, t2, a0 + u1, u2, q);
    modular::lemma_reduced(a0 + t1 + t2, q);
    modular::lemma_mul(w, t1, w, u1, q);
    modular::lemma_mul(w2, t2, w * w, u2, q);
    modular::lemma_add(a0, w * t1, a0, w * u1, q);
    modular::lemma_add(a0 + w * t1, w2 * t2, a0 + w * u1, w * w * u2, q);
    modular::lemma_reduced(a0 + w * t1 + w2 * t2, q);
    modular::lemma_mul(w2, t1, w * w, u1, q);
    modular::lemma_mul(w, t2, w, u2, q);
    modular::lemma_add(a0, w2 * t1, a0, w * w * u1, q);
    modular::lemma_add(a0 + w2 * t1, w * t2, a0 + w * w * u1, w * u2, q);
    modular::lemma_reduced(a0 + w2 * t1 + w * t2, q);
}

impl Tree {
    /// What stands at `s`, in child `c` of size `h`, of the split of the nodes `v` of size `g`.
    pub open spec fn part(&self, v: Seq<u64>, g: int, s: int) -> int {
        let (p, h) = (radix(g), g / radix(g));
        let m = h * leaf(self.split);
        let (c, i) = (s / m, s % m);
        let (b, y) = (c / p * (p * m) + i, self.root(h, c));
        if p == 2 {
            v[b] + y * v[b + m]
        } else {
            v[b] + y * v[b + m] + y * y * v[b + 2 * m]
        }
    }

    /// `out` holds the children of the nodes `v` of size `g`.
    pub open spec fn down(&self, v: Seq<u64>, out: Seq<u64>, g: int) -> bool {
        forall|s: int|
            0 <= s < 648 ==> (#[trigger] out[s]) < self.q && same(
                out[s] as int,
                self.part(v, g, s),
                self.q as int,
            )
    }
}

/// Every residue is reduced.
pub open spec fn reduced(v: Seq<u64>, q: u64) -> bool {
    forall|j: int| 0 <= j < 648 ==> (#[trigger] v[j]) < q
}

/// Where a position stands: child `k p + j`, offset `i`.
pub proof fn lemma_position(k: int, p: int, j: int, m: int, i: int)
    requires
        0 <= k,
        p == 2 || p == 3,
        0 <= j < p,
        0 <= i < m,
    ensures
        (k * (p * m) + j * m + i) / m == k * p + j,
        (k * (p * m) + j * m + i) % m == i,
        (k * p + j) / p == k,
{
    let c = k * p + j;
    assert(k * (p * m) + j * m + i == c * m + i) by (nonlinear_arith)
        requires
            c == k * p + j,
    ;
    lemma_fundamental_div_mod_converse(c * m + i, m, c, i);
    lemma_fundamental_div_mod_converse(c, p, k, j);
}

/// The positions of node `k` among `count` nodes of `n` coefficients.
pub proof fn lemma_span(k: int, count: int, n: int)
    requires
        0 <= k < count,
        0 < n,
        count * n == 648,
    ensures
        0 <= k * n,
        k * n + n <= 648,
        (k + 1) * n == k * n + n,
{
    assert(0 <= k * n && (k + 1) * n == k * n + n && (k + 1) * n <= count * n)
        by (nonlinear_arith)
        requires
            0 <= k < count,
            0 < n,
    ;
}

/// What the two-way split of a node is, in terms of its children.
pub proof fn lemma_node2(t: Tree, v: Seq<u64>, out: Seq<u64>, g: int, k: int, z: int)
    requires
        t.wf(),
        v.len() == 648,
        out.len() == 648,
        size(t.split, g),
        g > 1,
        radix(g) == 2,
        0 <= k < nodes(t.split, g),
        same(z, t.root(g / 2, 2 * k), t.q as int),
        ({
            let m = g / 2 * leaf(t.split);
            let base = k * (2 * m);
            &&& 0 <= base && base + 2 * m <= 648
            &&& forall|j: int|
                base <= j < base + m ==> (#[trigger] out[j]) < t.q && same(
                    out[j] as int,
                    v[j] + z * v[j + m],
                    t.q as int,
                )
            &&& forall|j: int|
                base + m <= j < base + 2 * m ==> (#[trigger] out[j]) < t.q && same(
                    out[j] as int,
                    v[j - m] - z * v[j],
                    t.q as int,
                )
        }),
    ensures
        ({
            let m = g / 2 * leaf(t.split);
            forall|s: int|
                k * (2 * m) <= s < k * (2 * m) + 2 * m ==> (#[trigger] out[s]) < t.q && same(
                    out[s] as int,
                    t.part(v, g, s),
                    t.q as int,
                )
        }),
{
    let q = t.q as int;
    let m = g / 2 * leaf(t.split);
    let base = k * (2 * m);
    let w = t.root(g / 2, 2 * k);
    assert forall|s: int| base <= s < base + 2 * m implies (#[trigger] out[s]) < t.q && same(
        out[s] as int,
        t.part(v, g, s),
        q,
    ) by {
        let j = if s < base + m {
            0int
        } else {
            1
        };
        assert(0 * m == 0 && 1 * m == m);
        let i = s - base - j * m;
        lemma_position(k, 2, j, m, i);
        t.lemma_roots(g, k, j);
        let (b, y) = (base + i, t.root(g / 2, 2 * k + j));
        let (x0, x1) = (v[b] as int, v[b + m] as int);
        if j == 0 {
            modular::lemma_mul(z, x1, w, x1, q);
            modular::lemma_add(x0, z * x1, x0, w * x1, q);
        } else {
            modular::lemma_mul(z, x1, w, x1, q);
            modular::lemma_sub(x0, z * x1, x0, w * x1, q);
            modular::lemma_mul(y, x1, -w, x1, q);
            assert(-w * x1 == -(w * x1)) by (nonlinear_arith);
            modular::lemma_add(x0, y * x1, x0, -(w * x1), q);
        }
    }
}

/// What the three-way split of a node is, in terms of its children.
pub proof fn lemma_node3(t: Tree, v: Seq<u64>, out: Seq<u64>, g: int, k: int, z: int, w: int)
    requires
        t.wf(),
        v.len() == 648,
        out.len() == 648,
        size(t.split, g),
        g > 1,
        radix(g) == 3,
        0 <= k < nodes(t.split, g),
        same(z, t.root(g / 3, 3 * k), t.q as int),
        same(w, pow(t.psi as int, 648), t.q as int),
        ({
            let m = g / 3 * leaf(t.split);
            let base = k * (3 * m);
            &&& 0 <= base && base + 3 * m <= 648
            &&& forall|j: int|
                base <= j < base + m ==> (#[trigger] out[j]) < t.q && same(
                    out[j] as int,
                    v[j] + z * v[j + m] + z * z * v[j + 2 * m],
                    t.q as int,
                )
            &&& forall|j: int|
                base + m <= j < base + 2 * m ==> (#[trigger] out[j]) < t.q && same(
                    out[j] as int,
                    v[j - m] + w * (z * v[j]) + w * w * (z * z * v[j + m]),
                    t.q as int,
                )
            &&& forall|j: int|
                base + 2 * m <= j < base + 3 * m ==> (#[trigger] out[j]) < t.q && same(
                    out[j] as int,
                    v[j - 2 * m] + w * w * (z * v[j - m]) + w * (z * z * v[j]),
                    t.q as int,
                )
        }),
    ensures
        ({
            let m = g / 3 * leaf(t.split);
            forall|s: int|
                k * (3 * m) <= s < k * (3 * m) + 3 * m ==> (#[trigger] out[s]) < t.q && same(
                    out[s] as int,
                    t.part(v, g, s),
                    t.q as int,
                )
        }),
{
    let q = t.q as int;
    let m = g / 3 * leaf(t.split);
    let base = k * (3 * m);
    let (zz, ww) = (t.root(g / 3, 3 * k), pow(t.psi as int, 648));
    assert forall|s: int| base <= s < base + 3 * m implies (#[trigger] out[s]) < t.q && same(
        out[s] as int,
        t.part(v, g, s),
        q,
    ) by {
        let j = if s < base + m {
            0int
        } else if s < base + 2 * m {
            1
        } else {
            2
        };
        assert(0 * m == 0 && 1 * m == m);
        let i = s - base - j * m;
        lemma_position(k, 3, j, m, i);
        t.lemma_roots(g, k, j);
        let (b, y) = (base + i, t.root(g / 3, 3 * k + j));
        let (x0, x1, x2) = (v[b] as int, v[b + m] as int, v[b + 2 * m] as int);
        lemma_weights(q, z, w, zz, ww, x1, x2);
        if j == 0 {
            modular::lemma_add(x0, z * x1, x0, zz * x1, q);
            modular::lemma_add(x0 + z * x1, z * z * x2, x0 + zz * x1, zz * zz * x2, q);
        } else if j == 1 {
            assert(y * x1 == ww * (zz * x1)) by (nonlinear_arith)
                requires
                    y == zz * ww,
            ;
            assert(y * y * x2 == ww * ww * (zz * zz * x2)) by (nonlinear_arith)
                requires
                    y == zz * ww,
            ;
            modular::lemma_add(x0, w * (z * x1), x0, ww * (zz * x1), q);
            modular::lemma_add(
                x0 + w * (z * x1),
                w * w * (z * z * x2),
                x0 + ww * (zz * x1),
                ww * ww * (zz * zz * x2),
                q,
            );
        } else {
            assert(y * x1 == ww * ww * (zz * x1)) by (nonlinear_arith)
                requires
                    y == zz * (ww * ww),
            ;
            assert(y * y * x2 == ww * ww * ww * (ww * (zz * zz * x2))) by (nonlinear_arith)
                requires
                    y == zz * (ww * ww),
            ;
            lemma_cube(t);
            let e = ww * (zz * zz * x2);
            modular::lemma_mul(ww * ww * ww, e, 1, e, q);
            assert(1 * e == e);
            modular::lemma_add(x0, w * w * (z * x1), x0, ww * ww * (zz * x1), q);
            modular::lemma_add(
                x0 + w * w * (z * x1),
                w * (z * z * x2),
                x0 + ww * ww * (zz * x1),
                y * y * x2,
                q,
            );
        }
    }
}

/// The cube of `psi^648` is 1.
pub proof fn lemma_cube(t: Tree)
    requires
        t.wf(),
    ensures
        ({
            let w = pow(t.psi as int, 648);
            same(w * w * w, 1, t.q as int)
        }),
{
    let (w, q) = (pow(t.psi as int, 648), t.q as int);
    lemma_pow_adds(t.psi as int, 648, 648);
    lemma_pow_adds(t.psi as int, 1296, 648);
    if t.split {
        modular::lemma_order(t.psi as int, 1944, 1, q);
    } else {
        modular::lemma_order(t.psi as int, 972, 2, q);
    }
}

/// Products of congruent weights.
pub proof fn lemma_weights(q: int, z: int, w: int, zz: int, ww: int, x1: int, x2: int)
    requires
        q > 0,
        same(z, zz, q),
        same(w, ww, q),
    ensures
        same(z * x1, zz * x1, q),
        same(z * z * x2, zz * zz * x2, q),
        same(w * (z * x1), ww * (zz * x1), q),
        same(w * w * (z * x1), ww * ww * (zz * x1), q),
        same(w * (z * z * x2), ww * (zz * zz * x2), q),
        same(w * w * (z * z * x2), ww * ww * (zz * zz * x2), q),
{
    modular::lemma_mul(z, x1, zz, x1, q);
    modular::lemma_mul(z, z, zz, zz, q);
    modular::lemma_mul(z * z, x2, zz * zz, x2, q);
    modular::lemma_mul(w, w, ww, ww, q);
    modular::lemma_mul(w, z * x1, ww, zz * x1, q);
    modular::lemma_mul(w * w, z * x1, ww * ww, zz * x1, q);
    modular::lemma_mul(w, z * z * x2, ww, zz * zz * x2, q);
    modular::lemma_mul(w * w, z * z * x2, ww * ww, zz * zz * x2, q);
}

/// The numbers of a level: `nodes` nodes of `g` leaves each.
pub proof fn lemma_level(split: bool, g: int)
    requires
        size(split, g),
    ensures
        nodes(split, g) * (g * leaf(split)) == 648,
        g > 1 ==> radix(g) * (g / radix(g) * leaf(split)) == g * leaf(split) && nodes(
            split,
            g / radix(g),
        ) == nodes(split, g) * radix(g) && size(split, g / radix(g)),
        g <= 324,
        nodes(split, g) >= 2,
{
    let l = leaf(split);
    if g == 324 {
        assert(324int / 2 == 162 && 2 * (162 * 1) == 324 * 1);
    } else if g == 162 {
        assert(162int / 2 == 81 && 2 * (81 * l) == 162 * l);
        assert(4 * (162 * 1) == 648 && 2 * (162 * 2) == 648);
    } else if g == 81 {
        assert(81int / 3 == 27 && 3 * (27 * l) == 81 * l);
        assert(8 * (81 * 1) == 648 && 4 * (81 * 2) == 648);
    } else if g == 27 {
        assert(27int / 3 == 9 && 3 * (9 * l) == 27 * l);
        assert(24 * (27 * 1) == 648 && 12 * (27 * 2) == 648);
    } else if g == 9 {
        assert(9int / 3 == 3 && 3 * (3 * l) == 9 * l);
        assert(72 * (9 * 1) == 648 && 36 * (9 * 2) == 648);
    } else if g == 3 {
        assert(3int / 3 == 1 && 3 * (1 * l) == 3 * l);
        assert(216 * (3 * 1) == 648 && 108 * (3 * 2) == 648);
    } else {
        assert(648 * (1 * 1) == 648 && 324 * (1 * 2) == 648);
    }
}

/// One level down.
pub(crate) fn descend(t: &Tree, v: &[u64; 648], g: u64) -> (out: [u64; 648])
    requires
        t.wf(),
        size(t.split, g as int),
        g > 1,
        reduced(v@, t.q),
    ensures
        t.down(v@, out@, g as int),
{
    let q: u64 = t.q;
    let p: u64 = if g % 2 == 0 {
        2
    } else {
        3
    };
    let h: u64 = g / p;
    let l: u64 = if t.split {
        1
    } else {
        2
    };
    let m: usize = (h * l) as usize;
    let n: usize = p as usize * m;
    proof {
        lemma_level(t.split, g as int);
        modular::lemma_reduced(pow(t.psi as int, 648), q as int);
    }
    let count: u64 = 648 / (g * l);
    let w: u64 = modular::pow_mod(t.psi, 648, q);
    let mut out: [u64; 648] = [0;648];
    let mut k: u64 = 0;
    let mut base: usize = 0;
    assert(count == nodes(t.split, g as int)) by {
        let (a, b) = (nodes(t.split, g as int), (g * l) as int);
        lemma_fundamental_div_mod_converse(648, b, a, 0);
    }
    while k < count
        invariant
            t.wf(),
            size(t.split, g as int),
            g > 1,
            reduced(v@, t.q),
            q == t.q,
            p == radix(g as int),
            h == g as int / p as int,
            l == leaf(t.split),
            m == h * l,
            n == p * m,
            w < q,
            same(w as int, pow(t.psi as int, 648), q as int),
            count == nodes(t.split, g as int),
            count * n == 648,
            k <= count,
            base == k * n,
            forall|s: int|
                0 <= s < base ==> (#[trigger] out@[s]) < q && same(
                    out@[s] as int,
                    t.part(v@, g as int, s),
                    q as int,
                ),
        decreases count - k,
    {
        let ghost before = out@;
        proof {
            lemma_span(k as int, count as int, n as int);
            lemma_place_bound(t.split, g as int, k as int);
            lemma_place(t.split, g as int, k as int);
            t.lemma_roots(g as int, k as int, 0);
        }
        let r: u64 = place_of(t.split, g, k);
        proof {
            assert(h * r <= 324 * 1944) by (nonlinear_arith)
                requires
                    0 <= h <= 324,
                    0 <= r < 1944,
            ;
        }
        let y: u64 = modular::pow_mod(t.psi, h * r, q);
        proof {
            modular::lemma_reduced(pow(t.psi as int, (h * r) as nat), q as int);
            assert(k * p == p * k) by (nonlinear_arith);
        }
        if p == 2 {
            split2(v, &mut out, q, base, m, y);
            proof {
                lemma_node2(*t, v@, out@, g as int, k as int, y as int);
            }
        } else {
            split3(v, &mut out, q, base, m, y, w);
            proof {
                lemma_node3(*t, v@, out@, g as int, k as int, y as int, w as int);
            }
        }
        proof {
            assert forall|s: int| 0 <= s < base + n implies (#[trigger] out@[s]) < q && same(
                out@[s] as int,
                t.part(v@, g as int, s),
                q as int,
            ) by {
                if s < base {
                    assert(out@[s] == before[s]);
                }
            }
        }
        base = base + n;
        k += 1;
    }
    out
}

/// The position of an entry of a node.
pub proof fn lemma_entry(k: int, n: int, i: int)
    requires
        0 <= i < n,
    ensures
        (k * n + i) / n == k,
        (k * n + i) % n == i,
{
    lemma_fundamental_div_mod_converse(k * n + i, n, k, i);
}

/// Splitting the nodes of `a` gives the smaller nodes of `a`.
pub proof fn lemma_down(t: Tree, v: Seq<u64>, out: Seq<u64>, a: Seq<int>, g: int)
    requires
        t.wf(),
        size(t.split, g),
        g > 1,
        v.len() == 648,
        t.holds(v, a, g),
        t.down(v, out, g),
    ensures
        t.holds(out, a, g / radix(g)),
{
    let (p, h, q) = (radix(g), g / radix(g), t.q as int);
    let m = h * leaf(t.split);
    let n = g * leaf(t.split);
    lemma_level(t.split, g);
    assert forall|s: int| 0 <= s < 648 implies (#[trigger] out[s]) < t.q && same(
        out[s] as int,
        poly::strided(a, s % m, m, t.root(h, s / m)),
        q,
    ) by {
        let (c, i) = (s / m, s % m);
        let (k, j) = (c / p, c % p);
        lemma_fundamental_div_mod(s, m);
        lemma_mod_bound(s, m);
        lemma_div_pos_is_pos(s, m);
        lemma_fundamental_div_mod(c, p);
        lemma_mod_bound(c, p);
        lemma_div_pos_is_pos(c, p);
        assert(c == k * p + j) by (nonlinear_arith)
            requires
                c == p * k + j,
        ;
        let b = k * n + i;
        assert(s == k * n + j * m + i) by (nonlinear_arith)
            requires
                s == m * c + i,
                c == k * p + j,
                n == p * m,
        ;
        assert(0 <= j * m <= (p - 1) * m) by (nonlinear_arith)
            requires
                0 <= j <= p - 1,
                0 <= m,
        ;
        assert((p - 1) * m == n - m) by (nonlinear_arith)
            requires
                n == p * m,
        ;
        let count = nodes(t.split, g);
        assert(k < count) by (nonlinear_arith)
            requires
                k * n <= s,
                s < count * n,
                n > 0,
        ;
        lemma_span(k, count, n);
        t.lemma_roots(g, k, j);
        let y = t.root(h, c);
        let r = t.root(g, k);
        lemma_entry(k, n, i);
        lemma_entry(k, n, i + m);
        let (s0, s1) = (poly::strided(a, i, n, r), poly::strided(a, i + m, n, r));
        assert(same(v[b] as int, s0, q));
        assert(same(v[b + m] as int, s1, q));
        modular::lemma_mul(y, v[b + m] as int, y, s1, q);
        modular::lemma_add(v[b] as int, y * v[b + m], s0, y * s1, q);
        if p == 2 {
            let yy = y * y;
            poly::lemma_split2(a, i, m, y);
            poly::lemma_point(a, i, n, yy, r, q);
            poly::lemma_point(a, i + m, n, yy, r, q);
            let (u0, u1) = (poly::strided(a, i, n, yy), poly::strided(a, i + m, n, yy));
            modular::lemma_mul(y, u1, y, s1, q);
            modular::lemma_add(u0, y * u1, s0, y * s1, q);
            assert(t.part(v, g, s) == v[b] + y * v[b + m]);
        } else {
            let yyy = y * y * y;
            lemma_entry(k, n, i + 2 * m);
            poly::lemma_split3(a, i, m, y);
            poly::lemma_point(a, i, n, yyy, r, q);
            poly::lemma_point(a, i + m, n, yyy, r, q);
            poly::lemma_point(a, i + 2 * m, n, yyy, r, q);
            let s2 = poly::strided(a, i + 2 * m, n, r);
            let (u0, u1, u2) = (
                poly::strided(a, i, n, yyy),
                poly::strided(a, i + m, n, yyy),
                poly::strided(a, i + 2 * m, n, yyy),
            );
            assert(same(v[b + 2 * m] as int, s2, q));
            modular::lemma_mul(y * y, v[b + 2 * m] as int, y * y, s2, q);
            modular::lemma_add(
                v[b] + y * v[b + m],
                y * y * v[b + 2 * m],
                s0 + y * s1,
                y * y * s2,
                q,
            );
            modular::lemma_mul(y, u1, y, s1, q);
            modular::lemma_mul(y * y, u2, y * y, s2, q);
            modular::lemma_add(u0, y * u1, s0, y * s1, q);
            modular::lemma_add(u0 + y * u1, y * y * u2, s0 + y * s1, y * y * s2, q);
            assert(t.part(v, g, s) == v[b] + y * v[b + m] + y * y * v[b + 2 * m]);
        }
    }
}

/// The transform: the residues of `a` modulo the leaves of the tree, leaf by leaf.
pub fn forward(t: &Tree, a: &[u32; 648]) -> (v: [u64; 648])
    requires
        t.wf(),
    ensures
        t.holds(v@, poly::ints(a@), 1),
{
    let mut v = split_top(t, a);
    let mut g: u64 = if t.split {
        324
    } else {
        162
    };
    while g > 1
        invariant
            t.wf(),
            size(t.split, g as int),
            t.holds(v@, poly::ints(a@), g as int),
        decreases g,
    {
        assert(reduced(v@, t.q));
        let out = descend(t, &v, g);
        proof {
            lemma_down(*t, v@, out@, poly::ints(a@), g as int);
            lemma_level(t.split, g as int);
        }
        v = out;
        g = if g % 2 == 0 {
            g / 2
        } else {
            g / 3
        };
    }
    v
}

} // verus!
