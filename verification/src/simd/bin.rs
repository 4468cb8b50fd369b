//! The transform of binary elements at a splitting prime: the first three levels are looked up.
//!
//! Coefficients `i`, `i + 162`, `i + 324` and `i + 486` of a binary element make a nibble, and what
//! the eight nodes of degree 81 hold at `i` is a sum of two table entries, one for the nibble of `i`
//! and one for that of `i + 81`. Four radix-3 levels follow; the tables carry the twiddles of the first
//! of them, and the lanes are reduced only where the schedule of the prime says, so that they come out
//! congruent to the values and within the bound of the schedule.
use super::lane;
use super::lane::{abs, paired, stands_for, Twiddle};
use super::network;
use super::network::Sites;
use super::ntt;
use super::schedule;
use super::schedule::Caps;
use crate::modular;
use crate::modular::same;
use crate::ntt::poly;
use crate::ntt::tree;
use crate::params;
use crate::ring::decompose;
use crate::ring::{Batch32, Representation, RingElement};
use crate::scalar;
use vstd::arithmetic::div_mod::*;
use vstd::arithmetic::power::*;
use vstd::prelude::*;

verus! {

/// Bit `j` of a nibble.
pub open spec fn bit(n: int, j: int) -> int {
    if j == 0 {
        n % 2
    } else if j == 1 {
        n / 2 % 2
    } else if j == 2 {
        n / 4 % 2
    } else {
        n / 8 % 2
    }
}

/// `b_0 + y b_1 + y^2 b_2 + y^3 b_3` for the bits of a nibble.
pub open spec fn nibble_value(n: int, y: int) -> int {
    bit(n, 0) + y * (bit(n, 1) + y * (bit(n, 2) + y * bit(n, 3)))
}

/// The point of node `k` of degree 81.
pub open spec fn node_point(q: u16, k: int) -> int {
    params::tree_of(q).root(81, k)
}

/// The point of the first child of node `k` of degree 81, the twiddle of the first radix-3 level.
pub open spec fn child_point(q: u16, k: int) -> int {
    params::tree_of(q).root(27, 3 * k)
}

/// The factor folded into a table: `z^r` for the twiddle `z` of node `k`, times the node's point for
/// the odd half.
pub open spec fn factor(q: u16, k: int, r: int, ab: int) -> int {
    let z = child_point(q, k);
    let f = if r == 0 {
        1
    } else if r == 1 {
        z
    } else {
        z * z
    };
    if ab == 0 {
        f
    } else {
        f * node_point(q, k)
    }
}

/// What table `(3 k + r) 2 + ab` holds for nibble `n`.
pub open spec fn entry(q: u16, k: int, r: int, ab: int, n: int) -> int {
    let y = node_point(q, k);
    factor(q, k, r, ab) * nibble_value(n, y * y)
}

/// The lookup tables of the first three levels with the twiddles of the fourth, six for each node of
/// degree 81, and the reductions of the radix-3 levels.
pub struct Tables {
    pub q: u16,
    pub lut: Vec<[i16; 16]>,
    pub bar: [Sites; 4],
}

/// A table holds the entries of node `k`, centred.
pub open spec fn is_table(q: u16, k: int, r: int, ab: int, t: Seq<i16>) -> bool {
    forall|n: int|
        0 <= n < 16 ==> same((#[trigger] t[n]) as int, entry(q, k, r, ab, n), q as int) && -((q - 1)
            / 2) <= t[n] <= (q - 1) / 2
}

/// The reductions of level `3 + l` under a schedule.
pub open spec fn sites_of(code: int, l: int) -> Sites {
    Sites {
        a: schedule::kind(code, l, 0) as u8,
        t: schedule::kind(code, l, 1) as u8,
        u: schedule::kind(code, l, 2) as u8,
    }
}

/// No reductions but of the untwiddled input, `k`.
pub open spec fn only(k: u8) -> Sites {
    Sites { a: k, t: 0, u: 0 }
}

/// The sites are those of a large prime's schedule.
pub open spec fn follows(bar: Seq<Sites>, code: int) -> bool {
    forall|l: int| 0 <= l < 4 ==> (#[trigger] bar[l]) == sites_of(code, l)
}

/// Where the transform reduces: nowhere at 3889; at 9721 the untwiddled input of level 4 by lookup and
/// that of level 6 by multiplying; at the large primes where the cheapest schedule says.
pub open spec fn is_schedule(q: u16, bar: Seq<Sites>) -> bool {
    if q == 3889 {
        bar == seq![only(0), only(0), only(0), only(0)]
    } else if q == 9721 {
        bar == seq![only(0), only(1), only(0), only(2)]
    } else {
        exists|c: Caps, code: int|
            c.q == q && #[trigger] c.wf() && #[trigger] schedule::is_best(c, code, 531441) && follows(
                bar,
                code,
            )
    }
}

impl Tables {
    /// The tables hold what they are named for.
    pub open spec fn filled(&self) -> bool {
        &&& params::splitting(self.q)
        &&& self.lut@.len() == 48
        &&& forall|i: int|
            0 <= i < 48 ==> is_table(
                self.q,
                i / 6,
                i / 2 % 3,
                i % 2,
                (#[trigger] self.lut@[i])@,
            )
    }

    pub open spec fn wf(&self) -> bool {
        self.filled() && is_schedule(self.q, self.bar@)
    }
}

/// The value of a nibble modulo `q` at `y`.
fn horner(n: u64, y: u64, q: u64) -> (r: u64)
    requires
        n < 16,
        2917 <= q <= 19441,
        y < q,
    ensures
        r < q,
        same(r as int, nibble_value(n as int, y as int), q as int),
{
    let (b0, b1, b2, b3): (u64, u64, u64, u64) = (n % 2, n / 2 % 2, n / 4 % 2, n / 8 % 2);
    proof {
        tree::lemma_product(y, b3);
    }
    let r2: u64 = (b2 + y * b3) % q;
    proof {
        tree::lemma_product(y, r2);
    }
    let r1: u64 = (b1 + y * r2) % q;
    proof {
        tree::lemma_product(y, r1);
    }
    let r: u64 = (b0 + y * r1) % q;
    proof {
        let (m, z) = (q as int, y as int);
        let (x2, x1) = (b2 + z * b3, b1 + z * (b2 + z * b3));
        modular::lemma_reduced(b2 + y * b3, m);
        modular::lemma_mul(z, r2 as int, z, x2, m);
        modular::lemma_add(b1 as int, y * r2, b1 as int, z * x2, m);
        modular::lemma_reduced(b1 + y * r2, m);
        modular::lemma_mul(z, r1 as int, z, x1, m);
        modular::lemma_add(b0 as int, y * r1, b0 as int, z * x1, m);
        modular::lemma_reduced(b0 + y * r1, m);
    }
    r
}

/// The value of a nibble at congruent points.
proof fn lemma_points(n: int, x: int, y: int, q: int)
    requires
        q > 0,
        same(x, y, q),
    ensures
        same(nibble_value(n, x), nibble_value(n, y), q),
{
    let (b0, b1, b2, b3) = (bit(n, 0), bit(n, 1), bit(n, 2), bit(n, 3));
    modular::lemma_mul(x, b3, y, b3, q);
    modular::lemma_add(b2, x * b3, b2, y * b3, q);
    modular::lemma_mul(x, b2 + x * b3, y, b2 + y * b3, q);
    modular::lemma_add(b1, x * (b2 + x * b3), b1, y * (b2 + y * b3), q);
    modular::lemma_mul(x, b1 + x * (b2 + x * b3), y, b1 + y * (b2 + y * b3), q);
    modular::lemma_add(
        b0,
        x * (b1 + x * (b2 + x * b3)),
        b0,
        y * (b1 + y * (b2 + y * b3)),
        q,
    );
}

/// One table: the values of the nibbles at `y`, times `f`.
fn scaled_table(
    q: u16,
    y: u64,
    f: u64,
    Ghost(at): Ghost<(int, int, int)>,
) -> (t: [i16; 16])
    requires
        params::splitting(q),
        y < q,
        f < q,
        ({
            let p = node_point(q, at.0);
            same(y as int, p * p, q as int)
        }),
        same(f as int, factor(q, at.0, at.1, at.2), q as int),
    ensures
        is_table(q, at.0, at.1, at.2, t@),
{
    let m: u64 = q as u64;
    let ghost p = node_point(q, at.0);
    let ghost g = factor(q, at.0, at.1, at.2);
    let mut t: [i16; 16] = [0;16];
    let mut n: usize = 0;
    while n < 16
        invariant
            n <= 16,
            params::splitting(q),
            m == q,
            y < q,
            f < q,
            p == node_point(q, at.0),
            g == factor(q, at.0, at.1, at.2),
            same(y as int, p * p, q as int),
            same(f as int, g, q as int),
            forall|i: int|
                0 <= i < n ==> same(
                    (#[trigger] t@[i]) as int,
                    entry(q, at.0, at.1, at.2, i),
                    q as int,
                ) && -((q - 1) / 2) <= t@[i] <= (q - 1) / 2,
        decreases 16 - n,
    {
        let h: u64 = horner(n as u64, y, m);
        proof {
            lemma_points(n as int, y as int, p * p, q as int);
            tree::lemma_product(f, h);
            let v = nibble_value(n as int, p * p);
            modular::lemma_mul(f as int, h as int, g, v, q as int);
            modular::lemma_reduced(f * h, q as int);
        }
        let e: u64 = f * h % m;
        proof {
            modular::lemma_multiple(e as int, -1, q as int);
        }
        t[n] = decompose::centred(e as u32, q);
        n += 1;
    }
    t
}

/// The factors of the even tables of a node, from its twiddle, and their products with its point.
proof fn lemma_factors(q: u16, k: int, z: int, y: int, z2: int, x0: int, x1: int, x2: int)
    requires
        q > 0,
        same(z, child_point(q, k), q as int),
        same(y, node_point(q, k), q as int),
        same(z2, z * z, q as int),
        same(x0, y, q as int),
        same(x1, z * y, q as int),
        same(x2, z2 * y, q as int),
    ensures
        same(1, factor(q, k, 0, 0), q as int),
        same(z, factor(q, k, 1, 0), q as int),
        same(z2, factor(q, k, 2, 0), q as int),
        same(x0, factor(q, k, 0, 1), q as int),
        same(x1, factor(q, k, 1, 1), q as int),
        same(x2, factor(q, k, 2, 1), q as int),
{
    let (zz, p, n) = (child_point(q, k), node_point(q, k), q as int);
    modular::lemma_mul(z, z, zz, zz, n);
    modular::lemma_mul(z, y, zz, p, n);
    modular::lemma_mul(z2, y, zz * zz, p, n);
    assert(1 * p == p);
}

/// The six tables of a node.
fn push_node(q: u16, k: usize, lut: &mut Vec<[i16; 16]>)
    requires
        params::splitting(q),
        params::tree_of(q).wf(),
        k < 8,
        old(lut)@.len() == 6 * k,
        forall|i: int|
            0 <= i < 6 * k ==> is_table(q, i / 6, i / 2 % 3, i % 2, (#[trigger] old(lut)@[i])@),
    ensures
        final(lut)@.len() == 6 * k + 6,
        forall|i: int|
            0 <= i < 6 * k + 6 ==> is_table(
                q,
                i / 6,
                i / 2 % 3,
                i % 2,
                (#[trigger] final(lut)@[i])@,
            ),
{
    let tr = params::limb_tree(q);
    let m: u64 = q as u64;
    let e: u64 = tree::place_of(true, 81, k as u64);
    let y: u64 = modular::pow_mod(tr.psi, 81 * e, m);
    let z: u64 = modular::pow_mod(tr.psi, 27 * e, m);
    proof {
        tr.lemma_roots(81, k as int, 0);
        assert(81int / 3 == 27);
        assert(k * 3 == 3 * k);
        modular::lemma_reduced(pow(tr.psi as int, (81 * e) as nat), q as int);
        modular::lemma_reduced(pow(tr.psi as int, (27 * e) as nat), q as int);
        tree::lemma_product(y, y);
        tree::lemma_product(z, z);
        modular::lemma_reduced(y * y, q as int);
        modular::lemma_reduced(z * z, q as int);
    }
    let yy: u64 = y * y % m;
    let z2: u64 = z * z % m;
    proof {
        tree::lemma_product(z, y);
        tree::lemma_product(z2, y);
        modular::lemma_reduced(z * y, q as int);
        modular::lemma_reduced(z2 * y, q as int);
    }
    let x1: u64 = z * y % m;
    let x2: u64 = z2 * y % m;
    proof {
        let p = node_point(q, k as int);
        modular::lemma_mul(y as int, y as int, p, p, q as int);
        lemma_factors(
            q,
            k as int,
            z as int,
            y as int,
            z2 as int,
            y as int,
            x1 as int,
            x2 as int,
        );
    }
    let ghost n = k as int;
    let ghost before = lut@;
    lut.push(scaled_table(q, yy, 1, Ghost((n, 0, 0))));
    lut.push(scaled_table(q, yy, y, Ghost((n, 0, 1))));
    lut.push(scaled_table(q, yy, z, Ghost((n, 1, 0))));
    lut.push(scaled_table(q, yy, x1, Ghost((n, 1, 1))));
    lut.push(scaled_table(q, yy, z2, Ghost((n, 2, 0))));
    lut.push(scaled_table(q, yy, x2, Ghost((n, 2, 1))));
    assert forall|i: int| 0 <= i < 6 * k + 6 implies is_table(
        q,
        i / 6,
        i / 2 % 3,
        i % 2,
        (#[trigger] lut@[i])@,
    ) by {
        if i < 6 * k {
            assert(lut@[i] == before[i]);
        } else {
            let d = i - 6 * k;
            assert(i / 6 == k && i / 2 == 3 * k + d / 2 && i % 2 == d % 2);
            assert((3 * k + d / 2) % 3 == d / 2 % 3);
            assert(d == 0 || d == 1 || d == 2 || d == 3 || d == 4 || d == 5);
        }
    }
}

/// The sites of level `3 + l` of a schedule.
fn sites(code: u32, l: usize) -> (s: Sites)
    requires
        l < 4,
    ensures
        s == sites_of(code as int, l as int),
{
    Sites {
        a: schedule::bar_kind(code, l, 0),
        t: schedule::bar_kind(code, l, 1),
        u: schedule::bar_kind(code, l, 2),
    }
}

/// Where the transform at `q` reduces.
fn schedule_of(q: u16) -> (bar: [Sites; 4])
    requires
        params::splitting(q),
    ensures
        is_schedule(q, bar@),
{
    let none = Sites { a: schedule::RED_NONE, t: schedule::RED_NONE, u: schedule::RED_NONE };
    if q == 3889 {
        let bar: [Sites; 4] = [none, none, none, none];
        assert(bar@ =~= seq![only(0), only(0), only(0), only(0)]);
        bar
    } else if q == 9721 {
        let lut = Sites { a: schedule::RED_LUT, t: schedule::RED_NONE, u: schedule::RED_NONE };
        let mul = Sites { a: schedule::RED_MUL, t: schedule::RED_NONE, u: schedule::RED_NONE };
        let bar: [Sites; 4] = [none, lut, none, mul];
        assert(bar@ =~= seq![only(0), only(1), only(0), only(2)]);
        bar
    } else {
        let c = Caps::of(q);
        let (code, _): (u32, i32) = schedule::bin_sched(&c);
        let bar: [Sites; 4] = [sites(code, 0), sites(code, 1), sites(code, 2), sites(code, 3)];
        proof {
            assert(follows(bar@, code as int));
            assert(c.wf() && schedule::is_best(c, code as int, 531441));
        }
        bar
    }
}

/// The tables of a splitting prime.
pub fn build_tables(q: u16) -> (t: Tables)
    requires
        params::splitting(q),
    ensures
        t.q == q,
        t.wf(),
{
    let tr = params::limb_tree(q);
    let mut lut: Vec<[i16; 16]> = Vec::new();
    let mut k: usize = 0;
    while k < 8
        invariant
            k <= 8,
            params::splitting(q),
            tr == params::tree_of(q),
            tr.wf(),
            lut@.len() == 6 * k,
            forall|i: int|
                0 <= i < 6 * k ==> is_table(q, i / 6, i / 2 % 3, i % 2, (#[trigger] lut@[i])@),
        decreases 8 - k,
    {
        push_node(q, k, &mut lut);
        k += 1;
    }
    let bar = schedule_of(q);
    Tables { q, lut, bar }
}

/// The binary element whose nibbles are given.
pub open spec fn unpacked(nib: Seq<u8>) -> Seq<int> {
    Seq::new(648, |x: int| bit(nib[x % 162] as int, x / 162))
}

/// Every nibble is one.
pub open spec fn nibbles(nib: Seq<u8>) -> bool {
    forall|i: int| 0 <= i < nib.len() ==> (#[trigger] nib[i]) < 16
}

/// The coefficients of a binary element 162 apart are a nibble's bits.
proof fn lemma_nibble(nib: Seq<u8>, i: int, y: int)
    requires
        nib.len() == 162,
        0 <= i < 162,
    ensures
        poly::strided(unpacked(nib), i, 162, y) == nibble_value(nib[i] as int, y),
{
    let a = unpacked(nib);
    let n = nib[i] as int;
    assert(a[i] == bit(n, 0));
    assert((i + 162) / 162 == 1 && (i + 162) % 162 == i);
    assert((i + 324) / 162 == 2 && (i + 324) % 162 == i);
    assert((i + 486) / 162 == 3 && (i + 486) % 162 == i);
    assert(poly::strided(a, i + 648, 162, y) == 0);
    assert(y * 0 == 0) by (nonlinear_arith);
    assert(poly::strided(a, i + 486, 162, y) == a[i + 486] + y * poly::strided(
        a,
        i + 648,
        162,
        y,
    ));
    assert(poly::strided(a, i + 324, 162, y) == a[i + 324] + y * poly::strided(
        a,
        i + 486,
        162,
        y,
    ));
    assert(poly::strided(a, i + 162, 162, y) == a[i + 162] + y * poly::strided(
        a,
        i + 324,
        162,
        y,
    ));
}

/// A sum of two lookups at node `k`: `z^r` times what the node holds.
fn looked_up(t: &Tables, k: usize, r: usize, n0: u8, n1: u8) -> (x: i16)
    requires
        t.filled(),
        k < 8,
        r < 3,
        n0 < 16,
        n1 < 16,
    ensures
        abs(x as int) <= t.q - 1,
        ({
            let y = node_point(t.q, k as int);
            same(
                x as int,
                factor(t.q, k as int, r as int, 0) * (nibble_value(n0 as int, y * y) + y
                    * nibble_value(n1 as int, y * y)),
                t.q as int,
            )
        }),
{
    let i: usize = (3 * k + r) * 2;
    proof {
        assert(i / 6 == k && i / 2 == 3 * k + r && i % 2 == 0) by {
            assert(i == 6 * k + 2 * r);
        }
        let j = i + 1;
        assert(j / 6 == k && j / 2 == 3 * k + r && j % 2 == 1);
        assert((3 * k + r) % 3 == r);
        assert(is_table(t.q, i as int / 6, i as int / 2 % 3, i as int % 2, t.lut@[i as int]@));
        assert(is_table(t.q, j as int / 6, j as int / 2 % 3, j as int % 2, t.lut@[j as int]@));
    }
    let e: i16 = t.lut[i][n0 as usize];
    let o: i16 = t.lut[i + 1][n1 as usize];
    proof {
        let q = t.q as int;
        let y = node_point(t.q, k as int);
        let f = factor(t.q, k as int, r as int, 0);
        let (a, b) = (nibble_value(n0 as int, y * y), nibble_value(n1 as int, y * y));
        assert(same(e as int, f * a, q));
        let g = factor(t.q, k as int, r as int, 1);
        assert(same(o as int, g * b, q));
        assert(g == f * y);
        modular::lemma_add(e as int, o as int, f * a, g * b, q);
        assert(f * a + g * b == f * (a + y * b)) by (nonlinear_arith)
            requires
                g == f * y,
        ;
    }
    e + o
}

/// What the nodes of degree 81 of a binary element hold.
spec fn nodes_of(q: u16, a: Seq<int>) -> Seq<u64> {
    Seq::new(
        648,
        |s: int|
            (poly::strided(a, s % 81, 81, params::tree_of(q).root(81, s / 81)) % (q as int)) as u64,
    )
}

/// Position `i` of node `k`.
proof fn lemma_node_entry(q: u16, nib: Seq<u8>, k: int, i: int)
    requires
        params::splitting(q),
        nib.len() == 162,
        0 <= k < 8,
        0 <= i < 81,
    ensures
        ({
            let (y, x) = (node_point(q, k), nodes_of(q, unpacked(nib))[81 * k + i]);
            &&& same(
                x as int,
                nibble_value(nib[i] as int, y * y) + y * nibble_value(nib[i + 81] as int, y * y),
                q as int,
            )
            &&& x < q
        }),
{
    let (a, y) = (unpacked(nib), node_point(q, k));
    let s = 81 * k + i;
    assert(s % 81 == i && s / 81 == k);
    poly::lemma_split2(a, i, 81, y);
    lemma_nibble(nib, i, y * y);
    lemma_nibble(nib, i + 81, y * y);
    modular::lemma_reduced(poly::strided(a, i, 81, y), q as int);
}

/// The lookups at `i`, `i + 27` and `i + 54` of node `k`, in terms of what the node holds.
proof fn lemma_folded_entries(q: u16, nib: Seq<u8>, k: int, i: int, a0: int, t1: int, t2: int)
    requires
        params::splitting(q),
        nib.len() == 162,
        0 <= k < 8,
        0 <= i < 27,
        ({
            let y = node_point(q, k);
            let h = |n: int|
                nibble_value(nib[n] as int, y * y) + y * nibble_value(nib[n + 81] as int, y * y);
            &&& same(a0, factor(q, k, 0, 0) * h(i), q as int)
            &&& same(t1, factor(q, k, 1, 0) * h(i + 27), q as int)
            &&& same(t2, factor(q, k, 2, 0) * h(i + 54), q as int)
        }),
    ensures
        ({
            let (x, z) = (nodes_of(q, unpacked(nib)), child_point(q, k));
            &&& same(a0, x[81 * k + i] as int, q as int)
            &&& same(t1, z * x[81 * k + 27 + i], q as int)
            &&& same(t2, z * z * x[81 * k + 54 + i], q as int)
        }),
{
    let (x, z, n) = (nodes_of(q, unpacked(nib)), child_point(q, k), q as int);
    let y = node_point(q, k);
    lemma_node_entry(q, nib, k, i);
    lemma_node_entry(q, nib, k, i + 27);
    lemma_node_entry(q, nib, k, i + 54);
    let h0 = nibble_value(nib[i] as int, y * y) + y * nibble_value(nib[i + 81] as int, y * y);
    let h1 = nibble_value(nib[i + 27] as int, y * y) + y * nibble_value(
        nib[i + 27 + 81] as int,
        y * y,
    );
    let h2 = nibble_value(nib[i + 54] as int, y * y) + y * nibble_value(
        nib[i + 54 + 81] as int,
        y * y,
    );
    assert(1 * h0 == h0);
    assert(81 * k + (i + 27) == 81 * k + 27 + i && 81 * k + (i + 54) == 81 * k + 54 + i);
    modular::lemma_mul(z, h1, z, x[81 * k + 27 + i] as int, n);
    modular::lemma_mul(z * z, h2, z * z, x[81 * k + 54 + i] as int, n);
}

/// The inputs of butterfly `i` of node `k`, the twiddles applied.
fn inputs(t: &Tables, nib: &[u8; 162], k: usize, i: usize) -> (x: (i16, i16, i16))
    requires
        t.filled(),
        nibbles(nib@),
        k < 8,
        i < 27,
    ensures
        abs(x.0 as int) <= t.q + 1,
        abs(x.1 as int) <= t.q + 1,
        abs(x.2 as int) <= t.q + 1,
        ({
            let (y, z) = (nodes_of(t.q, unpacked(nib@)), child_point(t.q, k as int));
            &&& same(x.0 as int, y[81 * k + i] as int, t.q as int)
            &&& same(x.1 as int, z * y[81 * k + 27 + i], t.q as int)
            &&& same(x.2 as int, z * z * y[81 * k + 54 + i], t.q as int)
        }),
{
    assert(nib@[i as int] < 16 && nib@[i + 81] < 16);
    assert(nib@[i + 27] < 16 && nib@[i + 108] < 16);
    assert(nib@[i + 54] < 16 && nib@[i + 135] < 16);
    let a0: i16 = looked_up(t, k, 0, nib[i], nib[i + 81]);
    let t1: i16 = looked_up(t, k, 1, nib[i + 27], nib[i + 108]);
    let t2: i16 = looked_up(t, k, 2, nib[i + 54], nib[i + 135]);
    proof {
        assert(i + 27 + 81 == i + 108 && i + 54 + 81 == i + 135);
        lemma_folded_entries(t.q, nib@, k as int, i as int, a0 as int, t1 as int, t2 as int);
    }
    (a0, t1, t2)
}

/// The first radix-3 level at node `k`: its three children, from the tables.
fn children(
    t: &Tables,
    nib: &[u8; 162],
    out: &mut [i16; 648],
    k: usize,
    om: &Twiddle,
    Ghost(w): Ghost<int>,
    Ghost(r): Ghost<(int, int, int, int)>,
)
    requires
        t.filled(),
        nibbles(nib@),
        k < 8,
        paired(*om, t.q as int),
        stands_for(*om, w, t.q as int),
        same(w * w + w + 1, 0, t.q as int),
        t.bar@[0].offered(t.q),
        t.bar@[0].keeps(t.q as int, t.q + 1, t.q + 1, r),
        2 * r.1 <= r.3,
    ensures
        forall|j: int|
            0 <= j < 81 * k || 81 * k + 81 <= j < 648 ==> (#[trigger] final(out)@[j]) == old(
                out,
            )@[j],
        forall|j: int|
            81 * k <= j < 81 * k + 81 ==> abs(#[trigger] final(out)@[j] as int)
                <= network::summed(r),
        ({
            let (x, z) = (nodes_of(t.q, unpacked(nib@)), child_point(t.q, k as int));
            &&& forall|j: int|
                81 * k <= j < 81 * k + 27 ==> same(
                    #[trigger] final(out)@[j] as int,
                    x[j] + z * x[j + 27] + z * z * x[j + 54],
                    t.q as int,
                )
            &&& forall|j: int|
                81 * k + 27 <= j < 81 * k + 54 ==> same(
                    #[trigger] final(out)@[j] as int,
                    x[j - 27] + w * (z * x[j]) + w * w * (z * z * x[j + 27]),
                    t.q as int,
                )
            &&& forall|j: int|
                81 * k + 54 <= j < 81 * k + 81 ==> same(
                    #[trigger] final(out)@[j] as int,
                    x[j - 54] + w * w * (z * x[j - 27]) + w * (z * z * x[j]),
                    t.q as int,
                )
        }),
{
    let q: u16 = t.q;
    let base: usize = 81 * k;
    let s: Sites = t.bar[0];
    let ghost x = nodes_of(q, unpacked(nib@));
    let ghost z = child_point(q, k as int);
    let mut i: usize = 0;
    while i < 27
        invariant
            i <= 27,
            t.filled(),
            q == t.q,
            nibbles(nib@),
            k < 8,
            base == 81 * k,
            s == t.bar@[0],
            paired(*om, q as int),
            stands_for(*om, w, q as int),
            same(w * w + w + 1, 0, q as int),
            s.offered(q),
            s.keeps(q as int, q + 1, q + 1, r),
            2 * r.1 <= r.3,
            x == nodes_of(q, unpacked(nib@)),
            z == child_point(q, k as int),
            forall|j: int|
                0 <= j < base || base + i <= j < base + 27 || base + 27 + i <= j < base + 54 || base
                    + 54 + i <= j < 648 ==> (#[trigger] out@[j]) == old(out)@[j],
            forall|j: int|
                base <= j < base + i || base + 27 <= j < base + 27 + i || base + 54 <= j < base + 54
                    + i ==> abs(#[trigger] out@[j] as int) <= network::summed(r),
            forall|j: int|
                base <= j < base + i ==> same(
                    #[trigger] out@[j] as int,
                    x[j] + z * x[j + 27] + z * z * x[j + 54],
                    q as int,
                ),
            forall|j: int|
                base + 27 <= j < base + 27 + i ==> same(
                    #[trigger] out@[j] as int,
                    x[j - 27] + w * (z * x[j]) + w * w * (z * z * x[j + 27]),
                    q as int,
                ),
            forall|j: int|
                base + 54 <= j < base + 54 + i ==> same(
                    #[trigger] out@[j] as int,
                    x[j - 54] + w * w * (z * x[j - 27]) + w * (z * z * x[j]),
                    q as int,
                ),
        decreases 27 - i,
    {
        let (a0, t1, t2): (i16, i16, i16) = inputs(t, nib, k, i);
        let (o0, o1, o2): (i16, i16, i16) = network::butterfly(
            q,
            om,
            a0,
            t1,
            t2,
            s,
            Ghost(w),
            Ghost((q + 1, q + 1)),
            Ghost(r),
        );
        proof {
            network::lemma_folded(
                q as int,
                z,
                w,
                (a0 as int, t1 as int, t2 as int),
                (x[base + i] as int, x[base + 27 + i] as int, x[base + 54 + i] as int),
                (o0 as int, o1 as int, o2 as int),
            );
        }
        out[base + i] = o0;
        out[base + 27 + i] = o1;
        out[base + 54 + i] = o2;
        i += 1;
    }
}

/// The first four levels: what the nodes of degree 27 hold, from the tables.
#[verifier::spinoff_prover]
fn looked_up_levels(
    t: &Tables,
    nib: &[u8; 162],
    Ghost(r): Ghost<(int, int, int, int)>,
) -> (out: [i16; 648])
    requires
        t.wf(),
        nibbles(nib@),
        t.bar@[0].offered(t.q),
        t.bar@[0].keeps(t.q as int, t.q + 1, t.q + 1, r),
        2 * r.1 <= r.3,
    ensures
        params::tree_of(t.q).holds(network::residues(out@, t.q as u64), unpacked(nib@), 27),
        network::within(out@, network::summed(r)),
{
    let q: u16 = t.q;
    let tr = params::limb_tree(q);
    let ghost a = unpacked(nib@);
    let ghost x = nodes_of(q, a);
    let w: u64 = modular::pow_mod(tr.psi, 648, q as u64);
    proof {
        let (n, c) = (q as int, pow(tr.psi as int, 648));
        modular::lemma_reduced(c, n);
        modular::lemma_mul(w as int, w as int, c, c, n);
        modular::lemma_add(w * w, w as int, c * c, c, n);
        modular::lemma_add(w * w + w, 1, c * c + c, 1, n);
    }
    let om = lane::twiddle(w, q);
    let mut out: [i16; 648] = [0;648];
    let mut k: usize = 0;
    while k < 8
        invariant
            k <= 8,
            t.wf(),
            q == t.q,
            tr == params::tree_of(q),
            tr.wf(),
            nibbles(nib@),
            a == unpacked(nib@),
            x == nodes_of(q, a),
            same(w as int, pow(tr.psi as int, 648), q as int),
            same(w * w + w + 1, 0, q as int),
            paired(om, q as int),
            stands_for(om, w as int, q as int),
            t.bar@[0].offered(q),
            t.bar@[0].keeps(q as int, q + 1, q + 1, r),
            2 * r.1 <= r.3,
            forall|j: int|
                0 <= j < 81 * k ==> abs(#[trigger] out@[j] as int) <= network::summed(r) && same(
                    out@[j] as int,
                    tr.part(x, 81, j),
                    q as int,
                ),
        decreases 8 - k,
    {
        let ghost before = out@;
        children(t, nib, &mut out, k, &om, Ghost(w as int), Ghost(r));
        proof {
            let y = network::residues(out@, tr.q);
            assert forall|j: int| 81 * k <= j < 81 * k + 81 implies (#[trigger] y[j]) < tr.q
                && same(y[j] as int, out@[j] as int, q as int) by {
                network::lemma_residue(out@, tr.q, j);
            }
            assert(81int / 3 == 27);
            assert(k * (3 * (27 * 1int)) == 81 * k) by (nonlinear_arith);
            tree::lemma_node3(tr, x, y, 81, k as int, child_point(q, k as int), w as int);
            assert forall|j: int| 0 <= j < 81 * k + 81 implies abs(#[trigger] out@[j] as int)
                <= network::summed(r) && same(out@[j] as int, tr.part(x, 81, j), q as int) by {
                if j < 81 * k {
                    assert(out@[j] == before[j]);
                } else {
                    assert(y[j] < tr.q);
                }
            }
        }
        k += 1;
    }
    proof {
        let y = network::residues(out@, tr.q);
        assert forall|j: int| 0 <= j < 648 implies (#[trigger] y[j]) < tr.q && same(
            y[j] as int,
            tr.part(x, 81, j),
            tr.q as int,
        ) by {
            network::lemma_residue(out@, tr.q, j);
            assert(abs(out@[j] as int) <= network::summed(r));
        }
        assert(tr.holds(x, a, 81)) by {
            assert forall|j: int| 0 <= j < 648 implies (#[trigger] x[j]) < tr.q && same(
                x[j] as int,
                poly::strided(a, j % 81, 81, tr.root(81, j / 81)),
                tr.q as int,
            ) by {
                modular::lemma_reduced(
                    poly::strided(a, j % 81, 81, tr.root(81, j / 81)),
                    q as int,
                );
            }
        }
        tree::lemma_down(tr, x, y, a, 81);
        assert(81int / 3 == 27);
    }
    out
}

// ---------------------------------------------------------------------------------------------
// the bounds
// ---------------------------------------------------------------------------------------------

/// A product of powers of the root of unity at 9721.
proof fn lemma_join(e: nat, f: nat, r: int, s: int)
    requires
        pow(7086, e) % 9721 == r,
        pow(7086, f) % 9721 == s,
    ensures
        pow(7086, e + f) % 9721 == r * s % 9721,
{
    lemma_pow_adds(7086, e, f);
    modular::lemma_reduced(pow(7086, e), 9721);
    modular::lemma_reduced(pow(7086, f), 9721);
    modular::lemma_mul(pow(7086, e), pow(7086, f), r, s, 9721);
}

/// Node `k` of degree 27 at 9721, whose exponent is `e`: the magnitudes of its multipliers.
proof fn lemma_node_light(k: int, e: int, z: int, y1: int, y2: int)
    requires
        0 <= k < 24,
        tree::place(true, 27, k) == e,
        pow(7086, (9 * e) as nat) % 9721 == z,
        65536 * z % 9721 == y1,
        65536 * (z * z) % 9721 == y2,
        halved(y1) + halved(y2) <= 7286,
    ensures
        network::light(params::tree_of(9721), 27, k, 7286),
{
    let t = params::tree_of(9721);
    params::lemma_limb(9721);
    t.lemma_roots(27, k, 0);
    assert(27int / 3 == 9);
    assert(k * 3 == 3 * k);
    let x = t.root(9, 3 * k);
    assert(x == pow(7086, (9 * e) as nat));
    modular::lemma_reduced(x, 9721);
    modular::lemma_mul(65536, x, 65536, z, 9721);
    modular::lemma_mul(x, x, z, z, 9721);
    modular::lemma_mul(65536, x * x, 65536, z * z, 9721);
}

/// The magnitude of a residue at 9721, centred.
spec fn halved(y: int) -> int {
    if 2 * y > 9721 {
        9721 - y
    } else {
        y
    }
}

/// The exponents of the nodes of degree 27.
proof fn lemma_places(k: int)
    requires
        0 <= k < 24,
    ensures
        tree::place(true, 27, k) == 1 + 4 * (k / 12) + 6 * (k / 6 % 2) + 12 * (k / 3 % 2) + 24 * (k
            % 3),
{
    assert(1944int / 324 == 6 && 1944int / 162 == 12 && 1944int / 81 == 24);
    assert(k / 3 / 2 == k / 6 && k / 6 / 2 == k / 12);
    assert(tree::place(true, 324, k / 12) == 1 + 4 * (k / 12));
    assert(tree::place(true, 162, k / 6) == tree::place(true, 324, k / 6 / 2) + (k / 6 % 2) * 6);
    assert(tree::place(true, 81, k / 3) == tree::place(true, 162, k / 3 / 2) + (k / 3 % 2) * 12);
    assert(tree::place(true, 27, k) == tree::place(true, 81, k / 3) + (k % 3) * 24);
}

/// The twiddles of the nodes of degree 27 at 9721.
#[verifier::spinoff_prover]
proof fn lemma_light_9721(k: int)
    requires
        0 <= k < 24,
    ensures
        network::light(params::tree_of(9721), 27, k, 7286),
{
    lemma_pow1(7086);
    assert(pow(7086, 1) % 9721 == 7086);
    lemma_join(1, 1, 7086, 7086);
    assert(7086int * 7086 % 9721 == 2431);
    lemma_join(2, 2, 2431, 2431);
    assert(2431int * 2431 % 9721 == 9114);
    lemma_join(4, 4, 9114, 9114);
    assert(9114int * 9114 % 9721 == 8772);
    lemma_join(8, 1, 8772, 7086);
    assert(8772int * 7086 % 9721 == 2318);
    lemma_join(9, 9, 2318, 2318);
    assert(2318int * 2318 % 9721 == 7132);
    lemma_join(18, 18, 7132, 7132);
    assert(7132int * 7132 % 9721 == 5152);
    lemma_join(36, 9, 5152, 2318);
    assert(5152int * 2318 % 9721 == 4948);
    lemma_join(36, 18, 5152, 7132);
    assert(5152int * 7132 % 9721 == 8405);
    lemma_join(9, 54, 2318, 8405);
    assert(2318int * 8405 % 9721 == 1906);
    lemma_join(45, 54, 4948, 8405);
    assert(4948int * 8405 % 9721 == 1502);
    lemma_join(63, 54, 1906, 8405);
    assert(1906int * 8405 % 9721 == 9443);
    lemma_join(99, 54, 1502, 8405);
    assert(1502int * 8405 % 9721 == 6452);
    lemma_join(117, 54, 9443, 8405);
    assert(9443int * 8405 % 9721 == 6171);
    lemma_join(153, 54, 6452, 8405);
    assert(6452int * 8405 % 9721 == 5322);
    lemma_join(171, 54, 6171, 8405);
    assert(6171int * 8405 % 9721 == 5720);
    lemma_join(207, 54, 5322, 8405);
    assert(5322int * 8405 % 9721 == 5089);
    lemma_join(225, 54, 5720, 8405);
    assert(5720int * 8405 % 9721 == 6255);
    lemma_join(261, 54, 5089, 8405);
    assert(5089int * 8405 % 9721 == 645);
    lemma_join(279, 54, 6255, 8405);
    assert(6255int * 8405 % 9721 == 2107);
    lemma_join(315, 54, 645, 8405);
    assert(645int * 8405 % 9721 == 6628);
    lemma_join(333, 54, 2107, 8405);
    assert(2107int * 8405 % 9721 == 7394);
    lemma_join(369, 54, 6628, 8405);
    assert(6628int * 8405 % 9721 == 7010);
    lemma_join(387, 54, 7394, 8405);
    assert(7394int * 8405 % 9721 == 217);
    lemma_join(423, 54, 7010, 8405);
    assert(7010int * 8405 % 9721 == 69);
    lemma_join(441, 54, 217, 8405);
    assert(217int * 8405 % 9721 == 6058);
    lemma_join(477, 54, 69, 8405);
    assert(69int * 8405 % 9721 == 6406);
    lemma_join(495, 54, 6058, 8405);
    assert(6058int * 8405 % 9721 == 8613);
    lemma_join(531, 54, 6406, 8405);
    assert(6406int * 8405 % 9721 == 7532);
    lemma_join(549, 54, 8613, 8405);
    assert(8613int * 8405 % 9721 == 9699);
    lemma_join(585, 54, 7532, 8405);
    assert(7532int * 8405 % 9721 == 3308);
    lemma_places(k);
    if k == 0 {
        assert(65536 * 2318int % 9721 == 2381 && 65536 * (2318int * 2318) % 9721 == 7351);
        lemma_node_light(0, 1, 2318, 2381, 7351);
    } else if k == 1 {
        assert(65536 * 5720int % 9721 == 4718 && 65536 * (5720int * 5720) % 9721 == 1464);
        lemma_node_light(1, 25, 5720, 4718, 1464);
    } else if k == 2 {
        assert(65536 * 217int % 9721 == 9210 && 65536 * (217int * 217) % 9721 == 5765);
        lemma_node_light(2, 49, 217, 9210, 5765);
    } else if k == 3 {
        assert(65536 * 9443int % 9721 == 7867 && 65536 * (9443int * 9443) % 9721 == 199);
        lemma_node_light(3, 13, 9443, 7867, 199);
    } else if k == 4 {
        assert(65536 * 2107int % 9721 == 7268 && 65536 * (2107int * 2107) % 9721 == 3101);
        lemma_node_light(4, 37, 2107, 7268, 3101);
    } else if k == 5 {
        assert(65536 * 8613int % 9721 == 1982 && 65536 * (8613int * 8613) % 9721 == 890);
        lemma_node_light(5, 61, 8613, 1982, 890);
    } else if k == 6 {
        assert(65536 * 1906int % 9721 == 6487 && 65536 * (1906int * 1906) % 9721 == 8831);
        lemma_node_light(6, 7, 1906, 6487, 8831);
    } else if k == 7 {
        assert(65536 * 6255int % 9721 == 2831 && 65536 * (6255int * 6255) % 9721 == 5964);
        lemma_node_light(7, 31, 6255, 2831, 5964);
    } else if k == 8 {
        assert(65536 * 6058int % 9721 == 1727 && 65536 * (6058int * 6058) % 9721 == 2370);
        lemma_node_light(8, 55, 6058, 1727, 2370);
    } else if k == 9 {
        assert(65536 * 6171int % 9721 == 9614 && 65536 * (6171int * 6171) % 9721 == 731);
        lemma_node_light(9, 19, 6171, 9614, 731);
    } else if k == 10 {
        assert(65536 * 7394int % 9721 == 776 && 65536 * (7394int * 7394) % 9721 == 2354);
        lemma_node_light(10, 43, 7394, 776, 2354);
    } else if k == 11 {
        assert(65536 * 9699int % 9721 == 6637 && 65536 * (9699int * 9699) % 9721 == 9522);
        lemma_node_light(11, 67, 9699, 6637, 9522);
    } else if k == 12 {
        assert(65536 * 4948int % 9721 == 8731 && 65536 * (4948int * 4948) % 9721 == 864);
        lemma_node_light(12, 5, 4948, 8731, 864);
    } else if k == 13 {
        assert(65536 * 5089int % 9721 == 4636 && 65536 * (5089int * 5089) % 9721 == 9458);
        lemma_node_light(13, 29, 5089, 4636, 9458);
    } else if k == 14 {
        assert(65536 * 69int % 9721 == 1719 && 65536 * (69int * 69) % 9721 == 1959);
        lemma_node_light(14, 53, 69, 1719, 1959);
    } else if k == 15 {
        assert(65536 * 6452int % 9721 == 3935 && 65536 * (6452int * 6452) % 9721 == 7089);
        lemma_node_light(15, 17, 6452, 3935, 7089);
    } else if k == 16 {
        assert(65536 * 6628int % 9721 == 9165 && 65536 * (6628int * 6628) % 9721 == 8812);
        lemma_node_light(16, 41, 6628, 9165, 8812);
    } else if k == 17 {
        assert(65536 * 7532int % 9721 == 4214 && 65536 * (7532int * 7532) % 9721 == 783);
        lemma_node_light(17, 65, 7532, 4214, 783);
    } else if k == 18 {
        assert(65536 * 1502int % 9721 == 226 && 65536 * (1502int * 1502) % 9721 == 8938);
        lemma_node_light(18, 11, 1502, 226, 8938);
    } else if k == 19 {
        assert(65536 * 645int % 9721 == 3812 && 65536 * (645int * 645) % 9721 == 9048);
        lemma_node_light(19, 35, 645, 3812, 9048);
    } else if k == 20 {
        assert(65536 * 6406int % 9721 == 2789 && 65536 * (6406int * 6406) % 9721 == 8857);
        lemma_node_light(20, 59, 6406, 2789, 8857);
    } else if k == 21 {
        assert(65536 * 5322int % 9721 == 2833 && 65536 * (5322int * 5322) % 9721 == 9676);
        lemma_node_light(21, 23, 5322, 2833, 9676);
    } else if k == 22 {
        assert(65536 * 7010int % 9721 == 2621 && 65536 * (7010int * 7010) % 9721 == 520);
        lemma_node_light(22, 47, 7010, 2621, 520);
    } else if k == 23 {
        assert(65536 * 3308int % 9721 == 5067 && 65536 * (3308int * 3308) % 9721 == 2632);
        lemma_node_light(23, 71, 3308, 5067, 2632);
    }
}

/// What the reductions leave at a large prime.
proof fn lemma_caps(c: Caps)
    requires
        c.wf(),
    ensures
        8000 <= c.lut,
        2 * c.lut <= c.q + 2047,
        8000 <= c.mul <= 14306,
        c.q == 17497 ==> c.mul <= 10418,
{
    let q = c.q as int;
    let a = choose|a: int|
        -32768 <= a < 32768 && abs(#[trigger] lane::lookup_reduced(a, q)) == c.lut;
    lane::lookup_bound(a, q);
    let x = 8000int;
    assert(x / 2048 == 3 && 3int % 32 == 3);
    assert(lane::window(x) == 3);
    if q == 17497 {
        assert((14335 + 17497int) / 34994 == 0);
    } else {
        assert((14335 + 19441int) / 38882 == 0);
    }
    assert(lane::nearest(3, q) == 0);
    assert(abs(lane::lookup_reduced(x, q)) <= c.lut);
    assert(lane::estimate(x) == 0);
    assert(abs(x - lane::estimate(x) * c.q) <= c.mul);
    let b = choose|b: int|
        -32768 <= b < 32768 && abs(b - (#[trigger] lane::estimate(b)) * c.q) == c.mul;
    lemma_multiplied(b, c.q);
}

/// What the multiplying reduction leaves at a large prime.
proof fn lemma_multiplied(a: int, q: u16)
    requires
        -32768 <= a < 32768,
        q == 17497 || q == 19441,
    ensures
        abs(a - lane::estimate(a) * q) <= 14306,
        q == 17497 ==> abs(a - lane::estimate(a) * q) <= 10418,
        abs(a) <= 24575 ==> abs(a - lane::estimate(a) * q) <= q - 8192,
{
    let (x, t) = (4 * a + 32768, lane::estimate(a));
    assert(65536 * t <= x < 65536 * t + 65536);
    assert(-2 <= t <= 2);
    if t == 2 {
        assert(t * q == 2 * q);
    } else if t == 1 {
        assert(t * q == q);
    } else if t == 0 {
        assert(t * q == 0);
    } else if t == -1 {
        assert(t * q == -q);
    } else {
        assert(t * q == -2 * q);
    }
}

/// The least magnitude a bound of a large prime's schedule is reduced at.
spec fn floor_of(q: u16) -> int {
    lane::product_bound(16000, q as int)
}

/// A site leaves at most what the schedule carries past it.
proof fn lemma_carried(c: Caps, k: u8, b: int)
    requires
        c.wf(),
        floor_of(c.q) <= b <= 32768,
    ensures
        lane::settles(k, b, schedule::capped(c, b, k as int), c.q as int),
        schedule::capped(c, b, k as int) >= 8000,
{
    reveal(lane::settles);
    lemma_caps(c);
    let q = c.q as int;
    if c.q == 17497 {
        assert(16000 * 17497int / 131072 == 2135);
    } else {
        assert(16000 * 19441int / 131072 == 2373);
    }
    assert forall|a: int| -32768 <= a < 32768 && abs(a) <= b implies abs(
        #[trigger] lane::site(k, a, q),
    ) <= schedule::capped(c, b, k as int) by {
        if k == 1 {
            assert(abs(lane::lookup_reduced(a, q)) <= c.lut);
        } else if k == 2 {
            assert(abs(a - lane::estimate(a) * c.q) <= c.mul);
            lemma_multiplied(a, c.q);
        }
    }
}

/// A level of a large prime's schedule in terms of what its sites leave.
proof fn lemma_level_sites(c: Caps, code: int, l: int, v: int) -> (r: (int, int, int, int))
    requires
        c.wf(),
        0 <= l < 4,
        16000 <= v <= 32768,
        schedule::level_peak(c, code, l, v) <= 32767,
    ensures
        sites_of(code, l).offered(c.q),
        sites_of(code, l).keeps(
            c.q as int,
            v,
            if l == 0 {
                v
            } else {
                lane::product_bound(v, c.q as int)
            },
            r,
        ),
        2 * r.1 <= r.3,
        network::summed(r) == schedule::level_out(c, code, l, v),
        16000 <= schedule::level_out(c, code, l, v) <= 32767,
{
    reveal(schedule::level_out);
    reveal(schedule::level_peak);
    let q = c.q as int;
    let (ka, kt, ku) = (
        schedule::kind(code, l, 0),
        schedule::kind(code, l, 1),
        schedule::kind(code, l, 2),
    );
    assert(0 <= ka < 3 && 0 <= kt < 3 && 0 <= ku < 3);
    network::lemma_product_fits(16000, v, c.q);
    network::lemma_product_fits(v, 32768, c.q);
    if c.q == 17497 {
        assert(16000 * 17497int / 131072 == 2135);
    } else {
        assert(16000 * 19441int / 131072 == 2373);
    }
    let p = if l == 0 {
        v
    } else {
        lane::product_bound(v, q)
    };
    lemma_carried(c, ka as u8, v);
    lemma_carried(c, kt as u8, p);
    let t = schedule::twiddled(c, code, l, v);
    network::lemma_product_fits(16000, 2 * t, c.q);
    network::lemma_product_fits(2 * t, 32768, c.q);
    lemma_carried(c, ku as u8, lane::product_bound(2 * t, q));
    (
        schedule::straight(c, code, l, v),
        t,
        schedule::rotated(c, code, l, v),
        2 * t,
    )
}

/// The sites keep every lane of the four radix-3 levels, and leave `r` at each: the first level is on
/// sums of two entries, the others on what the level before leaves.
#[verifier::opaque]
spec fn kept(q: u16, bar: Seq<Sites>, r: Seq<(int, int, int, int)>) -> bool {
    let (b0, b1, b2) = (network::summed(r[0]), network::summed(r[1]), network::summed(r[2]));
    let (m, t) = (q as int, params::tree_of(q));
    &&& bar[0].offered(q) && bar[1].offered(q) && bar[2].offered(q) && bar[3].offered(q)
    &&& bar[0].keeps(m, m + 1, m + 1, r[0])
    &&& bar[1].keeps(m, b0, lane::product_bound(b0, m), r[1])
    &&& bar[2].keeps(m, b1, lane::product_bound(b1, m), r[2])
    &&& bar[3].keeps(m, b2, lane::product_bound(b2, m), r[3])
    &&& 2 * r[0].1 <= r[0].3
    &&& network::level_spread(t, 27, bar[1].t, b0, r[1])
    &&& network::level_spread(t, 9, bar[2].t, b1, r[2])
    &&& network::level_spread(t, 3, bar[3].t, b2, r[3])
    &&& 0 <= b0 && 0 <= b1 && 0 <= b2
}

/// The lanes a transform leaves: up to seven and a half `q` at 3889, up to 2.294 `q` at 9721, and up to
/// the output bound of the schedule at a large prime.
pub open spec fn left_by(q: u16, y: Seq<i16>) -> bool {
    if q == 3889 || q == 9721 {
        forall|j: int|
            0 <= j < y.len() ==> 1000 * abs(#[trigger] y[j] as int) <= lane::declared_milli(q) * q
    } else {
        forall|c: Caps, out: int|
            c.q == q && #[trigger] c.wf() && #[trigger] schedule::leaves(c, out)
                ==> network::within(y, out)
    }
}

/// A lane that is not reduced stays as large.
proof fn lemma_plain(b: int, q: int)
    ensures
        lane::settles(0, b, b, q),
{
    reveal(lane::settles);
}

proof fn lemma_kept_3889() -> (r: Seq<(int, int, int, int)>)
    ensures
        kept(3889, seq![only(0), only(0), only(0), only(0)], r),
        network::summed(r[3]) == 26248,
{
    reveal(kept);
    let q = 3889int;
    assert(7780 * q / 131072 == 230 && 11670 * q / 131072 == 346 && 4582 * q / 131072 == 135);
    assert(16252 * q / 131072 == 482 && 4854 * q / 131072 == 144);
    assert(21106 * q / 131072 == 626 && 5142 * q / 131072 == 152);
    lemma_plain(3890, q);
    lemma_plain(2175, q);
    lemma_plain(11670, q);
    lemma_plain(2291, q);
    lemma_plain(2080, q);
    lemma_plain(16252, q);
    lemma_plain(2427, q);
    lemma_plain(2089, q);
    lemma_plain(21106, q);
    lemma_plain(2571, q);
    lemma_plain(2097, q);
    seq![
        (3890, 3890, 2175, 7780),
        (11670, 2291, 2080, 4582),
        (16252, 2427, 2089, 4854),
        (21106, 2571, 2097, 5142),
    ]
}

proof fn lemma_kept_9721() -> (r: Seq<(int, int, int, int)>)
    ensures
        kept(9721, seq![only(0), only(1), only(0), only(2)], r),
        network::summed(r[3]) == 22238,
{
    reveal(kept);
    let q = 9721int;
    assert(19444 * q / 131072 == 1442 && 29166 * q / 131072 == 2163 && 14048 * q / 131072 == 1041);
    assert(29166 * 7286int / 65536 == 3242);
    assert(18847 * q / 131072 == 1397 && 12516 * q / 131072 == 928);
    assert(31363 * q / 131072 == 2326 && 14374 * q / 131072 == 1066);
    lemma_plain(9722, q);
    lemma_plain(6303, q);
    lemma_plain(7024, q);
    lemma_plain(5902, q);
    lemma_plain(18847, q);
    lemma_plain(6258, q);
    lemma_plain(5789, q);
    lemma_plain(7187, q);
    lemma_plain(5927, q);
    assert(lane::settles(1, 29166, 5884, q)) by {
        reveal(lane::settles);
        assert forall|a: int| -32768 <= a < 32768 && abs(a) <= 29166 implies abs(
            #[trigger] lane::site(1, a, q),
        ) <= 5884 by {
            lane::lookup_bound(a, q);
        }
    }
    assert(lane::settles(2, 31363, 7864, q)) by {
        reveal(lane::settles);
        assert forall|a: int| -32768 <= a < 32768 && abs(a) <= 31363 implies abs(
            #[trigger] lane::site(2, a, q),
        ) <= 7864 by {
            lane::thirds_bound(a);
        }
    }
    let r1 = (5884int, 7024int, 5902int, 12963int);
    assert(network::level_spread(params::tree_of(9721), 27, 0, 29166, r1)) by {
        assert forall|i: int| 0 <= i < tree::nodes(true, 27) implies #[trigger] network::light(
            params::tree_of(9721),
            27,
            i,
            7286,
        ) by {
            lemma_light_9721(i);
        }
        assert(network::spread(params::tree_of(9721).q as int, 0, 29166, 7286, r1));
    }
    seq![
        (9722, 9722, 6303, 19444),
        r1,
        (18847, 6258, 5789, 12516),
        (7864, 7187, 5927, 14374),
    ]
}

proof fn lemma_kept_large(c: Caps, code: int, bar: Seq<Sites>) -> (r: Seq<(int, int, int, int)>)
    requires
        c.wf(),
        schedule::is_best(c, code, 531441),
        follows(bar, code),
    ensures
        kept(c.q, bar, r),
        network::summed(r[3]) == schedule::bound_after(c, code, 4),
{
    reveal(kept);
    reveal(schedule::fits);
    reveal_with_fuel(schedule::bound_after, 5);
    reveal_with_fuel(schedule::peak_after, 5);
    let b0 = schedule::bound_after(c, code, 0);
    let b1 = schedule::bound_after(c, code, 1);
    let b2 = schedule::bound_after(c, code, 2);
    let b3 = schedule::bound_after(c, code, 3);
    let r0 = lemma_level_sites(c, code, 0, b0);
    let r1 = lemma_level_sites(c, code, 1, b1);
    let r2 = lemma_level_sites(c, code, 2, b2);
    let r3 = lemma_level_sites(c, code, 3, b3);
    seq![r0, r1, r2, r3]
}

/// What the schedule of a large prime leaves.
proof fn lemma_left(c: Caps, code: int, y: Seq<i16>)
    requires
        c.wf(),
        schedule::is_best(c, code, 531441),
        network::within(y, schedule::bound_after(c, code, 4)),
    ensures
        left_by(c.q, y),
{
    assert forall|d: Caps, out: int|
        d.q == c.q && #[trigger] d.wf() && #[trigger] schedule::leaves(
            d,
            out,
        ) implies network::within(y, out) by {
        schedule::caps_unique(c, d);
        let i = choose|i: int| 0 <= i < 531441 && code == #[trigger] schedule::tried(i);
        reveal(schedule::tried);
        reveal(schedule::fits);
        schedule::best_of_all(c, code, out, code);
    }
}

/// The sites of tables keep every lane, and what they leave is what the transform leaves.
proof fn lemma_kept(q: u16, bar: Seq<Sites>) -> (r: Seq<(int, int, int, int)>)
    requires
        params::splitting(q),
        is_schedule(q, bar),
    ensures
        kept(q, bar, r),
        forall|y: Seq<i16>|
            #[trigger] network::within(y, network::summed(r[3])) ==> left_by(q, y),
{
    if q == 3889 {
        let r = lemma_kept_3889();
        assert forall|y: Seq<i16>| #[trigger]
            network::within(y, network::summed(r[3])) implies left_by(q, y) by {
            assert forall|j: int| 0 <= j < y.len() implies 1000 * abs(#[trigger] y[j] as int)
                <= lane::declared_milli(q) * q by {}
        }
        r
    } else if q == 9721 {
        let r = lemma_kept_9721();
        assert forall|y: Seq<i16>| #[trigger]
            network::within(y, network::summed(r[3])) implies left_by(q, y) by {
            assert forall|j: int| 0 <= j < y.len() implies 1000 * abs(#[trigger] y[j] as int)
                <= lane::declared_milli(q) * q by {}
        }
        r
    } else {
        let (c, code) = choose|c: Caps, code: int|
            c.q == q && #[trigger] c.wf() && #[trigger] schedule::is_best(c, code, 531441)
                && follows(bar, code);
        let r = lemma_kept_large(c, code, bar);
        assert forall|y: Seq<i16>| #[trigger]
            network::within(y, network::summed(r[3])) implies left_by(q, y) by {
            lemma_left(c, code, y);
        }
        r
    }
}

/// The transform of the binary element whose nibbles are given, lazily reduced.
pub fn ntt_core(t: &Tables, nib: &[u8; 162]) -> (y: [i16; 648])
    requires
        t.wf(),
        nibbles(nib@),
    ensures
        scalar::is_ntt(t.q, ntt::residues(y@, t.q), unpacked(nib@)),
        left_by(t.q, y@),
{
    let q: u16 = t.q;
    let tr = params::limb_tree(q);
    let ghost a = unpacked(nib@);
    let ghost r = lemma_kept(q, t.bar@);
    proof {
        reveal(kept);
    }
    let ghost b0 = network::summed(r[0]);
    let ghost b1 = network::summed(r[1]);
    let ghost b2 = network::summed(r[2]);
    let v27 = looked_up_levels(t, nib, Ghost(r[0]));
    let v9 = network::level3(&tr, q, &v27, 27, t.bar[1], Ghost(b0), Ghost(r[1]));
    let v3 = network::level3(&tr, q, &v9, 9, t.bar[2], Ghost(b1), Ghost(r[2]));
    let v1 = network::level3(&tr, q, &v3, 3, t.bar[3], Ghost(b2), Ghost(r[3]));
    proof {
        let n = tr.q;
        tree::lemma_down(tr, network::residues(v27@, n), network::residues(v9@, n), a, 27);
        assert(27int / 3 == 9);
        tree::lemma_down(tr, network::residues(v9@, n), network::residues(v3@, n), a, 9);
        assert(9int / 3 == 3);
        tree::lemma_down(tr, network::residues(v3@, n), network::residues(v1@, n), a, 3);
        assert(3int / 3 == 1);
        ntt::lemma_lane(q, v1@, a);
        assert(network::within(v1@, network::summed(r[3])));
    }
    v1
}

// ---------------------------------------------------------------------------------------------
// thirty-two at a time
// ---------------------------------------------------------------------------------------------

/// The nibbles of 32 binary elements: `rows[i][p]` is nibble `i` of element `p`.
pub struct BinaryIndex32 {
    pub rows: [[u8; 32]; 162],
}

impl BinaryIndex32 {
    /// The nibbles of element `p`.
    pub open spec fn lane(&self, p: int) -> Seq<u8> {
        Seq::new(162, |i: int| self.rows@[i]@[p])
    }

    pub open spec fn wf(&self) -> bool {
        forall|i: int, p: int| 0 <= i < 162 && 0 <= p < 32 ==> (#[trigger] self.rows@[i]@[p]) < 16
    }

    fn nibbles_of(&self, p: usize) -> (n: [u8; 162])
        requires
            self.wf(),
            p < 32,
        ensures
            n@ == self.lane(p as int),
            nibbles(n@),
    {
        let mut n: [u8; 162] = [0;162];
        let mut i: usize = 0;
        while i < 162
            invariant
                i <= 162,
                p < 32,
                self.wf(),
                forall|k: int| 0 <= k < i ==> (#[trigger] n@[k]) == self.rows@[k]@[p as int],
                forall|k: int| 0 <= k < i ==> (#[trigger] n@[k]) < 16,
            decreases 162 - i,
        {
            assert(self.rows@[i as int]@[p as int] < 16);
            n[i] = self.rows[i][p];
            i += 1;
        }
        assert(n@ =~= self.lane(p as int));
        n
    }
}

/// The transforms of 32 binary elements, lazily reduced.
pub fn ntt_bin_batch32(t: &Tables, index: &BinaryIndex32) -> (out: Batch32)
    requires
        t.wf(),
        index.wf(),
    ensures
        out.representation == Representation::Ntt,
        forall|p: int|
            0 <= p < 32 ==> left_by(t.q, #[trigger] ntt::lane(out, p)) && scalar::is_ntt(
                t.q,
                ntt::residues(ntt::lane(out, p), t.q),
                unpacked(index.lane(p)),
            ),
{
    let q: u16 = t.q;
    let mut out = Batch32::zero(Representation::Ntt);
    let mut p: usize = 0;
    while p < 32
        invariant
            p <= 32,
            t.wf(),
            q == t.q,
            index.wf(),
            out.representation == Representation::Ntt,
            forall|i: int|
                0 <= i < p ==> left_by(q, #[trigger] ntt::lane(out, i)) && scalar::is_ntt(
                    q,
                    ntt::residues(ntt::lane(out, i), q),
                    unpacked(index.lane(i)),
                ),
        decreases 32 - p,
    {
        let n = index.nibbles_of(p);
        let y = ntt_core(t, &n);
        let e = RingElement { representation: Representation::Ntt, v: y };
        let ghost before = out;
        out.set(p, &e);
        assert(ntt::lane(out, p as int) =~= e.v@);
        assert forall|i: int| 0 <= i <= p implies left_by(q, #[trigger] ntt::lane(out, i))
            && scalar::is_ntt(
            q,
            ntt::residues(ntt::lane(out, i), q),
            unpacked(index.lane(i)),
        ) by {
            if i < p {
                assert(ntt::lane(out, i) =~= ntt::lane(before, i));
            }
        }
        p += 1;
    }
    out
}

/// The nibbles of 32 binary elements in coefficient form.
pub fn index_of(batch: &Batch32) -> (index: BinaryIndex32)
    requires
        forall|j: int, p: int|
            0 <= j < 648 && 0 <= p < 32 ==> 0 <= (#[trigger] batch.v@[j]@[p]) <= 1,
    ensures
        index.wf(),
        forall|p: int, x: int|
            0 <= p < 32 && 0 <= x < 648 ==> #[trigger] unpacked(index.lane(p))[x]
                == batch.v@[x]@[p],
{
    let mut rows: [[u8; 32]; 162] = [[0;32];162];
    let mut i: usize = 0;
    while i < 162
        invariant
            i <= 162,
            forall|j: int, p: int|
                0 <= j < 648 && 0 <= p < 32 ==> 0 <= (#[trigger] batch.v@[j]@[p]) <= 1,
            forall|k: int, p: int|
                0 <= k < i && 0 <= p < 32 ==> (#[trigger] rows@[k]@[p]) == batch.v@[k]@[p] + 2
                    * batch.v@[k + 162]@[p] + 4 * batch.v@[k + 324]@[p] + 8 * batch.v@[k
                    + 486]@[p],
        decreases 162 - i,
    {
        let mut row: [u8; 32] = [0;32];
        let mut p: usize = 0;
        while p < 32
            invariant
                i < 162,
                p <= 32,
                forall|j: int, p: int|
                    0 <= j < 648 && 0 <= p < 32 ==> 0 <= (#[trigger] batch.v@[j]@[p]) <= 1,
                forall|k: int|
                    0 <= k < p ==> (#[trigger] row@[k]) == batch.v@[i as int]@[k] + 2 * batch.v@[i
                        + 162]@[k] + 4 * batch.v@[i + 324]@[k] + 8 * batch.v@[i + 486]@[k],
            decreases 32 - p,
        {
            let (b0, b1, b2, b3): (i16, i16, i16, i16) = (
                batch.v[i][p],
                batch.v[i + 162][p],
                batch.v[i + 324][p],
                batch.v[i + 486][p],
            );
            row[p] = (b0 + 2 * b1 + 4 * b2 + 8 * b3) as u8;
            p += 1;
        }
        rows[i] = row;
        i += 1;
    }
    let index = BinaryIndex32 { rows };
    proof {
        assert forall|i: int, p: int| 0 <= i < 162 && 0 <= p < 32 implies (
        #[trigger] index.rows@[i]@[p]) < 16 by {
            assert(rows@[i]@[p] == index.rows@[i]@[p]);
            assert(0 <= batch.v@[i]@[p] <= 1 && 0 <= batch.v@[i + 162]@[p] <= 1);
            assert(0 <= batch.v@[i + 324]@[p] <= 1 && 0 <= batch.v@[i + 486]@[p] <= 1);
        }
        assert forall|p: int, x: int| 0 <= p < 32 && 0 <= x < 648 implies #[trigger] unpacked(
            index.lane(p),
        )[x] == batch.v@[x]@[p] by {
            let (i, j) = (x % 162, x / 162);
            assert(x == 162 * j + i);
            assert(rows@[i]@[p] == index.lane(p)[i]);
            let (b0, b1, b2, b3) = (
                batch.v@[i]@[p] as int,
                batch.v@[i + 162]@[p] as int,
                batch.v@[i + 324]@[p] as int,
                batch.v@[i + 486]@[p] as int,
            );
            let n = b0 + 2 * b1 + 4 * b2 + 8 * b3;
            assert(bit(n, 0) == b0 && bit(n, 1) == b1 && bit(n, 2) == b2 && bit(n, 3) == b3);
        }
    }
    index
}

} // verus!
