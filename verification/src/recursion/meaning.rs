//! What the constraints of a statement say of a witness.
//!
//! A constraint is a linear form over `Z[X]/(X^64 + 1)`, read modulo the backend's modulus. Buffers of
//! transformed elements are read through a reading of them, so that everything here holds of any reading
//! under which the public data stand for what they are named for.
use super::algebra;
use super::algebra::total;
use super::carry;
use super::chain;
use super::chain::{At, Product};
use super::chunk;
use super::statement;
use super::statement::{Kind, Layout, ProofPhi, Setup, Stretch};
use super::worth;
use super::Poly;
use crate::labrador::{
    BSource, Block, Constraint, PhiBlock, PhiSource, PolxBuf, ShortPhi, Statement,
};
use crate::modular;
use crate::modular::same;
use vstd::arithmetic::div_mod::*;
use vstd::prelude::*;

verus! {

/// A reading of transformed elements: element `i` of a buffer as 64 coefficients.
pub type Reading = spec_fn(PolxBuf, int) -> Seq<int>;

/// Coefficient `t` of a polynomial, continued below zero by `X^64 = -1`.
pub open spec fn turned(x: Seq<int>, t: int) -> int {
    if t >= 0 {
        x[t]
    } else {
        -x[t + 64]
    }
}

/// Place `j` of a product in `Z[X]/(X^64 + 1)`.
pub open spec fn times(g: Seq<int>, x: Seq<int>, j: int) -> int {
    total(|u: int| g[u] * turned(x, j - u), 64)
}

/// Witness polynomial `off` of vector `vector`.
pub open spec fn entry(w: Seq<Vec<Poly>>, vector: int, off: int) -> Seq<int> {
    Seq::new(64, |j: int| w[vector]@[off]@[j] as int)
}

/// Element `i` of a short buffer.
pub open spec fn short_element(p: ShortPhi, i: int) -> Seq<int> {
    Seq::new(
        64,
        |t: int|
            if p.off <= t < p.off + p.wid {
                p.c@[i * p.wid + (t - p.off)] as int
            } else {
                0
            },
    )
}

/// Element `i` of what a block reads.
pub open spec fn element(val: Reading, part: PhiBlock, i: int) -> Seq<int> {
    match part {
        PhiBlock::Polx(buf, base) => val(*buf, base + i),
        PhiBlock::Short(p, base) => short_element(*p, base + i),
    }
}

/// Place `j` of the products of one block with its slice of the witness.
pub open spec fn block_value(
    val: Reading,
    part: PhiBlock,
    blk: Block,
    w: Seq<Vec<Poly>>,
    j: int,
) -> int {
    total(
        |i: int| times(element(val, part, i), entry(w, blk.idx as int, blk.off + i), j),
        blk.len as nat,
    )
}

/// Place `j` of the first `n` blocks of a linear form.
pub open spec fn left_to(
    val: Reading,
    parts: Seq<PhiBlock>,
    blocks: Seq<Block>,
    w: Seq<Vec<Poly>>,
    j: int,
    n: nat,
) -> int {
    total(|t: int| block_value(val, parts[t], blocks[t], w, j), n)
}

/// Place `j` of the left side of a constraint.
pub open spec fn left(val: Reading, k: Constraint, w: Seq<Vec<Poly>>, j: int) -> int {
    match k.phi {
        PhiSource::Blocks(parts) => left_to(val, parts@, k.blocks@, w, j, k.blocks@.len()),
        _ => 0,
    }
}

/// Place `j` of the right side.
pub open spec fn right(val: Reading, k: Constraint, j: int) -> int {
    match k.b {
        None => 0,
        Some(BSource::Int64(v)) => v@[0]@[j] as int,
        Some(BSource::Polx(t)) => val(*t, 0)[j],
    }
}

/// The constraint holds of the witness modulo `q`.
pub open spec fn satisfied(val: Reading, k: Constraint, w: Seq<Vec<Poly>>, q: int) -> bool {
    forall|j: int| 0 <= j < 64 ==> same(#[trigger] left(val, k, w, j), right(val, k, j), q)
}

/// The constant polynomial `c`.
pub open spec fn constant(c: int) -> Seq<int> {
    Seq::new(
        64,
        |t: int|
            if t == 0 {
                c
            } else {
                0
            },
    )
}

/// The multiplier of carry `k` in the equation of diagonal `a`: `1` for the carry before it, `-Z^9` for
/// its own, and `-1` for the last one where it wraps around.
pub open spec fn carry_multiplier(a: int, k: int, t: int) -> int {
    (if k == a - 1 && t == 0 {
        1int
    } else {
        0
    }) - (if k == a && t == 9 {
        1int
    } else {
        0
    }) - (if k == 17 && (a == 0 || a == 9) && t == 0 {
        1int
    } else {
        0
    })
}

/// Level `d` of the carries in base `b` at diagonal `a`, carry `k`.
pub open spec fn carry_weight(b: int, d: nat, a: int, k: int) -> Seq<int> {
    Seq::new(64, |t: int| carry::weight(b, d) * carry_multiplier(a, k, t))
}

/// The buffers stand for the constants and the carry weights they are named for.
pub open spec fn stands(val: Reading, setup: Setup) -> bool {
    &&& forall|i: int|
        0 <= i < setup.factors@.len() ==> val(*(#[trigger] setup.scalars@[i]), 0) == constant(
            setup.factors@[i] as int,
        )
    &&& forall|i: int, m: int, k: int|
        0 <= i < setup.bases@.len() && 0 <= m < setup.carries@[i]@.len() && 0 <= k < 18
            ==> #[trigger] val(*setup.carries@[i]@[m], k) == carry_weight(
            setup.bases@[i] as int,
            (m / 18) as nat,
            m % 18,
            k,
        )
}

/// The buffer holds sub-chunk `a` at chunk `b` of every entry of a group.
pub open spec fn holds_entries(p: ShortPhi, layout: Layout, g: int, b: int, a: int) -> bool {
    forall|i: int, t: int|
        0 <= i < layout.groups@[g].len && 0 <= t < 64 ==> (#[trigger] short_element(p, i)[t]) == (
        if t < 9 {
            layout.public@[layout.groups@[g].first + i]@[b]@[a]@[t] as int
        } else {
            0
        })
}

/// The key buffers hold the sub-chunks of the public entries of their groups.
pub open spec fn keyed(setup: Setup, layout: Layout) -> bool {
    forall|g: int, m: int, k: int|
        #![trigger layout.groups@[g], setup.keys@[m]@[k]]
        0 <= g < layout.groups@.len() && 0 <= k < 54 ==> match layout.groups@[g].kind {
            Kind::Key { limb, part } => m == 8 * limb + part ==> holds_entries(
                *setup.keys@[m]@[k],
                layout,
                g,
                k / 18,
                k % 18,
            ),
            _ => true,
        }
}

/// The products of the first `n` stretches.
pub open spec fn count(st: Seq<Stretch>, n: nat) -> nat
    decreases n,
{
    if n == 0 {
        0
    } else {
        count(st, (n - 1) as nat) + st[n - 1].len as nat
    }
}

/// Product `i` of a stretch.
pub open spec fn product_of(layout: Layout, t: Stretch, i: int) -> Product {
    Product {
        blocks: (layout.groups@[t.group as int].first + t.offset + i) as usize,
        chunk: t.chunk,
        at: At { vector: t.at.vector, off: (t.at.off + i) as usize },
    }
}

/// The stretches of a chain are its products, one behind the other.
pub open spec fn stretched(layout: Layout, ci: int, w: Seq<Vec<Poly>>) -> bool {
    let (st, p) = (layout.stretches@[ci]@, layout.chains@[ci].products@);
    &&& p.len() == count(st, st.len())
    &&& forall|t: int|
        0 <= t < st.len() ==> (#[trigger] st[t]).offset + st[t].len
            <= layout.groups@[st[t].group as int].len && st[t].at.off + st[t].len <= usize::MAX
    &&& forall|t: int, i: int|
        0 <= t < st.len() && 0 <= i < st[t].len ==> (#[trigger] p[count(st, t as nat) + i])
            == product_of(layout, st[t], i)
    &&& chain::well_placed(p, layout.public@, w)
}

// ---------------------------------------------------------------------------------------------
// products
// ---------------------------------------------------------------------------------------------

/// A sum with one term.
proof fn lemma_spot(f: spec_fn(int) -> int, s: int, n: nat)
    requires
        forall|k: int| 0 <= k < n && k != s ==> #[trigger] f(k) == 0,
    ensures
        total(f, n) == (if 0 <= s < n {
            f(s)
        } else {
            0
        }),
{
    if 0 <= s < n {
        let h = |k: int| f(s + k);
        algebra::lemma_window(f, h, s, 1, n);
        assert(total(h, 1) == total(h, 0) + h(0));
        assert(total(h, 0) == 0);
    } else {
        algebra::lemma_zero(f, n);
    }
}

proof fn lemma_nega(g: Seq<int>, x: Seq<int>, j: int, n: nat)
    ensures
        chain::nega(g, x, j, n) == total(|u: int| g[u] * turned(x, j - u), n),
    decreases n,
{
    if n > 0 {
        lemma_nega(g, x, j, (n - 1) as nat);
        let f = |u: int| g[u] * turned(x, j - u);
        assert(total(f, n) == total(f, (n - 1) as nat) + f(n - 1));
    }
}

/// A polynomial of nine taps times another.
proof fn lemma_nine(g: Seq<int>, s: Seq<int>, x: Seq<int>, j: int)
    requires
        forall|t: int|
            0 <= t < 64 ==> (#[trigger] g[t]) == (if t < 9 {
                s[t]
            } else {
                0
            }),
    ensures
        times(g, x, j) == chain::nega(s, x, j, 9),
{
    let f = |u: int| g[u] * turned(x, j - u);
    let h = |u: int| s[u] * turned(x, j - u);
    assert forall|u: int| 0 <= u < 64 implies #[trigger] f(u) == (if 0 <= u - 0 < 9 {
        h(u - 0)
    } else {
        0
    }) by {
        let y = turned(x, j - u);
        assert(g[u] == (if u < 9 {
            s[u]
        } else {
            0
        }));
        assert(0 * y == 0);
    }
    algebra::lemma_window(f, h, 0, 9, 64);
    lemma_nega(s, x, j, 9);
    algebra::lemma_same(f, |u: int| g[u] * turned(x, j - u), 64);
    algebra::lemma_same(h, |u: int| s[u] * turned(x, j - u), 9);
}

/// A constant times a polynomial.
proof fn lemma_constant(c: int, x: Seq<int>, j: int)
    requires
        0 <= j,
    ensures
        times(constant(c), x, j) == c * x[j],
{
    let f = |u: int| constant(c)[u] * turned(x, j - u);
    assert forall|u: int| 0 <= u < 64 && u != 0 implies #[trigger] f(u) == 0 by {
        let y = turned(x, j - u);
        assert(0 * y == 0);
    }
    lemma_spot(f, 0, 64);
    algebra::lemma_same(f, |u: int| constant(c)[u] * turned(x, j - u), 64);
}

/// What carry `k` adds to the equation of diagonal `a` at place `j`.
spec fn carried(a: int, k: int, x: Seq<int>, j: int) -> int {
    (if k == a - 1 {
        x[j]
    } else {
        0
    }) - (if k == a {
        turned(x, j - 9)
    } else {
        0
    }) - (if k == 17 && (a == 0 || a == 9) {
        x[j]
    } else {
        0
    })
}

proof fn lemma_carried(b: int, d: nat, a: int, k: int, x: Seq<int>, j: int)
    requires
        0 <= j < 64,
    ensures
        times(carry_weight(b, d, a, k), x, j) == carry::weight(b, d) * carried(a, k, x, j),
{
    let w = carry::weight(b, d);
    let m = |u: int| carry_multiplier(a, k, u);
    let f = |u: int| carry_weight(b, d, a, k)[u] * turned(x, j - u);
    let g = |u: int| m(u) * turned(x, j - u);
    assert forall|u: int| 0 <= u < 64 implies #[trigger] f(u) == w * g(u) by {
        let (p, y) = (m(u), turned(x, j - u));
        assert((w * p) * y == w * (p * y)) by (nonlinear_arith);
    }
    algebra::lemma_scaled(w, g, f, 64);
    let g0 = |u: int|
        if u == 0 {
            g(u)
        } else {
            0
        };
    let g9 = |u: int|
        if u == 9 {
            g(u)
        } else {
            0
        };
    assert forall|u: int| 0 <= u < 64 implies #[trigger] g(u) == g0(u) + g9(u) by {
        let y = turned(x, j - u);
        if u != 0 && u != 9 {
            assert(0 * y == 0);
        }
    }
    algebra::lemma_sum(g0, g9, g, 64);
    lemma_spot(g0, 0, 64);
    lemma_spot(g9, 9, 64);
    let (y0, y9) = (turned(x, j - 0), turned(x, j - 9));
    assert(g(0) == m(0) * y0 && g(9) == m(9) * y9);
    assert(m(0) * y0 == (if k == a - 1 {
        x[j]
    } else {
        0
    }) - (if k == 17 && (a == 0 || a == 9) {
        x[j]
    } else {
        0
    })) by {
        assert(0 * y0 == 0 && 1 * y0 == y0 && -1 * y0 == -y0);
    }
    assert(m(9) * y9 == -(if k == a {
        y9
    } else {
        0
    })) by {
        assert(0 * y9 == 0 && -1 * y9 == -y9);
    }
    algebra::lemma_same(f, |u: int| carry_weight(b, d, a, k)[u] * turned(x, j - u), 64);
}

// ---------------------------------------------------------------------------------------------
// the three kinds of terms
// ---------------------------------------------------------------------------------------------

/// The sub-chunks a stretch reads.
proof fn lemma_stretch_element(
    val: Reading,
    setup: Setup,
    layout: Layout,
    phi: ProofPhi,
    t: Stretch,
    a: int,
    i: int,
)
    requires
        statement::stretch_sound(setup, layout, t),
        statement::grouped(layout),
        phi.holds(layout),
        keyed(setup, layout),
        0 <= a < 18,
        0 <= i < t.len,
        t.offset + t.len <= layout.groups@[t.group as int].len,
    ensures
        ({
            let e = element(
                val,
                PhiBlock::Short(statement::stretch_phi(setup, layout, phi, t, a), t.offset),
                i,
            );
            let g = layout.public@[layout.groups@[t.group as int].first + t.offset
                + i]@[t.chunk as int]@[a];
            forall|u: int|
                0 <= u < 64 ==> (#[trigger] e[u]) == (if u < 9 {
                    chunk::shorts(g@)[u]
                } else {
                    0
                })
        }),
{
    let p = statement::stretch_phi(setup, layout, phi, t, a);
    let (n, k) = (t.offset + i, 18 * t.chunk + a);
    let g = t.group as int;
    assert(k / 18 == t.chunk && k % 18 == a);
    assert(holds_entries(*p, layout, g, t.chunk as int, a)) by {
        match layout.groups@[g].kind {
            Kind::Key { limb, part } => {
                assert(holds_entries(
                    *setup.keys@[8 * limb + part]@[k],
                    layout,
                    g,
                    k / 18,
                    k % 18,
                ));
            },
            _ => {
                assert(!(layout.groups@[g].kind is Key));
                assert(statement::is_group_phi(
                    statement::buffer(phi.buffers@[g]@[k]),
                    layout.public@,
                    layout.groups@[g].first as int,
                    layout.groups@[g].len as int,
                    k / 18,
                    k % 18,
                ));
                assert forall|x: int, u: int| 0 <= x < layout.groups@[g].len && 0 <= u < 64 implies (
                #[trigger] short_element(*p, x)[u]) == (if u < 9 {
                    layout.public@[layout.groups@[g].first + x]@[t.chunk as int]@[a]@[u] as int
                } else {
                    0
                }) by {
                    if u < 9 {
                        assert(p.c@[9 * x + u] == layout.public@[layout.groups@[g].first
                            + x]@[t.chunk as int]@[a]@[u]);
                    }
                }
            },
        }
    }
    let e = element(val, PhiBlock::Short(p, t.offset), i);
    assert forall|u: int| 0 <= u < 64 implies (#[trigger] e[u]) == (if u < 9 {
        chunk::shorts(
            layout.public@[layout.groups@[g].first + t.offset + i]@[t.chunk as int]@[a]@,
        )[u]
    } else {
        0
    }) by {
        assert(short_element(*p, n)[u] == e[u]);
        assert(layout.groups@[g].first + n == layout.groups@[g].first + t.offset + i);
    }
}

/// The products of one stretch.
proof fn lemma_stretch(
    val: Reading,
    setup: Setup,
    layout: Layout,
    phi: ProofPhi,
    ci: int,
    w: Seq<Vec<Poly>>,
    t: int,
    a: int,
    j: int,
    n: nat,
)
    requires
        statement::sound(setup, layout),
        statement::grouped(layout),
        phi.holds(layout),
        keyed(setup, layout),
        0 <= ci < layout.chains@.len(),
        stretched(layout, ci, w),
        0 <= t < layout.stretches@[ci]@.len(),
        0 <= a < 18,
        0 <= j < 64,
        n <= layout.stretches@[ci]@[t].len,
    ensures
        ({
            let st = layout.stretches@[ci]@;
            let part = PhiBlock::Short(
                statement::stretch_phi(setup, layout, phi, st[t], a),
                st[t].offset,
            );
            let (p, b) = (layout.chains@[ci].products@, count(st, t as nat));
            chain::diagonal(p, layout.public@, w, a, j, b + n) == chain::diagonal(
                p,
                layout.public@,
                w,
                a,
                j,
                b,
            ) + total(
                |i: int|
                    times(
                        element(val, part, i),
                        entry(w, st[t].at.vector as int, st[t].at.off + i),
                        j,
                    ),
                n,
            )
        }),
    decreases n,
{
    let st = layout.stretches@[ci]@;
    let part = PhiBlock::Short(
        statement::stretch_phi(setup, layout, phi, st[t], a),
        st[t].offset,
    );
    let (p, b) = (layout.chains@[ci].products@, count(st, t as nat));
    if n > 0 {
        let m = (n - 1) as nat;
        lemma_stretch(val, setup, layout, phi, ci, w, t, a, j, m);
        lemma_counted(st, (t + 1) as nat, st.len());
        assert(count(st, (t + 1) as nat) == b + st[t].len);
        assert(statement::stretch_sound(setup, layout, layout.stretches@[ci]@[t]));
        assert(st[t].offset + st[t].len <= layout.groups@[st[t].group as int].len);
        lemma_stretch_element(val, setup, layout, phi, st[t], a, m as int);
        let x = p[b + m as int];
        assert(x == product_of(layout, st[t], m as int));
        assert(layout.groups@[st[t].group as int].first + layout.groups@[st[t].group as int].len
            <= layout.public@.len());
        assert(layout.public@.len() == layout.public.len());
        let g = chain::sub_chunk(layout.public@, x, a);
        let e = element(val, part, m as int);
        let y = entry(w, st[t].at.vector as int, st[t].at.off + m);
        assert(chain::poly_at(w, x.at) =~= y);
        lemma_nine(e, g, y, j);
        let f = |i: int|
            times(
                element(val, part, i),
                entry(w, st[t].at.vector as int, st[t].at.off + i),
                j,
            );
        assert(total(f, n) == total(f, m) + f(n - 1));
        assert((b + n - 1) as nat == b + m);
    }
}

proof fn lemma_counted(st: Seq<Stretch>, m: nat, n: nat)
    requires
        m <= n,
    ensures
        count(st, m) <= count(st, n),
    decreases n,
{
    if m < n {
        lemma_counted(st, m, (n - 1) as nat);
    }
}

/// The stretches are the products.
proof fn lemma_stretches(
    val: Reading,
    setup: Setup,
    layout: Layout,
    phi: ProofPhi,
    ci: int,
    w: Seq<Vec<Poly>>,
    blocks: Seq<Block>,
    parts: Seq<PhiBlock>,
    a: int,
    j: int,
    n: nat,
)
    requires
        statement::sound(setup, layout),
        statement::grouped(layout),
        phi.holds(layout),
        keyed(setup, layout),
        0 <= ci < layout.chains@.len(),
        stretched(layout, ci, w),
        statement::is_terms(setup, layout, phi, ci, a, blocks, parts),
        n <= layout.stretches@[ci]@.len(),
        0 <= a < 18,
        0 <= j < 64,
    ensures
        left_to(val, parts, blocks, w, j, n) == chain::diagonal(
            layout.chains@[ci].products@,
            layout.public@,
            w,
            a,
            j,
            count(layout.stretches@[ci]@, n),
        ),
    decreases n,
{
    let st = layout.stretches@[ci]@;
    let f = |t: int| block_value(val, parts[t], blocks[t], w, j);
    if n > 0 {
        let m = (n - 1) as nat;
        lemma_stretches(val, setup, layout, phi, ci, w, blocks, parts, a, j, m);
        lemma_stretch(val, setup, layout, phi, ci, w, m as int, a, j, st[m as int].len as nat);
        assert(total(f, n) == total(f, m) + f(n - 1));
        assert(blocks[m as int].len == st[m as int].len);
        let part = PhiBlock::Short(
            statement::stretch_phi(setup, layout, phi, st[m as int], a),
            st[m as int].offset,
        );
        assert(parts[m as int] == part);
        algebra::lemma_same(
            |i: int|
                times(
                    element(val, parts[m as int], i),
                    entry(w, blocks[m as int].idx as int, blocks[m as int].off + i),
                    j,
                ),
            |i: int|
                times(
                    element(val, part, i),
                    entry(w, st[m as int].at.vector as int, st[m as int].at.off + i),
                    j,
                ),
            st[m as int].len as nat,
        );
    }
}

/// The constant multipliers.
proof fn lemma_scaled_terms(
    val: Reading,
    setup: Setup,
    layout: Layout,
    phi: ProofPhi,
    ci: int,
    w: Seq<Vec<Poly>>,
    blocks: Seq<Block>,
    parts: Seq<PhiBlock>,
    a: int,
    j: int,
    m: nat,
)
    requires
        statement::sound(setup, layout),
        stands(val, setup),
        0 <= ci < layout.chains@.len(),
        statement::is_terms(setup, layout, phi, ci, a, blocks, parts),
        m <= layout.chains@[ci].scaled@.len(),
        0 <= a < 18,
        0 <= j < 64,
    ensures
        total(
            |k: int|
                block_value(
                    val,
                    parts[layout.stretches@[ci]@.len() + k],
                    blocks[layout.stretches@[ci]@.len() + k],
                    w,
                    j,
                ),
            m,
        ) == carry::scaled_sum(layout.chains@[ci].scaled@, w, a, j, m),
    decreases m,
{
    let c = layout.chains@[ci];
    let n = layout.stretches@[ci]@.len();
    let f = |k: int| block_value(val, parts[n + k], blocks[n + k], w, j);
    if m > 0 {
        let k = m - 1;
        lemma_scaled_terms(val, setup, layout, phi, ci, w, blocks, parts, a, j, k as nat);
        assert(total(f, m) == total(f, k as nat) + f(k));
        assert(statement::chain_sound(setup, c));
        let v = statement::factor_at(c, k, a);
        let i = statement::first_from(setup.factors@, v, 0);
        assert(statement::first_from(setup.factors@, c.scaled@[k].factor, 0)
            < setup.factors@.len());
        lemma_first(setup.factors@, v, 0);
        let part = parts[n + k];
        assert(part == PhiBlock::Polx(setup.scalars@[i], 0));
        let blk = blocks[n + k];
        let x = entry(w, blk.idx as int, blk.off as int);
        let h = |i: int| times(element(val, part, i), entry(w, blk.idx as int, blk.off + i), j);
        assert(total(h, 1) == total(h, 0) + h(0));
        assert(total(h, 0) == 0);
        algebra::lemma_same(
            h,
            |i: int| times(element(val, part, i), entry(w, blk.idx as int, blk.off + i), j),
            1,
        );
        assert(element(val, part, 0) == constant(v as int));
        lemma_constant(v as int, x, j);
        assert(chain::poly_at(w, c.scaled@[k].at) =~= x);
        let y = x[j];
        assert(0 * y == 0);
    }
}

/// The first place of a number holds it.
proof fn lemma_first(v: Seq<i64>, x: i64, i: int)
    requires
        0 <= i <= v.len(),
        statement::first_from(v, x, i) < v.len(),
    ensures
        i <= statement::first_from(v, x, i) < v.len(),
        v[statement::first_from(v, x, i)] == x,
    decreases v.len() - i,
{
    if i < v.len() && v[i] != x {
        lemma_first(v, x, i + 1);
    }
}

/// What the first `l` levels of the carries add at place `j` of diagonal `a`.
spec fn carries_to(c: chain::Carries, w: Seq<Vec<Poly>>, a: int, j: int, l: nat) -> int {
    (if a > 0 {
        carry::stored(c, w, a - 1, j, l)
    } else {
        0
    }) - (if j >= 9 {
        carry::stored(c, w, a, j - 9, l)
    } else {
        -carry::stored(c, w, a, j - 9 + 64, l)
    }) - (if a == 0 || a == 9 {
        carry::stored(c, w, 17, j, l)
    } else {
        0
    })
}

/// One level of the carries.
proof fn lemma_level(
    val: Reading,
    setup: Setup,
    layout: Layout,
    ci: int,
    w: Seq<Vec<Poly>>,
    part: PhiBlock,
    blk: Block,
    d: nat,
    a: int,
    j: int,
)
    requires
        statement::sound(setup, layout),
        stands(val, setup),
        0 <= ci < layout.chains@.len(),
        d < layout.chains@[ci].carries.at@.len(),
        0 <= a < 18,
        0 <= j < 64,
        ({
            let c = layout.chains@[ci].carries;
            &&& blk == (Block { idx: c.at@[d as int].vector, off: c.at@[d as int].off, len: 18 })
            &&& part == PhiBlock::Polx(
                setup.carries@[statement::first_from(setup.bases@, c.gadget.base, 0)]@[18 * d + a],
                0,
            )
        }),
    ensures
        ({
            let c = layout.chains@[ci].carries;
            block_value(val, part, blk, w, j) == carries_to(c, w, a, j, d + 1) - carries_to(
                c,
                w,
                a,
                j,
                d,
            )
        }),
{
    let c = layout.chains@[ci].carries;
    assert(statement::chain_sound(setup, layout.chains@[ci]));
    let i = statement::first_from(setup.bases@, c.gadget.base, 0);
    lemma_first(setup.bases@, c.gadget.base, 0);
    let b = c.gadget.base as int;
    let y = carry::weight(b, d);
    let x = |k: int| entry(w, c.at@[d as int].vector as int, c.at@[d as int].off + k);
    let f = |k: int| times(element(val, part, k), entry(w, blk.idx as int, blk.off + k), j);
    let g = |k: int| carried(a, k, x(k), j);
    assert forall|k: int| 0 <= k < 18 implies #[trigger] f(k) == y * g(k) by {
        let m = 18 * d + a;
        assert(m / 18 == d && m % 18 == a);
        assert(val(*setup.carries@[i]@[m], k) == carry_weight(
            setup.bases@[i] as int,
            (m / 18) as nat,
            m % 18,
            k,
        ));
        lemma_carried(b, d, a, k, x(k), j);
    }
    algebra::lemma_scaled(y, g, f, 18);
    let g1 = |k: int|
        if k == a - 1 {
            x(k)[j]
        } else {
            0
        };
    let g2 = |k: int|
        if k == a {
            -turned(x(k), j - 9)
        } else {
            0
        };
    let g3 = |k: int|
        if k == 17 && (a == 0 || a == 9) {
            -x(k)[j]
        } else {
            0
        };
    let g12 = |k: int| g1(k) + g2(k);
    algebra::lemma_sum(g1, g2, g12, 18);
    algebra::lemma_sum(g12, g3, g, 18);
    lemma_spot(g1, a - 1, 18);
    lemma_spot(g2, a, 18);
    lemma_spot(g3, 17, 18);
    let (u, v, z) = (total(g1, 18), total(g2, 18), total(g3, 18));
    assert(y * (u + v + z) == y * u + y * v + y * z) by (nonlinear_arith);
    let t = turned(x(a), j - 9);
    assert(y * -t == -(y * t)) by (nonlinear_arith);
    let (p, q) = (x(17)[j], x(a)[j - 9 + 64]);
    assert(y * -p == -(y * p) && y * -q == -(y * q)) by (nonlinear_arith);
    assert(y * 0 == 0);
    algebra::lemma_same(
        f,
        |k: int| times(element(val, part, k), entry(w, blk.idx as int, blk.off + k), j),
        18,
    );
}

/// The carries.
proof fn lemma_levels(
    val: Reading,
    setup: Setup,
    layout: Layout,
    phi: ProofPhi,
    ci: int,
    w: Seq<Vec<Poly>>,
    blocks: Seq<Block>,
    parts: Seq<PhiBlock>,
    a: int,
    j: int,
    l: nat,
)
    requires
        statement::sound(setup, layout),
        stands(val, setup),
        0 <= ci < layout.chains@.len(),
        statement::is_terms(setup, layout, phi, ci, a, blocks, parts),
        l <= layout.chains@[ci].carries.at@.len(),
        0 <= a < 18,
        0 <= j < 64,
    ensures
        ({
            let n = layout.stretches@[ci]@.len() + layout.chains@[ci].scaled@.len();
            total(|d: int| block_value(val, parts[n + d], blocks[n + d], w, j), l) == carries_to(
                layout.chains@[ci].carries,
                w,
                a,
                j,
                l,
            )
        }),
    decreases l,
{
    let n = layout.stretches@[ci]@.len() + layout.chains@[ci].scaled@.len();
    let f = |d: int| block_value(val, parts[n + d], blocks[n + d], w, j);
    if l > 0 {
        let d = (l - 1) as nat;
        lemma_levels(val, setup, layout, phi, ci, w, blocks, parts, a, j, d);
        assert(total(f, l) == total(f, d) + f(l - 1));
        assert(blocks[n + d as int].len == 18);
        lemma_level(val, setup, layout, ci, w, parts[n + d as int], blocks[n + d as int], d, a, j);
    }
}

/// The left side of the constraint of a diagonal is the left side of its equation.
proof fn lemma_left(
    val: Reading,
    setup: Setup,
    layout: Layout,
    phi: ProofPhi,
    ci: int,
    w: Seq<Vec<Poly>>,
    k: Constraint,
    a: int,
    j: int,
)
    requires
        statement::sound(setup, layout),
        statement::grouped(layout),
        phi.holds(layout),
        keyed(setup, layout),
        stands(val, setup),
        0 <= ci < layout.chains@.len(),
        stretched(layout, ci, w),
        statement::is_diagonal(setup, layout, phi, ci, a, k),
        0 <= a < 18,
        0 <= j < 64,
    ensures
        left(val, k, w, j) == carry::equation(
            carry::chain_diagonals(layout.chains@[ci], layout.public@, w),
            carry::stored_carries(layout.chains@[ci].carries, w),
            a,
            j,
        ),
{
    let c = layout.chains@[ci];
    let blocks = k.blocks@;
    let parts = k.phi->Blocks_0@;
    let (n, m, l) = (layout.stretches@[ci]@.len(), c.scaled@.len(), c.carries.at@.len());
    lemma_stretches(val, setup, layout, phi, ci, w, blocks, parts, a, j, n);
    lemma_scaled_terms(val, setup, layout, phi, ci, w, blocks, parts, a, j, m);
    lemma_levels(val, setup, layout, phi, ci, w, blocks, parts, a, j, l);
    let f = |t: int| block_value(val, parts[t], blocks[t], w, j);
    algebra::lemma_split(f, |k: int| block_value(val, parts[n + k], blocks[n + k], w, j), n, m);
    let nm = n + m;
    algebra::lemma_split(
        f,
        |d: int| block_value(val, parts[nm + d], blocks[nm + d], w, j),
        nm,
        l,
    );
    assert(blocks.len() == nm + l);
}

/// The right side of the constraint of a diagonal.
proof fn lemma_right(
    val: Reading,
    setup: Setup,
    layout: Layout,
    phi: ProofPhi,
    ci: int,
    k: Constraint,
    a: int,
    j: int,
)
    requires
        setup.q > 0,
        statement::is_diagonal(setup, layout, phi, ci, a, k),
        0 <= a < 18,
        0 <= j < 64,
    ensures
        right(val, k, j) == (if j < 9 {
            layout.chains@[ci].output@[9 * a + j] as int % setup.q as int
        } else {
            0
        }),
{
    assert(statement::window(layout.chains@[ci], a, setup.q as int)[j] == right(val, k, j));
}

// ---------------------------------------------------------------------------------------------
// laws
// ---------------------------------------------------------------------------------------------

/// The right sides of the 18 constraints of a chain are its whole output: each of the 162 coefficients is
/// read off one of them, reduced into `[0, q)`, at the place where `Z^(9 a)` brings it, and all
/// other places are zero.
pub proof fn output_is_read(
    val: Reading,
    s: Statement,
    setup: Setup,
    layout: Layout,
    phi: ProofPhi,
    opening: statement::Announced,
    rows: Seq<Vec<[i64; 64]>>,
    ci: int,
)
    requires
        setup.q > 0,
        statement::is_built(s, setup, layout, phi, opening, rows),
        0 <= ci < layout.chains@.len(),
    ensures
        forall|i: int|
            #![trigger layout.chains@[ci].output@[i]]
            0 <= i < 162 ==> {
                let k = s.constraints@[statement::place(ci, i / 9, layout.chains@.len() as int)];
                &&& same(right(val, k, i % 9), layout.chains@[ci].output@[i] as int, setup.q as int)
                &&& 0 <= right(val, k, i % 9) < setup.q
            },
        forall|a: int, j: int|
            0 <= a < 18 && 9 <= j < 64 ==> #[trigger] right(
                val,
                s.constraints@[statement::place(ci, a, layout.chains@.len() as int)],
                j,
            ) == 0,
{
    let n = layout.chains@.len() as int;
    let q = setup.q as int;
    assert forall|i: int| #![trigger layout.chains@[ci].output@[i]] 0 <= i < 162 implies {
        let k = s.constraints@[statement::place(ci, i / 9, n)];
        &&& same(right(val, k, i % 9), layout.chains@[ci].output@[i] as int, q)
        &&& 0 <= right(val, k, i % 9) < q
    } by {
        let (a, j) = (i / 9, i % 9);
        let k = s.constraints@[statement::place(ci, a, n)];
        assert(statement::is_diagonal(setup, layout, phi, ci, a, k));
        lemma_right(val, setup, layout, phi, ci, k, a, j);
        assert(9 * a + j == i);
        modular::lemma_reduced(layout.chains@[ci].output@[i] as int, q);
    }
    assert forall|a: int, j: int| 0 <= a < 18 && 9 <= j < 64 implies #[trigger] right(
        val,
        s.constraints@[statement::place(ci, a, n)],
        j,
    ) == 0 by {
        let k = s.constraints@[statement::place(ci, a, n)];
        assert(statement::is_diagonal(setup, layout, phi, ci, a, k));
        lemma_right(val, setup, layout, phi, ci, k, a, j);
    }
}

/// What the constraint of diagonal `a` says: it holds of a witness exactly where the residuals of that
/// diagonal vanish modulo `q`.
pub proof fn constraints_are_residuals(
    val: Reading,
    s: Statement,
    setup: Setup,
    layout: Layout,
    phi: ProofPhi,
    opening: statement::Announced,
    rows: Seq<Vec<[i64; 64]>>,
    ci: int,
    w: Seq<Vec<Poly>>,
    r: [[i128; 64]; 18],
)
    requires
        statement::sound(setup, layout),
        statement::grouped(layout),
        phi.holds(layout),
        statement::is_built(s, setup, layout, phi, opening, rows),
        keyed(setup, layout),
        stands(val, setup),
        0 <= ci < layout.chains@.len(),
        stretched(layout, ci, w),
        carry::is_residuals(layout.chains@[ci], layout.public@, w, r),
    ensures
        forall|a: int|
            0 <= a < 18 ==> (#[trigger] satisfied(
                val,
                s.constraints@[statement::place(ci, a, layout.chains@.len() as int)],
                w,
                setup.q as int,
            ) <==> forall|j: int|
                0 <= j < 64 ==> (#[trigger] r@[a]@[j]) as int % setup.q as int == 0),
{
    let q = setup.q as int;
    assert forall|a: int| 0 <= a < 18 implies (#[trigger] satisfied(
        val,
        s.constraints@[statement::place(ci, a, layout.chains@.len() as int)],
        w,
        q,
    ) <==> forall|j: int| 0 <= j < 64 ==> (#[trigger] r@[a]@[j]) as int % q == 0) by {
        let k = s.constraints@[statement::place(ci, a, layout.chains@.len() as int)];
        assert(statement::is_diagonal(setup, layout, phi, ci, a, k));
        assert forall|j: int| 0 <= j < 64 implies (same(
            #[trigger] left(val, k, w, j),
            right(val, k, j),
            q,
        ) <==> (#[trigger] r@[a]@[j]) as int % q == 0) by {
            lemma_left(val, setup, layout, phi, ci, w, k, a, j);
            lemma_right(val, setup, layout, phi, ci, k, a, j);
            let o = if j < 9 {
                layout.chains@[ci].output@[9 * a + j] as int
            } else {
                0
            };
            let (x, y) = (left(val, k, w, j), right(val, k, j));
            modular::lemma_reduced(o, q);
            lemma_small_mod(0, q as nat);
            assert(same(y, o, q));
            assert(r@[a]@[j] == x - o);
            if same(x, y, q) {
                modular::lemma_sub(x, o, o, o, q);
            }
            if (x - o) % q == 0 {
                modular::lemma_add(x - o, o, 0, o, q);
            }
        }
        if forall|j: int| 0 <= j < 64 ==> (#[trigger] r@[a]@[j]) as int % q == 0 {
            assert forall|j: int| 0 <= j < 64 implies same(
                #[trigger] left(val, k, w, j),
                right(val, k, j),
                q,
            ) by {
                assert(r@[a]@[j] as int % q == 0);
            }
        }
        if satisfied(val, k, w, q) {
            assert forall|j: int| 0 <= j < 64 implies (#[trigger] r@[a]@[j]) as int % q == 0 by {
                assert(same(left(val, k, w, j), right(val, k, j), q));
            }
        }
    }
}

/// What the 18 constraints of a chain prove: where they all hold of a witness whose carries keep to
/// their places, the left side of the chain is worth its output modulo `q`, at every one of the 162
/// coefficients.
pub proof fn constraints_prove_identity(
    val: Reading,
    s: Statement,
    setup: Setup,
    layout: Layout,
    phi: ProofPhi,
    opening: statement::Announced,
    rows: Seq<Vec<[i64; 64]>>,
    ci: int,
    w: Seq<Vec<Poly>>,
)
    requires
        statement::sound(setup, layout),
        statement::grouped(layout),
        phi.holds(layout),
        statement::is_built(s, setup, layout, phi, opening, rows),
        keyed(setup, layout),
        stands(val, setup),
        0 <= ci < layout.chains@.len(),
        stretched(layout, ci, w),
        carry::bounded(carry::chain_diagonals(layout.chains@[ci], layout.public@, w)),
        worth::carries_kept(carry::stored_carries(layout.chains@[ci].carries, w)),
        forall|a: int|
            0 <= a < 18 ==> #[trigger] satisfied(
                val,
                s.constraints@[statement::place(ci, a, layout.chains@.len() as int)],
                w,
                setup.q as int,
            ),
    ensures
        forall|i: int|
            0 <= i < 162 ==> same(
                #[trigger] carry::value_of(
                    carry::chain_diagonals(layout.chains@[ci], layout.public@, w),
                )[i],
                layout.chains@[ci].output@[i] as int,
                setup.q as int,
            ),
{
    let (n, q) = (layout.chains@.len() as int, setup.q as int);
    let c = layout.chains@[ci];
    let d = carry::chain_diagonals(c, layout.public@, w);
    let e = carry::stored_carries(c.carries, w);
    let z = chunk::ints(c.output@);
    assert forall|a: int, j: int| 0 <= a < 18 && 0 <= j < 64 implies same(
        #[trigger] carry::equation(d, e, a, j),
        if j < 9 {
            z[9 * a + j]
        } else {
            0
        },
        q,
    ) by {
        let k = s.constraints@[statement::place(ci, a, n)];
        assert(statement::is_diagonal(setup, layout, phi, ci, a, k));
        assert(satisfied(val, k, w, q));
        assert(same(left(val, k, w, j), right(val, k, j), q));
        lemma_left(val, setup, layout, phi, ci, w, k, a, j);
        lemma_right(val, setup, layout, phi, ci, k, a, j);
        if j < 9 {
            modular::lemma_reduced(c.output@[9 * a + j] as int, q);
        }
    }
    worth::equations_suffice_modulo(d, e, z, q);
}

/// The constraints ask for nothing more: where the digits store the honest carries and the left side of
/// the chain is worth its output modulo `q`, the 18 constraints hold.
pub proof fn identity_meets_constraints(
    val: Reading,
    s: Statement,
    setup: Setup,
    layout: Layout,
    phi: ProofPhi,
    opening: statement::Announced,
    rows: Seq<Vec<[i64; 64]>>,
    ci: int,
    w: Seq<Vec<Poly>>,
)
    requires
        statement::sound(setup, layout),
        statement::grouped(layout),
        phi.holds(layout),
        statement::is_built(s, setup, layout, phi, opening, rows),
        keyed(setup, layout),
        stands(val, setup),
        0 <= ci < layout.chains@.len(),
        stretched(layout, ci, w),
        carry::bounded(carry::chain_diagonals(layout.chains@[ci], layout.public@, w)),
        forall|a: int, j: int|
            0 <= a < 18 && 0 <= j < 64 ==> (#[trigger] carry::stored(
                layout.chains@[ci].carries,
                w,
                a,
                j,
                layout.chains@[ci].carries.at@.len(),
            )) == carry::carry(
                carry::chain_diagonals(layout.chains@[ci], layout.public@, w),
                a as nat,
                j,
            ),
        forall|i: int|
            0 <= i < 162 ==> same(
                #[trigger] carry::value_of(
                    carry::chain_diagonals(layout.chains@[ci], layout.public@, w),
                )[i],
                layout.chains@[ci].output@[i] as int,
                setup.q as int,
            ),
    ensures
        forall|a: int|
            0 <= a < 18 ==> #[trigger] satisfied(
                val,
                s.constraints@[statement::place(ci, a, layout.chains@.len() as int)],
                w,
                setup.q as int,
            ),
{
    let (n, q) = (layout.chains@.len() as int, setup.q as int);
    let c = layout.chains@[ci];
    let d = carry::chain_diagonals(c, layout.public@, w);
    let e = carry::stored_carries(c.carries, w);
    assert forall|a: int| 0 <= a < 18 implies #[trigger] satisfied(
        val,
        s.constraints@[statement::place(ci, a, n)],
        w,
        q,
    ) by {
        let k = s.constraints@[statement::place(ci, a, n)];
        assert(statement::is_diagonal(setup, layout, phi, ci, a, k));
        assert forall|j: int| 0 <= j < 64 implies same(
            #[trigger] left(val, k, w, j),
            right(val, k, j),
            q,
        ) by {
            lemma_left(val, setup, layout, phi, ci, w, k, a, j);
            lemma_right(val, setup, layout, phi, ci, k, a, j);
            carry::equations_hold(d, a, j);
            let f = carry::honest(d);
            assert forall|b: int, i: int| 0 <= b < 18 && 0 <= i < 64 implies #[trigger] e(b, i)
                == f(b, i) by {
                assert(carry::stored(c.carries, w, b, i, c.carries.at@.len()) == carry::carry(
                    d,
                    b as nat,
                    i,
                ));
            }
            assert(carry::equation(d, e, a, j) == carry::equation(d, f, a, j));
            if j < 9 {
                modular::lemma_reduced(c.output@[9 * a + j] as int, q);
                assert(same(carry::value_of(d)[9 * a + j], c.output@[9 * a + j] as int, q));
            }
        }
    }
}

/// The three commitments of a round: the residues to `T_Y` under the first key, the left expansion to
/// `T_u` under the second, the rest to `T_R` under the third, each over whole vectors in their order.
pub proof fn commitments_are_announced(
    s: Statement,
    setup: Setup,
    layout: Layout,
    phi: ProofPhi,
    opening: statement::Announced,
    rows: Seq<Vec<[i64; 64]>>,
)
    requires
        statement::is_built(s, setup, layout, phi, opening, rows),
    ensures
        ({
            let n = 18 * layout.chains@.len() as int;
            let (y, u, r) = (s.constraints@[n], s.constraints@[n + 1], s.constraints@[n + 2]);
            &&& y.b == Some(BSource::Polx(opening.t_y)) && u.b == Some(BSource::Polx(opening.t_u))
                && r.b == Some(BSource::Polx(opening.t_r))
            &&& y.phi == PhiSource::Polx(setup.key_y.buf, 0) && u.phi == PhiSource::Polx(
                setup.key_u.buf,
                0,
            ) && r.phi == PhiSource::Polx(setup.key_r.buf, 0)
            &&& y.deg == setup.key_y.rank && u.deg == setup.key_u.rank && r.deg == setup.key_r.rank
            &&& y.blocks@.len() == setup.residues@.len()
            &&& forall|t: int|
                0 <= t < y.blocks@.len() ==> covers(
                    #[trigger] y.blocks@[t],
                    setup.residues@[t],
                    setup.shape.ranks@,
                )
            &&& u.blocks@.len() == 1
            &&& covers(u.blocks@[0], setup.left_expansion, setup.shape.ranks@)
            &&& r.blocks@.len() == setup.rest@.len()
            &&& forall|t: int|
                0 <= t < r.blocks@.len() ==> covers(
                    #[trigger] r.blocks@[t],
                    setup.rest@[t],
                    setup.shape.ranks@,
                )
        }),
{
}

/// The block is the whole of vector `i`.
pub open spec fn covers(b: Block, i: usize, ranks: Seq<usize>) -> bool {
    b.idx == i && b.off == 0 && b.len == ranks[i as int]
}

} // verus!
