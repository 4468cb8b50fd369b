//! The statement of a round is a function of public data: whoever builds it from the same setup, the
//! same layout and the same announced values builds the same vectors and the same constraints.
use super::masks;
use super::statement;
use super::statement::{
    buffer, is_commitment, is_diagonal, is_group_phi, is_mask_constraint, is_right_hand, is_terms,
    place, sound, stretch_phi, stretch_sound, whole, Announced, Layout, ProofPhi, RankedKey, Setup,
    Stretch,
};
use crate::labrador::binding::{
    same_b, same_constraint, same_part, same_phi, same_statement, same_vector, same_wide,
};
use crate::labrador::{BSource, Block, Constraint, PhiBlock, PolxBuf, ShortPhi, Statement};
use std::sync::Arc;
use vstd::arithmetic::div_mod::*;
use vstd::prelude::*;

verus! {

/// Buffers of one group hold the same.
proof fn lemma_same_group(p: ShortPhi, r: ShortPhi, layout: Layout, g: int, b: int, a: int)
    requires
        is_group_phi(
            p,
            layout.public@,
            layout.groups@[g].first as int,
            layout.groups@[g].len as int,
            b,
            a,
        ),
        is_group_phi(
            r,
            layout.public@,
            layout.groups@[g].first as int,
            layout.groups@[g].len as int,
            b,
            a,
        ),
    ensures
        p.off == r.off,
        p.wid == r.wid,
        p.c@ == r.c@,
{
    assert forall|k: int| 0 <= k < p.c@.len() implies (#[trigger] p.c@[k]) == r.c@[k] by {
        let (i, u) = (k / 9, k % 9);
        assert(k == 9 * i + u);
        assert(p.c@[9 * i + u] == r.c@[9 * i + u]);
    }
    assert(p.c@ =~= r.c@);
}

/// The buffers of a stretch hold the same.
proof fn lemma_same_stretch(
    setup: Setup,
    layout: Layout,
    f: ProofPhi,
    g: ProofPhi,
    t: Stretch,
    a: int,
)
    requires
        stretch_sound(setup, layout, t),
        f.holds(layout),
        g.holds(layout),
        0 <= a < 18,
    ensures
        ({
            let (p, r) = (
                buffer(stretch_phi(setup, layout, f, t, a)),
                buffer(stretch_phi(setup, layout, g, t, a)),
            );
            p.off == r.off && p.wid == r.wid && p.c@ == r.c@
        }),
{
    let k = t.group as int;
    if !(layout.groups@[k].kind is Key) {
        let at = 18 * t.chunk + a;
        assert(at / 18 == t.chunk && at % 18 == a);
        let (p, r) = (buffer(f.buffers@[k]@[at]), buffer(g.buffers@[k]@[at]));
        lemma_same_group(p, r, layout, k, t.chunk as int, a);
    }
}

proof fn lemma_same_terms(
    setup: Setup,
    layout: Layout,
    f: ProofPhi,
    g: ProofPhi,
    ci: int,
    a: int,
    b1: Seq<Block>,
    p1: Seq<PhiBlock>,
    b2: Seq<Block>,
    p2: Seq<PhiBlock>,
    deg: nat,
)
    requires
        sound(setup, layout),
        f.holds(layout),
        g.holds(layout),
        0 <= ci < layout.chains@.len(),
        0 <= a < 18,
        is_terms(setup, layout, f, ci, a, b1, p1),
        is_terms(setup, layout, g, ci, a, b2, p2),
    ensures
        b1 == b2,
        p1.len() == p2.len() == b1.len(),
        forall|j: int| 0 <= j < p1.len() ==> #[trigger] same_part(p1[j], p2[j], b1[j], deg),
{
    let st = layout.stretches@[ci]@;
    assert(b1 =~= b2);
    assert forall|j: int| 0 <= j < p1.len() implies #[trigger] same_part(
        p1[j],
        p2[j],
        b1[j],
        deg,
    ) by {
        if j < st.len() {
            let t = st[j];
            assert(stretch_sound(setup, layout, layout.stretches@[ci]@[j]));
            lemma_same_stretch(setup, layout, f, g, t, a);
            let (x, y) = (
                buffer(stretch_phi(setup, layout, f, t, a)),
                buffer(stretch_phi(setup, layout, g, t, a)),
            );
            assert(x.c@ == y.c@);
            assert(p1[j] == PhiBlock::Short(stretch_phi(setup, layout, f, t, a), t.offset));
            assert(p2[j] == PhiBlock::Short(stretch_phi(setup, layout, g, t, a), t.offset));
        } else {
            assert(p1[j] == p2[j]);
        }
    }
}

proof fn lemma_same_right(b: Option<BSource>, e: Option<BSource>, w: Seq<int>)
    requires
        w.len() == 64,
        is_right_hand(b, w),
        is_right_hand(e, w),
    ensures
        same_b(b, e),
{
    match (b, e) {
        (Some(BSource::Int64(v)), Some(BSource::Int64(u))) => {
            assert forall|i: int, t: int| 0 <= i < v@.len() && 0 <= t < 64 implies (
            #[trigger] v@[i]@[t]) == u@[i]@[t] by {
                assert(v@[0]@[t] == w[t]);
                assert(u@[0]@[t] == w[t]);
            }
        },
        _ => {},
    }
}

/// The constraints of one diagonal.
proof fn lemma_same_diagonal(
    setup: Setup,
    layout: Layout,
    f: ProofPhi,
    g: ProofPhi,
    ci: int,
    a: int,
    c: Constraint,
    d: Constraint,
)
    requires
        sound(setup, layout),
        f.holds(layout),
        g.holds(layout),
        0 <= ci < layout.chains@.len(),
        0 <= a < 18,
        is_diagonal(setup, layout, f, ci, a, c),
        is_diagonal(setup, layout, g, ci, a, d),
    ensures
        same_constraint(c, d),
{
    let (p, r) = (c.phi->Blocks_0@, d.phi->Blocks_0@);
    lemma_same_terms(setup, layout, f, g, ci, a, c.blocks@, p, d.blocks@, r, 1);
    lemma_same_right(c.b, d.b, statement::window(layout.chains@[ci], a, setup.q as int));
    assert(same_phi(c, d));
}

proof fn lemma_same_whole(ranks: Seq<usize>, group: Seq<usize>, b: Seq<Block>, e: Seq<Block>)
    requires
        whole(ranks, group, b),
        whole(ranks, group, e),
    ensures
        b == e,
{
    assert(b =~= e);
}

proof fn lemma_same_commitment(
    ranks: Seq<usize>,
    key: RankedKey,
    group: Seq<usize>,
    t: Arc<PolxBuf>,
    c: Constraint,
    d: Constraint,
)
    requires
        is_commitment(ranks, key, group, t, c),
        is_commitment(ranks, key, group, t, d),
    ensures
        same_constraint(c, d),
{
    lemma_same_whole(ranks, group, c.blocks@, d.blocks@);
}

proof fn lemma_same_mask(
    ranks: Seq<usize>,
    row: Seq<[i64; 64]>,
    other: Seq<[i64; 64]>,
    c: Constraint,
    d: Constraint,
)
    requires
        is_mask_constraint(ranks, row, c),
        is_mask_constraint(ranks, other, d),
        same_wide(row, other),
    ensures
        same_constraint(c, d),
{
    lemma_same_whole(ranks, Seq::new(ranks.len(), |i: int| i as usize), c.blocks@, d.blocks@);
}

/// Every constraint of the chains is that of a diagonal.
proof fn lemma_placed(i: int, n: int) -> (r: (int, int))
    requires
        0 <= i < 18 * n,
    ensures
        0 <= r.0 < n,
        0 <= r.1 < 18,
        place(r.0, r.1, n) == i,
{
    let f = i / 72;
    let rest = i % 72;
    let len = if n - 4 * f < 4 {
        n - 4 * f
    } else {
        4
    };
    assert(4 * f < n);
    assert(0 <= rest < 18 * len);
    let (a, j) = (rest / len, rest % len);
    lemma_fundamental_div_mod(rest, len);
    assert(0 <= a < 18) by (nonlinear_arith)
        requires
            rest == len * a + j,
            0 <= rest < 18 * len,
            0 <= j < len,
    ;
    statement::lemma_family(f, j, a, n);
    assert(a * len == len * a) by (nonlinear_arith);
    (4 * f + j, a)
}

/// What is built of the same public data is the same.
pub proof fn built_unique(
    s: Statement,
    t: Statement,
    setup: Setup,
    layout: Layout,
    f: ProofPhi,
    g: ProofPhi,
    opening: Announced,
    rows: Seq<Vec<[i64; 64]>>,
    others: Seq<Vec<[i64; 64]>>,
)
    requires
        sound(setup, layout),
        f.holds(layout),
        g.holds(layout),
        statement::is_built(s, setup, layout, f, opening, rows),
        statement::is_built(t, setup, layout, g, opening, others),
        rows.len() == others.len(),
        forall|h: int| 0 <= h < rows.len() ==> same_wide((#[trigger] rows[h])@, others[h]@),
    ensures
        same_statement(s, t),
{
    let (m, ranks) = (layout.chains@.len() as int, setup.shape.ranks@);
    let n = 18 * m;
    let (c, d) = (s.constraints@, t.constraints@);
    assert forall|i: int| 0 <= i < s.vectors@.len() implies #[trigger] same_vector(
        s.vectors@[i],
        t.vectors@[i],
    ) by {
        assert(s.vectors@[i] == t.vectors@[i]);
    }
    assert forall|i: int| 0 <= i < c.len() implies #[trigger] same_constraint(c[i], d[i]) by {
        if i < n {
            let (ci, a) = lemma_placed(i, m);
            assert(is_diagonal(setup, layout, f, ci, a, c[place(ci, a, m)]));
            assert(is_diagonal(setup, layout, g, ci, a, d[place(ci, a, m)]));
            lemma_same_diagonal(setup, layout, f, g, ci, a, c[i], d[i]);
        } else if i == n {
            lemma_same_commitment(ranks, setup.key_y, setup.residues@, opening.t_y, c[i], d[i]);
        } else if i == n + 1 {
            lemma_same_commitment(
                ranks,
                setup.key_u,
                seq![setup.left_expansion],
                opening.t_u,
                c[i],
                d[i],
            );
        } else if i == n + 2 {
            lemma_same_commitment(ranks, setup.key_r, setup.rest@, opening.t_r, c[i], d[i]);
        } else {
            let h = i - n - 3;
            assert(is_mask_constraint(ranks, rows[h]@, c[i]));
            assert(is_mask_constraint(ranks, others[h]@, d[i]));
            assert(same_wide(rows[h]@, others[h]@));
            lemma_same_mask(ranks, rows[h]@, others[h]@, c[i], d[i]);
        }
    }
}

/// Rows of masks read from the same bytes are the same.
pub proof fn lemma_same_row(
    row: Seq<[i64; 64]>,
    other: Seq<[i64; 64]>,
    b: Seq<u8>,
    q: int,
    z: Seq<usize>,
)
    requires
        masks::is_row(row, b, q, z),
        masks::is_row(other, b, q, z),
    ensures
        same_wide(row, other),
{
    assert forall|i: int, t: int| 0 <= i < row.len() && 0 <= t < 64 implies (#[trigger] row[i]@[t])
        == other[i]@[t] by {
        let at = masks::zero_count(z, i as nat) as int;
        assert(masks::is_mask(row[i]@, b, q, at, z[i] as int));
        assert(masks::is_mask(other[i]@, b, q, at, z[i] as int));
        assert(row[i]@[t] == masks::mask(b, q, at, z[i] as int, t));
        assert(other[i]@[t] == masks::mask(b, q, at, z[i] as int, t));
    }
}

} // verus!
