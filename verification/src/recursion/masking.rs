//! What the mask constraints of a statement find.
use super::algebra;
use super::algebra::total;
use super::masks;
use super::masks::Supports;
use super::meaning;
use super::statement;
use super::statement::{Layout, ProofPhi, Setup};
use super::worth;
use super::Poly;
use crate::labrador::{Block, Constraint, PhiSource, Statement};
use crate::modular::same;
use vstd::prelude::*;

verus! {

/// The polynomials of the first `i` vectors.
pub open spec fn polynomials(ranks: Seq<usize>, i: nat) -> nat
    decreases i,
{
    if i == 0 {
        0
    } else {
        polynomials(ranks, (i - 1) as nat) + ranks[i - 1] as nat
    }
}

/// Place `c` of polynomial `p` of vector `i` is claimed to be zero: the polynomial is not used, or the
/// place is past the support of its vector.
pub open spec fn claimed(shape: Supports, i: int, p: int, c: int) -> bool {
    p >= shape.used@[i] || c >= shape.supports@[i]
}

/// The number of the scalar of a place.
pub open spec fn slot(shape: Supports, i: int, p: int, c: int) -> int {
    masks::zero_count(
        shape.starts(shape.ranks@.len()),
        polynomials(shape.ranks@, i as nat) + p as nat,
    ) + c - shape.zeros(i, p)
}

/// Wide polynomial `i` as integers.
pub open spec fn wide(v: Seq<[i64; 64]>, i: int) -> Seq<int> {
    Seq::new(64, |c: int| v[i]@[c] as int)
}

/// The elements of the blocks before block `t`.
pub open spec fn before(blocks: Seq<Block>, t: nat) -> int {
    total(|k: int| blocks[k].len as int, t)
}

/// The constant coefficient of the left side of a constraint with wide coefficients.
pub open spec fn constant_left(k: Constraint, w: Seq<Vec<Poly>>) -> int {
    match k.phi {
        PhiSource::Int64(v) => total(
            |t: int|
                total(
                    |p: int|
                        meaning::times(
                            wide(v@, before(k.blocks@, t as nat) + p),
                            meaning::entry(
                                w,
                                k.blocks@[t].idx as int,
                                k.blocks@[t].off + p,
                            ),
                            0,
                        ),
                    k.blocks@[t].len as nat,
                ),
            k.blocks@.len(),
        ),
        _ => 0,
    }
}

/// What the scalars `b` find in polynomial `p` of vector `i`.
pub open spec fn found_in(shape: Supports, b: Seq<u8>, q: int, w: Seq<Vec<Poly>>, i: int, p: int) -> int {
    total(
        |c: int|
            if claimed(shape, i, p, c) {
                masks::rho(b, slot(shape, i, p, c), q) * w[i]@[p]@[c] as int
            } else {
                0
            },
        64,
    )
}

/// What they find in all vectors.
pub open spec fn found(shape: Supports, b: Seq<u8>, q: int, w: Seq<Vec<Poly>>) -> int {
    total(
        |i: int| total(|p: int| found_in(shape, b, q, w, i, p), shape.ranks@[i] as nat),
        shape.ranks@.len(),
    )
}

// ---------------------------------------------------------------------------------------------
// places
// ---------------------------------------------------------------------------------------------

proof fn lemma_starts(shape: Supports, n: nat, i: int, p: int)
    requires
        n <= shape.ranks@.len(),
        0 <= i < n,
        0 <= p < shape.ranks@[i],
    ensures
        shape.starts(n).len() == polynomials(shape.ranks@, n),
        polynomials(shape.ranks@, i as nat) + p < polynomials(shape.ranks@, n),
        shape.starts(n)[polynomials(shape.ranks@, i as nat) + p] == shape.zeros(i, p),
    decreases n,
{
    lemma_starts_len(shape, n);
    lemma_starts_len(shape, (n - 1) as nat);
    if i < n - 1 {
        lemma_starts(shape, (n - 1) as nat, i, p);
    }
}

proof fn lemma_starts_len(shape: Supports, n: nat)
    requires
        n <= shape.ranks@.len(),
    ensures
        shape.starts(n).len() == polynomials(shape.ranks@, n),
    decreases n,
{
    if n > 0 {
        lemma_starts_len(shape, (n - 1) as nat);
    }
}

proof fn lemma_polynomials(ranks: Seq<usize>, i: nat, j: nat)
    requires
        i <= j,
    ensures
        polynomials(ranks, i) <= polynomials(ranks, j),
    decreases j,
{
    if i < j {
        lemma_polynomials(ranks, i, (j - 1) as nat);
    }
}

proof fn lemma_counted(z: Seq<usize>, k: nat, n: nat)
    requires
        k <= n <= z.len(),
        forall|k: int| 0 <= k < z.len() ==> (#[trigger] z[k]) <= 64,
    ensures
        masks::zero_count(z, k) <= masks::zero_count(z, n),
    decreases n,
{
    if k < n {
        lemma_counted(z, k, (n - 1) as nat);
    }
}

proof fn lemma_small(shape: Supports, n: nat)
    requires
        shape.wf(),
        n <= shape.ranks@.len(),
    ensures
        forall|k: int| 0 <= k < shape.starts(n).len() ==> (#[trigger] shape.starts(n)[k]) <= 64,
    decreases n,
{
    if n > 0 {
        lemma_small(shape, (n - 1) as nat);
        let a = shape.starts((n - 1) as nat);
        assert forall|k: int| 0 <= k < shape.starts(n).len() implies (#[trigger] shape.starts(n)[k])
            <= 64 by {
            if k >= a.len() {
                assert(shape.starts(n)[k] == shape.zeros(n - 1, k - a.len()));
                assert(shape.supports@[n - 1] <= 64);
            } else {
                assert(shape.starts(n)[k] == a[k]);
            }
        }
    }
}

/// Every place that is claimed to be zero has a scalar of its own among those that are derived, and no two
/// places share one.
pub proof fn slots_distinct(shape: Supports, i: int, p: int, c: int, j: int, r: int, d: int)
    requires
        shape.wf(),
        0 <= i < shape.ranks@.len(),
        0 <= p < shape.ranks@[i],
        0 <= c < 64,
        claimed(shape, i, p, c),
        0 <= j < shape.ranks@.len(),
        0 <= r < shape.ranks@[j],
        0 <= d < 64,
        claimed(shape, j, r, d),
    ensures
        0 <= slot(shape, i, p, c) < masks::zero_count(
            shape.starts(shape.ranks@.len()),
            shape.starts(shape.ranks@.len()).len(),
        ),
        slot(shape, i, p, c) == slot(shape, j, r, d) ==> i == j && p == r && c == d,
{
    let n = shape.ranks@.len();
    let z = shape.starts(n);
    lemma_small(shape, n);
    lemma_starts(shape, n, i, p);
    lemma_starts(shape, n, j, r);
    let (a, b) = (
        (polynomials(shape.ranks@, i as nat) + p) as nat,
        (polynomials(shape.ranks@, j as nat) + r) as nat,
    );
    assert(shape.supports@[i] <= 64 && shape.supports@[j] <= 64);
    lemma_counted(z, a + 1, z.len());
    lemma_counted(z, b + 1, z.len());
    if a < b {
        lemma_counted(z, a + 1, b);
    } else if b < a {
        lemma_counted(z, b + 1, a);
    } else if i < j {
        lemma_polynomials(shape.ranks@, (i + 1) as nat, j as nat);
    } else if j < i {
        lemma_polynomials(shape.ranks@, (j + 1) as nat, i as nat);
    }
}

// ---------------------------------------------------------------------------------------------
// sums
// ---------------------------------------------------------------------------------------------

/// A sum from the other end.
proof fn lemma_reversed(f: spec_fn(int) -> int, g: spec_fn(int) -> int, n: nat)
    requires
        forall|k: int| 0 <= k < n ==> #[trigger] g(k) == f(n - 1 - k),
    ensures
        total(g, n) == total(f, n),
    decreases n,
{
    if n > 0 {
        let m = (n - 1) as nat;
        let h = |k: int| f(n - 2 - k);
        let t = |k: int| g(1 + k);
        assert forall|k: int| 0 <= k < m implies #[trigger] t(k) == h(k) by {
            assert(g(1 + k) == f(n - 1 - (1 + k)));
        }
        algebra::lemma_split(g, t, 1, m);
        algebra::lemma_same(t, h, m);
        lemma_reversed(f, h, m);
        assert(total(g, 1) == total(g, 0) + g(0));
        assert(g(0) == f(n - 1));
        assert(total(f, n) == total(f, m) + f(n - 1));
    }
}

proof fn lemma_constant_term(e: Seq<i64>, x: Seq<int>, n: nat)
    requires
        n >= 1,
    ensures
        masks::constant_term(e, x, n) == e[0] * x[0] + total(
            |k: int| -(e[63 - k] * x[k + 1]),
            (n - 1) as nat,
        ),
    decreases n,
{
    let f = |k: int| -(e[63 - k] * x[k + 1]);
    if n > 1 {
        lemma_constant_term(e, x, (n - 1) as nat);
        assert(total(f, (n - 1) as nat) == total(f, (n - 2) as nat) + f(n - 2));
        assert(63 - (n - 2) == 64 - (n - 1));
    } else {
        assert(masks::constant_term(e, x, 0) == 0);
        assert(total(f, 0) == 0);
    }
}

/// The constant coefficient of a product.
proof fn lemma_constant(e: Seq<i64>, x: Seq<int>)
    requires
        e.len() == 64,
        x.len() == 64,
    ensures
        meaning::times(Seq::new(64, |c: int| e[c] as int), x, 0) == masks::constant_term(e, x, 64),
{
    let g = Seq::new(64, |c: int| e[c] as int);
    let f = |u: int| g[u] * meaning::turned(x, 0 - u);
    let t = |k: int| f(1 + k);
    algebra::lemma_split(f, t, 1, 63);
    assert(total(f, 1) == total(f, 0) + f(0));
    let h = |k: int| -(e[63 - k] * x[k + 1]);
    assert forall|k: int| 0 <= k < 63 implies #[trigger] t(k) == h(63 - 1 - k) by {
        let (a, b) = (g[1 + k], x[63 - k]);
        assert(meaning::turned(x, 0 - (1 + k)) == -b);
        assert(a * -b == -(a * b)) by (nonlinear_arith);
    }
    lemma_reversed(h, t, 63);
    lemma_constant_term(e, x, 64);
    algebra::lemma_same(h, |k: int| -(e[63 - k] * x[k + 1]), 63);
    algebra::lemma_same(f, |u: int| g[u] * meaning::turned(x, 0 - u), 64);
}

proof fn lemma_masked(b: Seq<u8>, q: int, t: int, z: int, x: Seq<int>, n: nat)
    ensures
        masks::masked_sum(b, q, t, z, x, n) == total(
            |c: int|
                if c >= z {
                    masks::rho(b, t + (c - z), q) * x[c]
                } else {
                    0
                },
            n,
        ),
    decreases n,
{
    if n > 0 {
        lemma_masked(b, q, t, z, x, (n - 1) as nat);
        let f = |c: int|
            if c >= z {
                masks::rho(b, t + (c - z), q) * x[c]
            } else {
                0
            };
        assert(total(f, n) == total(f, (n - 1) as nat) + f(n - 1));
    }
}

/// One polynomial of the witness against its mask.
proof fn lemma_found_in(
    shape: Supports,
    row: Seq<[i64; 64]>,
    b: Seq<u8>,
    q: int,
    w: Seq<Vec<Poly>>,
    i: int,
    p: int,
)
    requires
        q > 0,
        shape.wf(),
        masks::is_row(row, b, q, shape.starts(shape.ranks@.len())),
        0 <= i < shape.ranks@.len(),
        0 <= p < shape.ranks@[i],
    ensures
        same(
            meaning::times(
                wide(row, polynomials(shape.ranks@, i as nat) + p),
                meaning::entry(w, i, p),
                0,
            ),
            found_in(shape, b, q, w, i, p),
            q,
        ),
{
    let n = shape.ranks@.len();
    let z = shape.starts(n);
    lemma_starts(shape, n, i, p);
    let k = (polynomials(shape.ranks@, i as nat) + p) as int;
    let e = row[k]@;
    let x = meaning::entry(w, i, p);
    let t = masks::zero_count(z, k as nat) as int;
    assert(shape.supports@[i] <= 64);
    assert(masks::is_mask(row[k]@, b, q, t, z[k] as int));
    masks::mask_tests_zeros(e, b, q, t, z[k] as int, x, 64);
    lemma_constant(e, x);
    assert(wide(row, k) =~= Seq::new(64, |c: int| e[c] as int));
    lemma_masked(b, q, t, z[k] as int, x, 64);
    algebra::lemma_same(
        |c: int|
            if c >= z[k] as int {
                masks::rho(b, t + (c - z[k] as int), q) * x[c]
            } else {
                0
            },
        |c: int|
            if claimed(shape, i, p, c) {
                masks::rho(b, slot(shape, i, p, c), q) * w[i]@[p]@[c] as int
            } else {
                0
            },
        64,
    );
}

proof fn lemma_before(ranks: Seq<usize>, blocks: Seq<Block>, t: nat)
    requires
        t <= blocks.len(),
        statement::whole(ranks, Seq::new(ranks.len(), |i: int| i as usize), blocks),
        ranks.len() <= usize::MAX,
    ensures
        before(blocks, t) == polynomials(ranks, t),
    decreases t,
{
    let f = |k: int| blocks[k].len as int;
    if t > 0 {
        lemma_before(ranks, blocks, (t - 1) as nat);
        assert(total(f, t) == total(f, (t - 1) as nat) + f(t - 1));
        assert(blocks[t - 1].len == ranks[t - 1]);
    }
}

/// What a mask constraint says: the constant coefficient of its left side is the sum of the scalars
/// against all places that are claimed to be zero, modulo `q`.
pub proof fn masks_find(
    s: Statement,
    setup: Setup,
    layout: Layout,
    phi: ProofPhi,
    opening: statement::Announced,
    rows: Seq<Vec<[i64; 64]>>,
    h: int,
    b: Seq<u8>,
    w: Seq<Vec<Poly>>,
)
    requires
        setup.q > 0,
        setup.shape.wf(),
        statement::is_built(s, setup, layout, phi, opening, rows),
        0 <= h < rows.len(),
        masks::is_row(
            rows[h]@,
            b,
            setup.q as int,
            setup.shape.starts(setup.shape.ranks@.len()),
        ),
    ensures
        ({
            let k = s.constraints@[18 * layout.chains@.len() + 3 + h];
            &&& k.deg == 0
            &&& k.b is None
            &&& same(
                constant_left(k, w),
                found(setup.shape, b, setup.q as int, w),
                setup.q as int,
            )
        }),
{
    let shape = setup.shape;
    let q = setup.q as int;
    let r = shape.ranks@;
    let k = s.constraints@[18 * layout.chains@.len() + 3 + h];
    assert(r.len() == shape.ranks.len());
    assert(statement::is_mask_constraint(r, rows[h]@, k));
    let v = k.phi->Int64_0@;
    let f = |t: int|
        total(
            |p: int|
                meaning::times(
                    wide(v, before(k.blocks@, t as nat) + p),
                    meaning::entry(w, k.blocks@[t].idx as int, k.blocks@[t].off + p),
                    0,
                ),
            k.blocks@[t].len as nat,
        );
    let g = |i: int| total(|p: int| found_in(shape, b, q, w, i, p), r[i] as nat);
    assert forall|t: int| 0 <= t < r.len() implies same(#[trigger] f(t), g(t), q) by {
        lemma_before(r, k.blocks@, t as nat);
        assert(k.blocks@[t] == (Block { idx: t as usize, off: 0, len: r[t] }));
        let x = |p: int|
            meaning::times(
                wide(v, before(k.blocks@, t as nat) + p),
                meaning::entry(w, k.blocks@[t].idx as int, k.blocks@[t].off + p),
                0,
            );
        let y = |p: int| found_in(shape, b, q, w, t, p);
        assert forall|p: int| 0 <= p < r[t] implies same(#[trigger] x(p), y(p), q) by {
            lemma_found_in(shape, v, b, q, w, t, p);
        }
        worth::lemma_total_modulo(x, y, r[t] as nat, q);
        algebra::lemma_same(
            x,
            |p: int|
                meaning::times(
                    wide(v, before(k.blocks@, t as nat) + p),
                    meaning::entry(w, k.blocks@[t].idx as int, k.blocks@[t].off + p),
                    0,
                ),
            r[t] as nat,
        );
        algebra::lemma_same(y, |p: int| found_in(shape, b, q, w, t, p), r[t] as nat);
    }
    worth::lemma_total_modulo(f, g, r.len(), q);
    let whole = constant_left(k, w);
    assert(whole == total(f, r.len())) by {
        algebra::lemma_same(
            f,
            |t: int|
                total(
                    |p: int|
                        meaning::times(
                            wide(v, before(k.blocks@, t as nat) + p),
                            meaning::entry(w, k.blocks@[t].idx as int, k.blocks@[t].off + p),
                            0,
                        ),
                    k.blocks@[t].len as nat,
                ),
            r.len(),
        );
    }
}

/// A mask constraint finds nothing in a witness that keeps to its supports.
pub proof fn masks_find_nothing(shape: Supports, b: Seq<u8>, q: int, w: Seq<Vec<Poly>>)
    requires
        forall|i: int, p: int, c: int|
            0 <= i < shape.ranks@.len() && 0 <= p < shape.ranks@[i] && 0 <= c < 64 && claimed(
                shape,
                i,
                p,
                c,
            ) ==> (#[trigger] w[i]@[p]@[c]) == 0,
    ensures
        found(shape, b, q, w) == 0,
{
    let g = |i: int| total(|p: int| found_in(shape, b, q, w, i, p), shape.ranks@[i] as nat);
    assert forall|i: int| 0 <= i < shape.ranks@.len() implies #[trigger] g(i) == 0 by {
        let y = |p: int| found_in(shape, b, q, w, i, p);
        assert forall|p: int| 0 <= p < shape.ranks@[i] implies #[trigger] y(p) == 0 by {
            let f = |c: int|
                if claimed(shape, i, p, c) {
                    masks::rho(b, slot(shape, i, p, c), q) * w[i]@[p]@[c] as int
                } else {
                    0
                };
            assert forall|c: int| 0 <= c < 64 implies #[trigger] f(c) == 0 by {
                let x = masks::rho(b, slot(shape, i, p, c), q);
                assert(x * 0 == 0) by (nonlinear_arith);
                if claimed(shape, i, p, c) {
                    assert(w[i]@[p]@[c] == 0);
                }
            }
            algebra::lemma_zero(f, 64);
            algebra::lemma_same(
                f,
                |c: int|
                    if claimed(shape, i, p, c) {
                        masks::rho(b, slot(shape, i, p, c), q) * w[i]@[p]@[c] as int
                    } else {
                        0
                    },
                64,
            );
        }
        algebra::lemma_zero(y, shape.ranks@[i] as nat);
        algebra::lemma_same(
            y,
            |p: int| found_in(shape, b, q, w, i, p),
            shape.ranks@[i] as nat,
        );
    }
    algebra::lemma_zero(g, shape.ranks@.len());
    algebra::lemma_same(
        g,
        |i: int| total(|p: int| found_in(shape, b, q, w, i, p), shape.ranks@[i] as nat),
        shape.ranks@.len(),
    );
}

} // verus!
