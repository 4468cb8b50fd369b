//! What the tests of a statement and a witness let through.
use super::check;
use super::polx;
use super::statement;
use super::statement::{BSource, Block, Constraint, PhiBlock, PhiSource, Statement, VectorSpec, Witness};
use crate::recursion::algebra;
use crate::recursion::algebra::total;
use vstd::arithmetic::div_mod::*;
use vstd::arithmetic::mul::*;
use vstd::prelude::*;

verus! {

/// A list has no first error exactly where it has none.
proof fn lemma_none<E>(f: spec_fn(int) -> Option<E>, n: nat)
    ensures
        check::first(f, n) is None <==> forall|i: int| 0 <= i < n ==> (#[trigger] f(i)) is None,
    decreases n,
{
    if n > 0 {
        lemma_none(f, (n - 1) as nat);
        if check::first(f, n) is None {
            assert forall|i: int| 0 <= i < n implies (#[trigger] f(i)) is None by {
                if i == n - 1 {
                } else {
                    assert(check::first(f, (n - 1) as nat) is None);
                }
            }
        } else if forall|i: int| 0 <= i < n ==> (#[trigger] f(i)) is None {
            assert(f(n - 1) is None);
        }
    }
}

/// The elements that a block of `len` spans under degree `deg`: whole groups of `deg`, of which the last
/// is begun.
pub open spec fn span(len: int, deg: int) -> int {
    if deg <= 1 {
        len
    } else {
        ((len - 1) / deg + 1) * deg
    }
}

proof fn lemma_span(len: nat, deg: nat)
    requires
        len >= 1,
    ensures
        deg >= 1 ==> polx::padded(len, deg) == span(len as int, deg as int),
        polx::phi_padded(len, deg) == span(len as int, deg as int),
        span(len as int, deg as int) >= len,
{
    if deg > 1 {
        let (l, d) = (len as int, deg as int);
        lemma_div_plus_one(l - 1, d);
        lemma_fundamental_div_mod(l - 1, d);
        lemma_mod_bound(l - 1, d);
        let k = (l - 1) / d;
        assert((k + 1) * d == d * k + d) by (nonlinear_arith);
    } else if deg == 1 {
        lemma_div_basics(len as int);
        assert((len + 1 - 1) as nat / 1 * 1 == len);
    }
}

/// A vector that a statement may have: of some rank, binary or with a norm bound that is positive and
/// below half the modulus.
pub open spec fn sound_vector(v: VectorSpec) -> bool {
    v.n > 0 && (v.binary || 0 < v.betasq < 0x8000_0000_0000)
}

/// A block that lies inside its vector.
pub open spec fn sound_block(vectors: Seq<VectorSpec>, b: Block, deg: int) -> bool {
    &&& b.idx < vectors.len()
    &&& b.len > 0
    &&& b.off + span(b.len as int, deg) <= vectors[b.idx as int].n
}

/// Coefficients for every element of a block.
pub open spec fn sound_part(part: PhiBlock, b: Block, deg: int) -> bool {
    match part {
        PhiBlock::Polx(buf, off) => off + span(b.len as int, deg) <= buf.count,
        PhiBlock::Short(sp, off) => {
            &&& sp.off + sp.wid <= 64
            &&& (off + span(b.len as int, deg)) * sp.wid <= sp.c@.len()
        },
    }
}

/// The elements of all blocks.
pub open spec fn spans(c: Constraint) -> int {
    total(|j: int| span(c.blocks@[j].len as int, c.deg as int), c.blocks@.len())
}

/// Coefficients for every element of every block, the wide ones in `[0, q)`.
pub open spec fn sound_phi(c: Constraint, q: i64) -> bool {
    match c.phi {
        PhiSource::Int64(v) => {
            &&& v@.len() >= spans(c)
            &&& forall|i: int, t: int|
                0 <= i < v@.len() && 0 <= t < 64 ==> 0 <= (#[trigger] v@[i]@[t]) < q
        },
        PhiSource::Int16(v) => v@.len() >= spans(c),
        PhiSource::Polx(buf, base) => base + spans(c) <= buf.count,
        PhiSource::Blocks(parts) => {
            &&& parts@.len() == c.blocks@.len()
            &&& spans(c) <= usize::MAX
            &&& forall|j: int|
                0 <= j < parts@.len() ==> sound_part(
                    #[trigger] parts@[j],
                    c.blocks@[j],
                    c.deg as int,
                )
        },
    }
}

/// A right side of one element, or of as many as the degree, the wide ones in `[0, q)`.
pub open spec fn sound_b(c: Constraint, q: i64) -> bool {
    match c.b {
        None => true,
        Some(BSource::Int64(v)) => {
            &&& v@.len() >= 1 && (v@.len() == c.deg || (c.deg == 0 && v@.len() == 1))
            &&& forall|i: int, t: int|
                0 <= i < v@.len() && 0 <= t < 64 ==> 0 <= (#[trigger] v@[i]@[t]) < q
        },
        Some(BSource::Polx(buf)) => buf.count >= 1 && (buf.count == c.deg || (c.deg == 0
            && buf.count == 1)),
    }
}

pub open spec fn sound_constraint(vectors: Seq<VectorSpec>, c: Constraint, q: i64) -> bool {
    &&& c.blocks@.len() > 0
    &&& forall|j: int|
        0 <= j < c.blocks@.len() ==> sound_block(vectors, #[trigger] c.blocks@[j], c.deg as int)
    &&& sound_phi(c, q)
    &&& sound_b(c, q)
}

proof fn lemma_spans(c: Constraint, n: nat)
    requires
        n <= c.blocks@.len(),
        forall|j: int| 0 <= j < c.blocks@.len() ==> (#[trigger] c.blocks@[j]).len > 0,
    ensures
        statement::phi_total(c.blocks@, c.deg as nat, n) == total(
            |j: int| span(c.blocks@[j].len as int, c.deg as int),
            n,
        ),
        n > 0 ==> statement::phi_total(c.blocks@, c.deg as nat, n) > 0,
    decreases n,
{
    if n > 0 {
        lemma_spans(c, (n - 1) as nat);
        let f = |j: int| span(c.blocks@[j].len as int, c.deg as int);
        assert(total(f, n) == total(f, (n - 1) as nat) + f(n - 1));
        assert(c.blocks@[n - 1].len > 0);
        lemma_span(c.blocks@[n - 1].len as nat, c.deg as nat);
    }
}

proof fn lemma_block(vectors: Seq<VectorSpec>, c: Constraint, ci: int, j: int)
    requires
        0 <= j < c.blocks@.len(),
    ensures
        check::block_error(vectors, c, ci, j) is None <==> sound_block(
            vectors,
            c.blocks@[j],
            c.deg as int,
        ),
{
    let b = c.blocks@[j];
    if b.len > 0 {
        let r = check::rank_of(c.deg) as nat;
        lemma_span(b.len as nat, r);
        assert(span(b.len as int, r as int) == span(b.len as int, c.deg as int));
    }
}

proof fn lemma_part(parts: Seq<PhiBlock>, c: Constraint, ci: int, j: int)
    requires
        0 <= j < c.blocks@.len(),
        check::width(parts[j]),
        c.blocks@[j].len > 0,
    ensures
        check::part_error(parts, c, ci, j) is None <==> sound_part(
            parts[j],
            c.blocks@[j],
            c.deg as int,
        ),
{
    let b = c.blocks@[j];
    lemma_span(b.len as nat, c.deg as nat);
    if let PhiBlock::Short(sp, off) = parts[j] {
        let (x, w, l) = (off + span(b.len as int, c.deg as int), sp.wid as int, sp.c@.len() as int);
        lemma_fundamental_div_mod(l, w);
        lemma_mod_bound(l, w);
        let k = l / w;
        assert(x <= k <==> x * w <= l) by (nonlinear_arith)
            requires
                l == w * k + l % w,
                0 <= l % w < w,
                w > 0,
        ;
    }
}

/// The parts of a `phi` by blocks.
spec fn parts_sound(c: Constraint) -> bool {
    match c.phi {
        PhiSource::Blocks(parts) => {
            &&& parts@.len() == c.blocks@.len()
            &&& forall|j: int|
                0 <= j < parts@.len() ==> sound_part(
                    #[trigger] parts@[j],
                    c.blocks@[j],
                    c.deg as int,
                )
        },
        _ => true,
    }
}

proof fn lemma_parts(c: Constraint, ci: int)
    requires
        check::widths(c),
        forall|j: int| 0 <= j < c.blocks@.len() ==> (#[trigger] c.blocks@[j]).len > 0,
    ensures
        check::parts_error(c, ci) is None <==> parts_sound(c),
{
    if let PhiSource::Blocks(parts) = c.phi {
        let n = parts@.len();
        if n == c.blocks@.len() {
            let g = |j: int| check::part_error(parts@, c, ci, j);
            lemma_none(g, n);
            assert forall|j: int| 0 <= j < n implies ((#[trigger] g(j)) is None <==> sound_part(
                parts@[j],
                c.blocks@[j],
                c.deg as int,
            )) by {
                assert(check::width(parts@[j]));
                assert(c.blocks@[j].len > 0);
                lemma_part(parts@, c, ci, j);
            }
            if forall|j: int| 0 <= j < n ==> (#[trigger] g(j)) is None {
                assert forall|j: int| 0 <= j < n implies sound_part(
                    #[trigger] parts@[j],
                    c.blocks@[j],
                    c.deg as int,
                ) by {
                    assert(g(j) is None);
                }
            }
        }
    }
}

proof fn lemma_source(c: Constraint, q: i64, ci: int)
    requires
        c.blocks@.len() > 0,
        c.total() == spans(c),
        spans(c) > 0,
    ensures
        parts_sound(c) && check::source_error(c, q, ci) is None <==> sound_phi(c, q) && sound_b(
            c,
            q,
        ),
{
    assert(check::b_error(c, q, ci) is None <==> sound_b(c, q));
    match c.phi {
        PhiSource::Int64(v) => {
            assert(check::reduced(v@, q) <==> forall|i: int, t: int|
                0 <= i < v@.len() && 0 <= t < 64 ==> 0 <= (#[trigger] v@[i]@[t]) < q);
        },
        PhiSource::Int16(v) => {},
        PhiSource::Polx(buf, base) => {},
        PhiSource::Blocks(parts) => {},
    }
}

proof fn lemma_constraint(vectors: Seq<VectorSpec>, c: Constraint, q: i64, ci: int)
    requires
        check::widths(c),
    ensures
        check::constraint_error(vectors, c, q, ci) is None <==> sound_constraint(vectors, c, q),
{
    let n = c.blocks@.len();
    let f = |j: int| check::block_error(vectors, c, ci, j);
    lemma_none(f, n);
    assert forall|j: int| 0 <= j < n implies ((#[trigger] f(j)) is None <==> sound_block(
        vectors,
        c.blocks@[j],
        c.deg as int,
    )) by {
        lemma_block(vectors, c, ci, j);
    }
    let blocks = forall|j: int|
        0 <= j < n ==> sound_block(vectors, #[trigger] c.blocks@[j], c.deg as int);
    if forall|j: int| 0 <= j < n ==> (#[trigger] f(j)) is None {
        assert forall|j: int| 0 <= j < n implies sound_block(
            vectors,
            #[trigger] c.blocks@[j],
            c.deg as int,
        ) by {
            assert(f(j) is None);
        }
    }
    assert(check::first(f, n) is None <==> blocks);
    if n > 0 && blocks {
        assert forall|j: int| 0 <= j < n implies (#[trigger] c.blocks@[j]).len > 0 by {
            assert(sound_block(vectors, c.blocks@[j], c.deg as int));
        }
        lemma_spans(c, n);
        lemma_parts(c, ci);
        lemma_source(c, q, ci);
    }
}

/// The tests of a statement let through exactly the statements whose every part is sound: vectors of some
/// rank with bounds the backend can hold, and constraints that read inside their vectors, have a
/// coefficient for everything they read, and hold reduced numbers.
pub proof fn accepted_statement(s: Statement, q: i64)
    requires
        forall|ci: int|
            0 <= ci < s.constraints@.len() ==> check::widths(#[trigger] s.constraints@[ci]),
    ensures
        check::statement_error(s, q) is None <==> {
            &&& s.vectors@.len() > 0
            &&& s.constraints@.len() > 0
            &&& forall|i: int| 0 <= i < s.vectors@.len() ==> sound_vector(#[trigger] s.vectors@[i])
            &&& forall|ci: int|
                0 <= ci < s.constraints@.len() ==> sound_constraint(
                    s.vectors@,
                    #[trigger] s.constraints@[ci],
                    q,
                )
        },
{
    let f = |i: int| check::vector_error(s.vectors@[i], i);
    let g = |ci: int| check::constraint_error(s.vectors@, s.constraints@[ci], q, ci);
    lemma_none(f, s.vectors@.len());
    lemma_none(g, s.constraints@.len());
    assert forall|i: int| 0 <= i < s.vectors@.len() implies ((#[trigger] f(i)) is None
        <==> sound_vector(s.vectors@[i])) by {}
    assert forall|ci: int| 0 <= ci < s.constraints@.len() implies ((#[trigger] g(ci)) is None
        <==> sound_constraint(s.vectors@, s.constraints@[ci], q)) by {
        assert(check::widths(s.constraints@[ci]));
        lemma_constraint(s.vectors@, s.constraints@[ci], q, ci);
    }
    if forall|i: int| 0 <= i < s.vectors@.len() ==> (#[trigger] f(i)) is None {
        assert forall|i: int| 0 <= i < s.vectors@.len() implies sound_vector(
            #[trigger] s.vectors@[i],
        ) by {
            assert(f(i) is None);
        }
    }
    if forall|ci: int| 0 <= ci < s.constraints@.len() ==> (#[trigger] g(ci)) is None {
        assert forall|ci: int| 0 <= ci < s.constraints@.len() implies sound_constraint(
            s.vectors@,
            #[trigger] s.constraints@[ci],
            q,
        ) by {
            assert(g(ci) is None);
        }
    }
}

/// Nothing outside a vector is read: every element of every block of an accepted statement is there.
pub proof fn reads_inside(s: Statement, q: i64, ci: int, j: int, i: int)
    requires
        forall|ci: int|
            0 <= ci < s.constraints@.len() ==> check::widths(#[trigger] s.constraints@[ci]),
        check::statement_error(s, q) is None,
        0 <= ci < s.constraints@.len(),
        0 <= j < s.constraints@[ci].blocks@.len(),
        0 <= i < s.constraints@[ci].blocks@[j].len,
    ensures
        ({
            let b = s.constraints@[ci].blocks@[j];
            b.idx < s.vectors@.len() && b.off + i < s.vectors@[b.idx as int].n
        }),
{
    accepted_statement(s, q);
    let c = s.constraints@[ci];
    assert(sound_constraint(s.vectors@, c, q));
    let b = c.blocks@[j];
    assert(sound_block(s.vectors@, b, c.deg as int));
    lemma_span(b.len as nat, c.deg as nat);
}

// ---------------------------------------------------------------------------------------------
// witnesses
// ---------------------------------------------------------------------------------------------

/// The sum of the squares of the coefficients.
pub open spec fn squares(c: Seq<i16>) -> int {
    total(|t: int| c[t] as int * c[t] as int, c.len())
}

/// The coefficients of a vector: 64 per polynomial, and zeros and ones where it is binary, else within
/// its bound and none too large to be squared in 31 bits.
pub open spec fn fits(v: VectorSpec, c: Seq<i16>) -> bool {
    &&& c.len() == 64 * v.n
    &&& v.binary ==> forall|t: int| 0 <= t < c.len() ==> (#[trigger] c[t]) == 0 || c[t] == 1
    &&& !v.binary ==> squares(c) <= v.betasq && forall|t: int|
        0 <= t < c.len() ==> (#[trigger] c[t]) as int * c[t] as int <= 0x2000_0000
}

proof fn lemma_squares(c: Seq<i16>, n: nat)
    requires
        n <= c.len(),
    ensures
        statement::square_sum(c, n) == total(|t: int| c[t] as int * c[t] as int, n),
    decreases n,
{
    if n > 0 {
        lemma_squares(c, (n - 1) as nat);
        let f = |t: int| c[t] as int * c[t] as int;
        assert(total(f, n) == total(f, (n - 1) as nat) + f(n - 1));
        let x = c[n - 1] as int;
        assert(x * x >= 0) by (nonlinear_arith);
    }
}

proof fn lemma_fit(v: VectorSpec, c: Vec<i16>, i: int)
    ensures
        check::fit_error(v, c@, i) is None <==> fits(v, c@),
{
    assert(c@.len() == c.len());
    let f = check::binary_error(c@, i as usize);
    lemma_none(f, c@.len());
    if forall|t: int| 0 <= t < c@.len() ==> (#[trigger] f(t)) is None {
        assert forall|t: int| 0 <= t < c@.len() implies (#[trigger] c@[t]) == 0 || c@[t] == 1 by {
            assert(f(t) is None);
        }
    }
    lemma_squares(c@, c@.len());
    assert forall|t: int| 0 <= t < c@.len() implies (-23170 <= (#[trigger] c@[t]) <= 23170 <==> c@[t]
        as int * c@[t] as int <= 0x2000_0000) by {
        let x = c@[t] as int;
        assert(-23170 <= x <= 23170 <==> x * x <= 0x2000_0000) by (nonlinear_arith);
    }
}

/// The tests of a witness let through exactly the witnesses that fit: as many vectors as the statement,
/// each of its length and within its bound.
pub proof fn accepted_witness(s: Statement, w: Witness)
    ensures
        check::witness_error(s, w) is None <==> {
            &&& s.vectors@.len() == w.vectors@.len()
            &&& forall|i: int|
                0 <= i < s.vectors@.len() ==> fits(s.vectors@[i], #[trigger] w.vectors@[i]@)
        },
{
    if s.vectors@.len() == w.vectors@.len() {
        let f = |i: int| check::fit_error(s.vectors@[i], w.vectors@[i]@, i);
        lemma_none(f, s.vectors@.len());
        assert forall|i: int| 0 <= i < s.vectors@.len() implies ((#[trigger] f(i)) is None <==> fits(
            s.vectors@[i],
            w.vectors@[i]@,
        )) by {
            lemma_fit(s.vectors@[i], w.vectors@[i], i);
        }
        if forall|i: int| 0 <= i < s.vectors@.len() ==> (#[trigger] f(i)) is None {
            assert forall|i: int| 0 <= i < s.vectors@.len() implies fits(
                s.vectors@[i],
                #[trigger] w.vectors@[i]@,
            ) by {
                assert(f(i) is None);
            }
        }
    }
}

} // verus!
