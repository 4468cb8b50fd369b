//! The digest binds: the bytes that are hashed of a statement determine everything in it.
//!
//! The bytes of a statement that passes its tests are read back from the front, a field at a time:
//! counts stand before what they count, and a tag stands before each kind of `phi` and `b`.
use super::check;
use super::check::{rank_of, statement_error, widths};
use super::polx;
use super::statement;
use super::statement::{
    window, word, BSource, Block, Constraint, PhiBlock, PhiSource, Statement, VectorSpec,
};
use crate::bytes;
use crate::wire::cat;
use vstd::prelude::*;
use vstd::string::*;

verus! {

// ---------------------------------------------------------------------------------------------
// agreement
// ---------------------------------------------------------------------------------------------

/// The coefficients of wide polynomials agree.
pub open spec fn same_wide(v: Seq<[i64; 64]>, w: Seq<[i64; 64]>) -> bool {
    &&& v.len() == w.len()
    &&& forall|i: int, t: int|
        0 <= i < v.len() && 0 <= t < 64 ==> (#[trigger] v[i]@[t]) == w[i]@[t]
}

/// The coefficients of narrow polynomials agree.
pub open spec fn same_narrow(v: Seq<[i16; 64]>, w: Seq<[i16; 64]>) -> bool {
    &&& v.len() == w.len()
    &&& forall|i: int, t: int|
        0 <= i < v.len() && 0 <= t < 64 ==> (#[trigger] v[i]@[t]) == w[i]@[t]
}

/// Two descriptors give a block the same `phi`.
pub open spec fn same_part(p: PhiBlock, r: PhiBlock, blk: Block, deg: nat) -> bool {
    let size = polx::phi_padded(blk.len as nat, deg);
    match (p, r) {
        (PhiBlock::Polx(b, i), PhiBlock::Polx(e, j)) => window(
            b.bytes@,
            i as nat,
            i as nat + size,
        ) == window(e.bytes@, j as nat, j as nat + size),
        (PhiBlock::Short(a, i), PhiBlock::Short(e, j)) => {
            &&& a.off == e.off
            &&& a.wid == e.wid
            &&& a.c@.subrange(i * a.wid, (i + size) * a.wid) == e.c@.subrange(
                j * e.wid,
                (j + size) * e.wid,
            )
        },
        _ => false,
    }
}

/// The constraints read the same `phi`.
pub open spec fn same_phi(c: Constraint, d: Constraint) -> bool {
    match (c.phi, d.phi) {
        (PhiSource::Int64(v), PhiSource::Int64(w)) => same_wide(v@, w@),
        (PhiSource::Int16(v), PhiSource::Int16(w)) => same_narrow(v@, w@),
        (PhiSource::Polx(b, i), PhiSource::Polx(e, j)) => window(
            b.bytes@,
            i as nat,
            i as nat + c.total(),
        ) == window(e.bytes@, j as nat, j as nat + d.total()),
        (PhiSource::Blocks(p), PhiSource::Blocks(r)) => {
            &&& p@.len() == r@.len()
            &&& forall|j: int|
                0 <= j < p@.len() ==> #[trigger] same_part(
                    p@[j],
                    r@[j],
                    c.blocks@[j],
                    c.deg as nat,
                )
        },
        _ => false,
    }
}

/// The right-hand sides are the same.
pub open spec fn same_b(b: Option<BSource>, e: Option<BSource>) -> bool {
    match (b, e) {
        (None, None) => true,
        (Some(BSource::Int64(v)), Some(BSource::Int64(w))) => same_wide(v@, w@),
        (Some(BSource::Polx(x)), Some(BSource::Polx(y))) => x.bytes@ == y.bytes@,
        _ => false,
    }
}

/// Two constraints say the same.
pub open spec fn same_constraint(c: Constraint, d: Constraint) -> bool {
    &&& c.deg == d.deg
    &&& c.blocks@ == d.blocks@
    &&& same_phi(c, d)
    &&& same_b(c.b, d.b)
}

/// Two vectors have the same rank, bound and kind.
pub open spec fn same_vector(v: VectorSpec, w: VectorSpec) -> bool {
    v.n == w.n && v.bound() == w.bound() && v.binary == w.binary
}

/// Two statements say the same of their witnesses.
pub open spec fn same_statement(s: Statement, t: Statement) -> bool {
    &&& s.vectors@.len() == t.vectors@.len()
    &&& forall|i: int|
        0 <= i < s.vectors@.len() ==> #[trigger] same_vector(s.vectors@[i], t.vectors@[i])
    &&& s.constraints@.len() == t.constraints@.len()
    &&& forall|i: int|
        0 <= i < s.constraints@.len() ==> #[trigger] same_constraint(
            s.constraints@[i],
            t.constraints@[i],
        )
}

// ---------------------------------------------------------------------------------------------
// reading back
// ---------------------------------------------------------------------------------------------

/// Fronts of one length agree, and so does what follows them.
proof fn lemma_cut(a: Seq<u8>, b: Seq<u8>, x: Seq<u8>, y: Seq<u8>)
    requires
        a + x == b + y,
        a.len() == b.len(),
    ensures
        a == b,
        x == y,
{
    let n = a.len() as int;
    assert((a + x).take(n) =~= a);
    assert((b + y).take(n) =~= b);
    assert((a + x).skip(n) =~= x);
    assert((b + y).skip(n) =~= y);
}

proof fn lemma_word(x: nat, y: nat, s: Seq<u8>, t: Seq<u8>)
    requires
        word(x) + s == word(y) + t,
        x <= u64::MAX,
        y <= u64::MAX,
    ensures
        x == y,
        s == t,
{
    bytes::lemma_le_len(x, 8);
    bytes::lemma_le_len(y, 8);
    lemma_cut(word(x), word(y), s, t);
    bytes::lemma_radix_values();
    bytes::lemma_of_le_le(x, 8);
    bytes::lemma_of_le_le(y, 8);
}

proof fn lemma_signed8(x: i64, y: i64)
    requires
        statement::signed(x as int, 8) == statement::signed(y as int, 8),
    ensures
        x == y,
{
    bytes::lemma_radix_values();
    let (u, v) = (
        (if x < 0 {
            x + bytes::radix(8)
        } else {
            x as int
        }) as nat,
        (if y < 0 {
            y + bytes::radix(8)
        } else {
            y as int
        }) as nat,
    );
    bytes::lemma_of_le_le(u, 8);
    bytes::lemma_of_le_le(v, 8);
}

proof fn lemma_signed2(x: i16, y: i16)
    requires
        statement::signed(x as int, 2) == statement::signed(y as int, 2),
    ensures
        x == y,
{
    bytes::lemma_radix_values();
    let (u, v) = (
        (if x < 0 {
            x + bytes::radix(2)
        } else {
            x as int
        }) as nat,
        (if y < 0 {
            y + bytes::radix(2)
        } else {
            y as int
        }) as nat,
    );
    bytes::lemma_of_le_le(u, 2);
    bytes::lemma_of_le_le(v, 2);
}

proof fn lemma_short_len(c: Seq<i16>)
    ensures
        statement::short_bytes(c).len() == 2 * c.len(),
        forall|t: int| 0 <= t < c.len() ==> (#[trigger] statement::short_piece(c)(t)).len() == 2,
{
    let f = statement::short_piece(c);
    assert forall|t: int| 0 <= t < c.len() implies (#[trigger] f(t)).len() == 2 by {
        bytes::lemma_le_len(
            (if c[t] < 0 {
                c[t] + bytes::radix(2)
            } else {
                c[t] as int
            }) as nat,
            2,
        );
    }
    cat::lemma_len(f, c.len(), 2);
}

proof fn lemma_short(c: Seq<i16>, d: Seq<i16>)
    requires
        c.len() == d.len(),
        statement::short_bytes(c) == statement::short_bytes(d),
    ensures
        c == d,
{
    let (f, g) = (statement::short_piece(c), statement::short_piece(d));
    lemma_short_len(c);
    lemma_short_len(d);
    cat::lemma_even_equal(f, g, c.len(), 2);
    assert forall|t: int| 0 <= t < c.len() implies (#[trigger] c[t]) == d[t] by {
        assert(f(t) == g(t));
        lemma_signed2(c[t], d[t]);
    }
    assert(c =~= d);
}

proof fn lemma_wide_len(v: Seq<[i64; 64]>)
    ensures
        statement::wide_bytes(v).len() == v.len() * 512,
        forall|i: int|
            0 <= i < v.len() ==> (#[trigger] statement::wide_piece(v)(i)).len() == 512,
        forall|i: int, t: int|
            0 <= i < v.len() && 0 <= t < 64 ==> (#[trigger] statement::word_piece(v[i]@)(t)).len()
                == 8,
{
    let f = statement::wide_piece(v);
    assert forall|i: int, t: int| 0 <= i < v.len() && 0 <= t < 64 implies (
    #[trigger] statement::word_piece(v[i]@)(t)).len() == 8 by {
        bytes::lemma_le_len(
            (if v[i]@[t] < 0 {
                v[i]@[t] + bytes::radix(8)
            } else {
                v[i]@[t] as int
            }) as nat,
            8,
        );
    }
    assert forall|i: int| 0 <= i < v.len() implies (#[trigger] f(i)).len() == 512 by {
        let g = statement::word_piece(v[i]@);
        assert forall|t: int| 0 <= t < 64 implies (#[trigger] g(t)).len() == 8 by {
            assert(statement::word_piece(v[i]@)(t).len() == 8);
        }
        cat::lemma_len(g, 64, 8);
    }
    cat::lemma_len(f, v.len(), 512);
}

proof fn lemma_wide(v: Seq<[i64; 64]>, w: Seq<[i64; 64]>, s: Seq<u8>, t: Seq<u8>)
    requires
        v.len() == w.len(),
        statement::wide_bytes(v) + s == statement::wide_bytes(w) + t,
    ensures
        same_wide(v, w),
        s == t,
{
    lemma_wide_len(v);
    lemma_wide_len(w);
    lemma_cut(statement::wide_bytes(v), statement::wide_bytes(w), s, t);
    let (f, g) = (statement::wide_piece(v), statement::wide_piece(w));
    cat::lemma_even_equal(f, g, v.len(), 512);
    assert forall|i: int, k: int| 0 <= i < v.len() && 0 <= k < 64 implies (#[trigger] v[i]@[k])
        == w[i]@[k] by {
        assert(f(i) == g(i));
        let (a, b) = (statement::word_piece(v[i]@), statement::word_piece(w[i]@));
        assert forall|u: int| 0 <= u < 64 implies (#[trigger] a(u)).len() == 8 by {
            assert(statement::word_piece(v[i]@)(u).len() == 8);
        }
        assert forall|u: int| 0 <= u < 64 implies (#[trigger] b(u)).len() == 8 by {
            assert(statement::word_piece(w[i]@)(u).len() == 8);
        }
        cat::lemma_even_equal(a, b, 64, 8);
        assert(a(k) == b(k));
        lemma_signed8(v[i]@[k], w[i]@[k]);
    }
}

proof fn lemma_narrow(v: Seq<[i16; 64]>, w: Seq<[i16; 64]>, s: Seq<u8>, t: Seq<u8>)
    requires
        v.len() == w.len(),
        statement::narrow_bytes(v) + s == statement::narrow_bytes(w) + t,
    ensures
        same_narrow(v, w),
        s == t,
{
    let (f, g) = (statement::narrow_piece(v), statement::narrow_piece(w));
    assert forall|i: int| 0 <= i < v.len() implies (#[trigger] f(i)).len() == 128 by {
        lemma_short_len(v[i]@);
    }
    assert forall|i: int| 0 <= i < v.len() implies (#[trigger] g(i)).len() == 128 by {
        lemma_short_len(w[i]@);
    }
    cat::lemma_len(f, v.len(), 128);
    cat::lemma_len(g, v.len(), 128);
    lemma_cut(statement::narrow_bytes(v), statement::narrow_bytes(w), s, t);
    cat::lemma_even_equal(f, g, v.len(), 128);
    assert forall|i: int, k: int| 0 <= i < v.len() && 0 <= k < 64 implies (#[trigger] v[i]@[k])
        == w[i]@[k] by {
        assert(f(i) == g(i));
        lemma_short(v[i]@, w[i]@);
    }
}

proof fn lemma_block(b: Block, e: Block)
    ensures
        statement::block_bytes(b).len() == 24,
        statement::block_bytes(b) == statement::block_bytes(e) ==> b == e,
{
    bytes::lemma_le_len(b.idx as nat, 8);
    bytes::lemma_le_len(b.off as nat, 8);
    bytes::lemma_le_len(b.len as nat, 8);
    if statement::block_bytes(b) == statement::block_bytes(e) {
        let (x, y) = (word(b.off as nat) + word(b.len as nat), word(e.off as nat) + word(e.len as nat));
        assert(statement::block_bytes(b) =~= word(b.idx as nat) + x);
        assert(statement::block_bytes(e) =~= word(e.idx as nat) + y);
        lemma_word(b.idx as nat, e.idx as nat, x, y);
        lemma_word(b.off as nat, e.off as nat, word(b.len as nat), word(e.len as nat));
        let none = Seq::<u8>::empty();
        assert(word(b.len as nat) + none =~= word(b.len as nat));
        assert(word(e.len as nat) + none =~= word(e.len as nat));
        lemma_word(b.len as nat, e.len as nat, none, none);
    }
}

proof fn lemma_blocks(b: Seq<Block>, e: Seq<Block>, s: Seq<u8>, t: Seq<u8>)
    requires
        b.len() == e.len(),
        cat::cat(statement::block_piece(b), b.len()) + s == cat::cat(
            statement::block_piece(e),
            e.len(),
        ) + t,
    ensures
        b == e,
        s == t,
{
    let (f, g) = (statement::block_piece(b), statement::block_piece(e));
    assert forall|i: int| 0 <= i < b.len() implies (#[trigger] f(i)).len() == 24 by {
        lemma_block(b[i], b[i]);
    }
    assert forall|i: int| 0 <= i < b.len() implies (#[trigger] g(i)).len() == 24 by {
        lemma_block(e[i], e[i]);
    }
    cat::lemma_len(f, b.len(), 24);
    cat::lemma_len(g, b.len(), 24);
    lemma_cut(cat::cat(f, b.len()), cat::cat(g, b.len()), s, t);
    cat::lemma_even_equal(f, g, b.len(), 24);
    assert forall|i: int| 0 <= i < b.len() implies (#[trigger] b[i]) == e[i] by {
        assert(f(i) == g(i));
        lemma_block(b[i], e[i]);
    }
    assert(b =~= e);
}

proof fn lemma_vector(v: VectorSpec, w: VectorSpec)
    ensures
        statement::vector_bytes(v).len() == 17,
        statement::vector_bytes(v) == statement::vector_bytes(w) ==> same_vector(v, w),
{
    bytes::lemma_le_len(v.n as nat, 8);
    bytes::lemma_le_len(v.bound() as nat, 8);
    if statement::vector_bytes(v) == statement::vector_bytes(w) {
        let k = |v: VectorSpec| seq![
            if v.binary {
                1u8
            } else {
                0u8
            },
        ];
        let (x, y) = (word(v.bound() as nat) + k(v), word(w.bound() as nat) + k(w));
        assert(statement::vector_bytes(v) =~= word(v.n as nat) + x);
        assert(statement::vector_bytes(w) =~= word(w.n as nat) + y);
        lemma_word(v.n as nat, w.n as nat, x, y);
        lemma_word(v.bound() as nat, w.bound() as nat, k(v), k(w));
        assert(k(v)[0] == k(w)[0]);
    }
}

proof fn lemma_vectors(v: Seq<VectorSpec>, w: Seq<VectorSpec>, s: Seq<u8>, t: Seq<u8>)
    requires
        v.len() == w.len(),
        cat::cat(statement::vector_piece(v), v.len()) + s == cat::cat(
            statement::vector_piece(w),
            w.len(),
        ) + t,
    ensures
        forall|i: int| 0 <= i < v.len() ==> #[trigger] same_vector(v[i], w[i]),
        s == t,
{
    let (f, g) = (statement::vector_piece(v), statement::vector_piece(w));
    assert forall|i: int| 0 <= i < v.len() implies (#[trigger] f(i)).len() == 17 by {
        lemma_vector(v[i], v[i]);
    }
    assert forall|i: int| 0 <= i < v.len() implies (#[trigger] g(i)).len() == 17 by {
        lemma_vector(w[i], w[i]);
    }
    cat::lemma_len(f, v.len(), 17);
    cat::lemma_len(g, v.len(), 17);
    lemma_cut(cat::cat(f, v.len()), cat::cat(g, v.len()), s, t);
    cat::lemma_even_equal(f, g, v.len(), 17);
    assert forall|i: int| 0 <= i < v.len() implies #[trigger] same_vector(v[i], w[i]) by {
        assert(f(i) == g(i));
        lemma_vector(v[i], w[i]);
    }
}

// ---------------------------------------------------------------------------------------------
// the kinds of `phi` and `b`
// ---------------------------------------------------------------------------------------------

/// The tags are told apart by their first bytes.
proof fn lemma_tags()
    ensures
        "i64".spec_bytes() =~= seq![0x69u8, 0x36u8, 0x34u8],
        "i16".spec_bytes() =~= seq![0x69u8, 0x31u8, 0x36u8],
        "plx".spec_bytes() =~= seq![0x70u8, 0x6cu8, 0x78u8],
        "blk".spec_bytes() =~= seq![0x62u8, 0x6cu8, 0x6bu8],
        "hom".spec_bytes() =~= seq![0x68u8, 0x6fu8, 0x6du8],
        "bi64".spec_bytes() =~= seq![0x62u8, 0x69u8, 0x36u8, 0x34u8],
        "bplx".spec_bytes() =~= seq![0x62u8, 0x70u8, 0x6cu8, 0x78u8],
        "p".spec_bytes() =~= seq![0x70u8],
        "s".spec_bytes() =~= seq![0x73u8],
{
    reveal_strlit("i64");
    reveal_strlit("i16");
    reveal_strlit("plx");
    reveal_strlit("blk");
    reveal_strlit("hom");
    reveal_strlit("bi64");
    reveal_strlit("bplx");
    reveal_strlit("p");
    reveal_strlit("s");
    assert("i64".is_ascii());
    assert("i16".is_ascii());
    assert("plx".is_ascii());
    assert("blk".is_ascii());
    assert("hom".is_ascii());
    assert("bi64".is_ascii());
    assert("bplx".is_ascii());
    assert("p".is_ascii());
    assert("s".is_ascii());
    is_ascii_spec_bytes("i64");
    is_ascii_spec_bytes("i16");
    is_ascii_spec_bytes("plx");
    is_ascii_spec_bytes("blk");
    is_ascii_spec_bytes("hom");
    is_ascii_spec_bytes("bi64");
    is_ascii_spec_bytes("bplx");
    is_ascii_spec_bytes("p");
    is_ascii_spec_bytes("s");
}

/// What a descriptor names is there.
pub open spec fn part_there(part: PhiBlock, blk: Block, deg: nat) -> bool {
    match part {
        PhiBlock::Polx(buf, off) => buf.wf() && off + polx::phi_padded(blk.len as nat, deg)
            <= buf.count,
        PhiBlock::Short(sp, off) => (off + polx::phi_padded(blk.len as nat, deg)) * sp.wid
            <= sp.c@.len(),
    }
}

/// Everything that a constraint reads is there.
pub open spec fn there(c: Constraint) -> bool {
    &&& match c.phi {
        PhiSource::Polx(buf, base) => buf.wf() && base + c.total() <= buf.count,
        PhiSource::Blocks(parts) => {
            &&& parts@.len() == c.blocks@.len()
            &&& forall|j: int|
                0 <= j < parts@.len() ==> #[trigger] part_there(
                    parts@[j],
                    c.blocks@[j],
                    c.deg as nat,
                )
        },
        _ => true,
    }
    &&& match c.b {
        None => true,
        Some(BSource::Int64(v)) => v@.len() == rank_of(c.deg),
        Some(BSource::Polx(buf)) => buf.wf() && buf.count == rank_of(c.deg),
    }
}

proof fn lemma_window_len(b: Seq<u8>, from: nat, size: nat, count: nat)
    requires
        b.len() == 1024 * count,
        from + size <= count,
    ensures
        window(b, from, from + size).len() == 1024 * size,
{
}

proof fn lemma_part(p: PhiBlock, r: PhiBlock, blk: Block, deg: nat, s: Seq<u8>, t: Seq<u8>)
    requires
        part_there(p, blk, deg),
        part_there(r, blk, deg),
        statement::part_bytes(p, blk, deg) + s == statement::part_bytes(r, blk, deg) + t,
    ensures
        same_part(p, r, blk, deg),
        s == t,
{
    lemma_tags();
    let size = polx::phi_padded(blk.len as nat, deg);
    let (x, y) = (statement::part_bytes(p, blk, deg), statement::part_bytes(r, blk, deg));
    assert((x + s)[0] == x[0] && (y + t)[0] == y[0]);
    match (p, r) {
        (PhiBlock::Polx(b, i), PhiBlock::Polx(e, j)) => {
            lemma_window_len(b.bytes@, i as nat, size, b.count as nat);
            lemma_window_len(e.bytes@, j as nat, size, e.count as nat);
            lemma_cut(x, y, s, t);
            let (wx, wy) = (
                window(b.bytes@, i as nat, i as nat + size),
                window(e.bytes@, j as nat, j as nat + size),
            );
            lemma_cut("p".spec_bytes(), "p".spec_bytes(), wx, wy);
        },
        (PhiBlock::Short(a, i), PhiBlock::Short(e, j)) => {
            let (ca, ce) = (
                a.c@.subrange(i * a.wid, (i + size) * a.wid),
                e.c@.subrange(j * e.wid, (j + size) * e.wid),
            );
            let (sa, se) = (statement::short_bytes(ca), statement::short_bytes(ce));
            let (la, le) = (word(a.wid as nat) + (sa + s), word(e.wid as nat) + (se + t));
            assert(x + s =~= "s".spec_bytes() + (word(a.off as nat) + la));
            assert(y + t =~= "s".spec_bytes() + (word(e.off as nat) + le));
            lemma_cut(
                "s".spec_bytes(),
                "s".spec_bytes(),
                word(a.off as nat) + la,
                word(e.off as nat) + le,
            );
            lemma_word(a.off as nat, e.off as nat, la, le);
            lemma_word(a.wid as nat, e.wid as nat, sa + s, se + t);
            lemma_span(i as int, size as int, a.wid as int);
            lemma_span(j as int, size as int, a.wid as int);
            lemma_short_len(ca);
            lemma_short_len(ce);
            lemma_cut(sa, se, s, t);
            lemma_short(ca, ce);
        },
        (PhiBlock::Polx(_, _), PhiBlock::Short(_, _)) => {
            assert(x[0] == 0x70 && y[0] == 0x73);
        },
        (PhiBlock::Short(_, _), PhiBlock::Polx(_, _)) => {
            assert(x[0] == 0x73 && y[0] == 0x70);
        },
    }
}

proof fn lemma_span(i: int, n: int, w: int)
    requires
        0 <= i,
        0 <= n,
        0 <= w,
    ensures
        0 <= i * w <= (i + n) * w,
        (i + n) * w - i * w == n * w,
{
    assert((i + n) * w == i * w + n * w) by (nonlinear_arith);
    assert(0 <= i * w) by (nonlinear_arith)
        requires
            0 <= i,
            0 <= w,
    ;
    assert(0 <= n * w) by (nonlinear_arith)
        requires
            0 <= n,
            0 <= w,
    ;
}

/// The descriptors of the first `n` blocks.
proof fn lemma_parts(
    p: Seq<PhiBlock>,
    r: Seq<PhiBlock>,
    blocks: Seq<Block>,
    deg: nat,
    n: nat,
    s: Seq<u8>,
    t: Seq<u8>,
)
    requires
        n <= p.len(),
        n <= r.len(),
        n <= blocks.len(),
        forall|j: int| 0 <= j < n ==> #[trigger] part_there(p[j], blocks[j], deg),
        forall|j: int| 0 <= j < n ==> #[trigger] part_there(r[j], blocks[j], deg),
        cat::cat(statement::part_piece(p, blocks, deg), n) + s == cat::cat(
            statement::part_piece(r, blocks, deg),
            n,
        ) + t,
    ensures
        forall|j: int| 0 <= j < n ==> #[trigger] same_part(p[j], r[j], blocks[j], deg),
        s == t,
    decreases n,
{
    let (f, g) = (statement::part_piece(p, blocks, deg), statement::part_piece(r, blocks, deg));
    if n == 0 {
        assert(cat::cat(f, 0) + s =~= s);
        assert(cat::cat(g, 0) + t =~= t);
    } else {
        let m = (n - 1) as nat;
        let (x, y) = (f(m as int) + s, g(m as int) + t);
        assert(cat::cat(f, n) + s =~= cat::cat(f, m) + x);
        assert(cat::cat(g, n) + t =~= cat::cat(g, m) + y);
        lemma_parts(p, r, blocks, deg, m, x, y);
        assert(part_there(p[m as int], blocks[m as int], deg));
        assert(part_there(r[m as int], blocks[m as int], deg));
        lemma_part(p[m as int], r[m as int], blocks[m as int], deg, s, t);
    }
}

proof fn lemma_phi(c: Constraint, d: Constraint, s: Seq<u8>, t: Seq<u8>)
    requires
        there(c),
        there(d),
        c.deg == d.deg,
        c.blocks@ == d.blocks@,
        statement::phi_bytes(c) + s == statement::phi_bytes(d) + t,
    ensures
        same_phi(c, d),
        s == t,
{
    lemma_tags();
    let (x, y) = (statement::phi_bytes(c), statement::phi_bytes(d));
    assert((x + s)[0] == x[0] && (y + t)[0] == y[0]);
    assert((x + s)[1] == x[1] && (y + t)[1] == y[1]);
    match (c.phi, d.phi) {
        (PhiSource::Int64(v), PhiSource::Int64(w)) => {
            let (a, b) = (statement::wide_bytes(v@) + s, statement::wide_bytes(w@) + t);
            assert(x + s =~= "i64".spec_bytes() + (word(v@.len()) + a));
            assert(y + t =~= "i64".spec_bytes() + (word(w@.len()) + b));
            lemma_cut("i64".spec_bytes(), "i64".spec_bytes(), word(v@.len()) + a, word(w@.len()) + b);
            assert(v@.len() == v.len() && w@.len() == w.len());
            lemma_word(v@.len(), w@.len(), a, b);
            lemma_wide(v@, w@, s, t);
        },
        (PhiSource::Int16(v), PhiSource::Int16(w)) => {
            let (a, b) = (statement::narrow_bytes(v@) + s, statement::narrow_bytes(w@) + t);
            assert(x + s =~= "i16".spec_bytes() + (word(v@.len()) + a));
            assert(y + t =~= "i16".spec_bytes() + (word(w@.len()) + b));
            lemma_cut("i16".spec_bytes(), "i16".spec_bytes(), word(v@.len()) + a, word(w@.len()) + b);
            assert(v@.len() == v.len() && w@.len() == w.len());
            lemma_word(v@.len(), w@.len(), a, b);
            lemma_narrow(v@, w@, s, t);
        },
        (PhiSource::Polx(b, i), PhiSource::Polx(e, j)) => {
            let n = c.total();
            lemma_window_len(b.bytes@, i as nat, n, b.count as nat);
            lemma_window_len(e.bytes@, j as nat, n, e.count as nat);
            lemma_cut(x, y, s, t);
            lemma_cut(
                "plx".spec_bytes(),
                "plx".spec_bytes(),
                window(b.bytes@, i as nat, i as nat + n),
                window(e.bytes@, j as nat, j as nat + n),
            );
        },
        (PhiSource::Blocks(p), PhiSource::Blocks(r)) => {
            let (f, g) = (
                statement::part_piece(p@, c.blocks@, c.deg as nat),
                statement::part_piece(r@, c.blocks@, c.deg as nat),
            );
            let n = c.blocks@.len();
            assert(x + s =~= "blk".spec_bytes() + (cat::cat(f, n) + s));
            assert(y + t =~= "blk".spec_bytes() + (cat::cat(g, n) + t));
            lemma_cut("blk".spec_bytes(), "blk".spec_bytes(), cat::cat(f, n) + s, cat::cat(g, n) + t);
            lemma_parts(p@, r@, c.blocks@, c.deg as nat, n, s, t);
        },
        _ => {
            assert(false);
        },
    }
}

proof fn lemma_b(c: Constraint, d: Constraint, s: Seq<u8>, t: Seq<u8>)
    requires
        there(c),
        there(d),
        c.deg == d.deg,
        statement::b_bytes(c.b) + s == statement::b_bytes(d.b) + t,
    ensures
        same_b(c.b, d.b),
        s == t,
{
    lemma_tags();
    let (x, y) = (statement::b_bytes(c.b), statement::b_bytes(d.b));
    assert((x + s)[0] == x[0] && (y + t)[0] == y[0]);
    assert((x + s)[1] == x[1] && (y + t)[1] == y[1]);
    match (c.b, d.b) {
        (None, None) => {
            lemma_cut(x, y, s, t);
        },
        (Some(BSource::Int64(v)), Some(BSource::Int64(w))) => {
            let (a, b) = (statement::wide_bytes(v@) + s, statement::wide_bytes(w@) + t);
            assert(x + s =~= "bi64".spec_bytes() + a);
            assert(y + t =~= "bi64".spec_bytes() + b);
            lemma_cut("bi64".spec_bytes(), "bi64".spec_bytes(), a, b);
            lemma_wide(v@, w@, s, t);
        },
        (Some(BSource::Polx(a)), Some(BSource::Polx(b))) => {
            lemma_cut(x, y, s, t);
            lemma_cut("bplx".spec_bytes(), "bplx".spec_bytes(), a.bytes@, b.bytes@);
        },
        _ => {
            assert(false);
        },
    }
}

proof fn lemma_split(a: Seq<u8>, b: Seq<u8>, c: Seq<u8>, d: Seq<u8>, e: Seq<u8>, f: Seq<u8>)
    ensures
        a + b + c + d + e + f == a + (b + (c + (d + (e + f)))),
{
    assert(a + b + c + d + e + f =~= a + (b + (c + (d + (e + f)))));
}

proof fn lemma_constraint(c: Constraint, d: Constraint, s: Seq<u8>, t: Seq<u8>)
    requires
        there(c),
        there(d),
        statement::constraint_bytes(c) + s == statement::constraint_bytes(d) + t,
    ensures
        same_constraint(c, d),
        s == t,
{
    let (b1, b2) = (statement::b_bytes(c.b) + s, statement::b_bytes(d.b) + t);
    let (p1, p2) = (statement::phi_bytes(c) + b1, statement::phi_bytes(d) + b2);
    let (n1, n2) = (c.blocks@.len(), d.blocks@.len());
    let (k1, k2) = (
        cat::cat(statement::block_piece(c.blocks@), n1) + p1,
        cat::cat(statement::block_piece(d.blocks@), n2) + p2,
    );
    lemma_split(
        word(c.deg as nat),
        word(n1),
        cat::cat(statement::block_piece(c.blocks@), n1),
        statement::phi_bytes(c),
        statement::b_bytes(c.b),
        s,
    );
    lemma_split(
        word(d.deg as nat),
        word(n2),
        cat::cat(statement::block_piece(d.blocks@), n2),
        statement::phi_bytes(d),
        statement::b_bytes(d.b),
        t,
    );
    lemma_word(c.deg as nat, d.deg as nat, word(n1) + k1, word(n2) + k2);
    assert(n1 == c.blocks.len() && n2 == d.blocks.len());
    lemma_word(n1, n2, k1, k2);
    lemma_blocks(c.blocks@, d.blocks@, p1, p2);
    lemma_phi(c, d, b1, b2);
    lemma_b(c, d, s, t);
}

proof fn lemma_constraints(
    c: Seq<Constraint>,
    d: Seq<Constraint>,
    n: nat,
    s: Seq<u8>,
    t: Seq<u8>,
)
    requires
        n <= c.len(),
        n <= d.len(),
        forall|i: int| 0 <= i < n ==> there(#[trigger] c[i]),
        forall|i: int| 0 <= i < n ==> there(#[trigger] d[i]),
        cat::cat(statement::constraint_piece(c), n) + s == cat::cat(
            statement::constraint_piece(d),
            n,
        ) + t,
    ensures
        forall|i: int| 0 <= i < n ==> #[trigger] same_constraint(c[i], d[i]),
        s == t,
    decreases n,
{
    let (f, g) = (statement::constraint_piece(c), statement::constraint_piece(d));
    if n == 0 {
        assert(cat::cat(f, 0) + s =~= s);
        assert(cat::cat(g, 0) + t =~= t);
    } else {
        let m = (n - 1) as nat;
        let (x, y) = (f(m as int) + s, g(m as int) + t);
        assert(cat::cat(f, n) + s =~= cat::cat(f, m) + x);
        assert(cat::cat(g, n) + t =~= cat::cat(g, m) + y);
        lemma_constraints(c, d, m, x, y);
        assert(there(c[m as int]) && there(d[m as int]));
        lemma_constraint(c[m as int], d[m as int], s, t);
    }
}

// ---------------------------------------------------------------------------------------------
// the law
// ---------------------------------------------------------------------------------------------

/// Every buffer of transformed elements has its bytes.
pub open spec fn buffers_wf(c: Constraint) -> bool {
    &&& match c.phi {
        PhiSource::Polx(buf, _) => buf.wf(),
        PhiSource::Blocks(parts) => forall|j: int|
            0 <= j < parts@.len() ==> buffer_wf(#[trigger] parts@[j]),
        _ => true,
    }
    &&& c.b matches Some(BSource::Polx(buf)) ==> buf.wf()
}

pub open spec fn buffer_wf(part: PhiBlock) -> bool {
    part matches PhiBlock::Polx(buf, _) ==> buf.wf()
}

/// Nothing in front of place `i` is an error, and neither is it.
proof fn lemma_no_error<E>(f: spec_fn(int) -> Option<E>, n: nat, i: int)
    requires
        check::first(f, n) is None,
        0 <= i < n,
    ensures
        f(i) is None,
    decreases n,
{
    if i < n - 1 {
        lemma_no_error(f, (n - 1) as nat, i);
    }
}

/// The descriptors of a constraint that passes its tests name what is there.
proof fn lemma_parts_there(c: Constraint, ci: int)
    requires
        check::parts_error(c, ci) is None,
        widths(c),
        buffers_wf(c),
        c.phi is Blocks,
    ensures
        c.phi->Blocks_0@.len() == c.blocks@.len(),
        forall|j: int|
            0 <= j < c.blocks@.len() ==> #[trigger] part_there(
                c.phi->Blocks_0@[j],
                c.blocks@[j],
                c.deg as nat,
            ),
{
    let parts = c.phi->Blocks_0;
    let f = |j: int| check::part_error(parts@, c, ci, j);
    assert(parts@.len() == c.blocks@.len());
    assert(check::first(f, parts@.len()) is None);
    assert forall|j: int| 0 <= j < c.blocks@.len() implies #[trigger] part_there(
        c.phi->Blocks_0@[j],
        c.blocks@[j],
        c.deg as nat,
    ) by {
        lemma_no_error(f, parts@.len(), j);
        assert(f(j) is None);
        assert(buffer_wf(parts@[j]));
        assert(check::width(parts@[j]));
        let blk = c.blocks@[j];
        let deg = c.deg as nat;
        let size = polx::phi_padded(blk.len as nat, deg) as int;
        if let PhiBlock::Short(sp, off) = parts@[j] {
            let (n, w) = (sp.c@.len() as int, sp.wid as int);
            assert(off + size <= n / w);
            vstd::arithmetic::div_mod::lemma_fundamental_div_mod(n, w);
            assert((off + size) * w <= n) by (nonlinear_arith)
                requires
                    off + size <= n / w,
                    n == w * (n / w) + n % w,
                    0 <= n % w,
                    w > 0,
            ;
        }
    }
}

/// A constraint that passes its tests reads what is there.
proof fn lemma_there(vectors: Seq<VectorSpec>, c: Constraint, q: i64, ci: int)
    requires
        check::constraint_error(vectors, c, q, ci) is None,
        widths(c),
        buffers_wf(c),
    ensures
        there(c),
{
    assert(check::parts_error(c, ci) is None);
    assert(check::source_error(c, q, ci) is None);
    assert(check::b_error(c, q, ci) is None);
    if c.phi is Blocks {
        lemma_parts_there(c, ci);
    }
    if c.phi is Polx {
        // a block has a length, so that elements are read
        let f = |j: int| check::block_error(vectors, c, ci, j);
        assert(check::first(f, c.blocks@.len()) is None);
        lemma_no_error(f, c.blocks@.len(), 0);
        assert(f(0) is None);
        let deg = c.deg as nat;
        if deg > 0 {
            polx::lemma_padded(c.blocks@[0].len as nat, deg);
        }
        reveal_with_fuel(statement::phi_total, 2);
        assert(statement::phi_total(c.blocks@, deg, 1) >= c.blocks@[0].len);
        statement::lemma_total_mono(c.blocks@, deg, 1, c.blocks@.len());
    }
    if let Some(b) = c.b {
        assert(b.held() == rank_of(c.deg));
    }
}

/// The constraints of a statement that passes its tests read what is there.
proof fn lemma_all_there(s: Statement, q: i64)
    requires
        statement_error(s, q) is None,
        forall|i: int|
            0 <= i < s.constraints@.len() ==> widths(#[trigger] s.constraints@[i]) && buffers_wf(
                s.constraints@[i],
            ),
    ensures
        forall|i: int| 0 <= i < s.constraints@.len() ==> there(#[trigger] s.constraints@[i]),
{
    let f = |ci: int| check::constraint_error(s.vectors@, s.constraints@[ci], q, ci);
    assert(check::first(f, s.constraints@.len()) is None);
    assert forall|i: int| 0 <= i < s.constraints@.len() implies there(
        #[trigger] s.constraints@[i],
    ) by {
        lemma_no_error(f, s.constraints@.len(), i);
        assert(f(i) is None);
        lemma_there(s.vectors@, s.constraints@[i], q, i);
    }
}

/// What follows the tag and the modulus.
proof fn lemma_statement_bytes(vectors: Seq<VectorSpec>, constraints: Seq<Constraint>)
    ensures
        statement::statement_bytes(vectors, constraints) == "bin-ntt/labrador/statement/v1".spec_bytes()
            + (word(48) + (word(vectors.len()) + (cat::cat(
            statement::vector_piece(vectors),
            vectors.len(),
        ) + (word(constraints.len()) + (cat::cat(
            statement::constraint_piece(constraints),
            constraints.len(),
        ) + Seq::<u8>::empty()))))),
{
    let v = cat::cat(statement::vector_piece(vectors), vectors.len());
    let c = cat::cat(statement::constraint_piece(constraints), constraints.len());
    let tag = "bin-ntt/labrador/statement/v1".spec_bytes();
    lemma_split(tag, word(48), word(vectors.len()), v, word(constraints.len()), c);
    assert(c + Seq::<u8>::empty() =~= c);
}

/// The digest binds everything: two statements that pass their tests and of which the same bytes are
/// hashed have the same vectors and the same constraints, down to every coefficient of `phi` and `b`.
pub proof fn content_binds(s: Statement, t: Statement, q: i64)
    requires
        statement_error(s, q) is None,
        statement_error(t, q) is None,
        forall|i: int|
            0 <= i < s.constraints@.len() ==> widths(#[trigger] s.constraints@[i]) && buffers_wf(
                s.constraints@[i],
            ),
        forall|i: int|
            0 <= i < t.constraints@.len() ==> widths(#[trigger] t.constraints@[i]) && buffers_wf(
                t.constraints@[i],
            ),
        statement::statement_bytes(s.vectors@, s.constraints@) == statement::statement_bytes(
            t.vectors@,
            t.constraints@,
        ),
    ensures
        same_statement(s, t),
{
    let none = Seq::<u8>::empty();
    let (n1, n2) = (s.constraints@.len(), t.constraints@.len());
    let (c1, c2) = (
        cat::cat(statement::constraint_piece(s.constraints@), n1) + none,
        cat::cat(statement::constraint_piece(t.constraints@), n2) + none,
    );
    let (m1, m2) = (s.vectors@.len(), t.vectors@.len());
    let (v1, v2) = (
        cat::cat(statement::vector_piece(s.vectors@), m1) + (word(n1) + c1),
        cat::cat(statement::vector_piece(t.vectors@), m2) + (word(n2) + c2),
    );
    let tag = "bin-ntt/labrador/statement/v1".spec_bytes();
    lemma_statement_bytes(s.vectors@, s.constraints@);
    lemma_statement_bytes(t.vectors@, t.constraints@);
    lemma_cut(tag, tag, word(48) + (word(m1) + v1), word(48) + (word(m2) + v2));
    lemma_cut(word(48), word(48), word(m1) + v1, word(m2) + v2);
    assert(m1 == s.vectors.len() && m2 == t.vectors.len());
    lemma_word(m1, m2, v1, v2);
    lemma_vectors(s.vectors@, t.vectors@, word(n1) + c1, word(n2) + c2);
    assert(n1 == s.constraints.len() && n2 == t.constraints.len());
    lemma_word(n1, n2, c1, c2);
    lemma_all_there(s, q);
    lemma_all_there(t, q);
    lemma_constraints(s.constraints@, t.constraints@, n1, none, none);
}

} // verus!
