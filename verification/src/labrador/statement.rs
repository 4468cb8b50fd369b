//! Statements and witnesses.
use super::polx;
use super::polx::PolxBuf;
use crate::bytes;
use crate::hash;
use crate::wire::cat;
use crate::wire::rans;
use std::sync::Arc;
use vstd::prelude::*;
use vstd::string::*;

verus! {

/// The largest witness coefficient magnitude the backend can square without overflowing its
/// accumulator lanes: `4 * 23170^2 < 2^31`.
pub const WITNESS_COEFF_MAX: i16 = 23170;

/// One witness vector: `n` ring elements, either l2-norm bounded or binary.
#[derive(Clone, Copy, Debug, PartialEq, Eq)]
pub struct VectorSpec {
    /// Rank: number of ring elements, i.e. `n * 64` integer coefficients.
    pub n: usize,
    /// Exact squared l2-norm bound. Ignored when `binary`.
    pub betasq: u64,
    /// Binary vector: every coefficient in `{0, 1}`.
    pub binary: bool,
}

impl VectorSpec {
    pub fn norm_bounded(n: usize, betasq: u64) -> (r: VectorSpec)
        ensures
            r == (VectorSpec { n, betasq, binary: false }),
    {
        VectorSpec { n, betasq, binary: false }
    }

    pub fn binary(n: usize) -> (r: VectorSpec)
        ensures
            r == (VectorSpec { n, betasq: 0, binary: true }),
    {
        VectorSpec { n, betasq: 0, binary: true }
    }

    /// The bound as the backend reads it: 0 stands for a binary vector.
    pub open spec fn bound(&self) -> u64 {
        if self.binary {
            0
        } else {
            self.betasq
        }
    }

    pub fn c_betasq(&self) -> (r: u64)
        ensures
            r == self.bound(),
    {
        if self.binary {
            0
        } else {
            self.betasq
        }
    }
}

/// A contiguous slice `s[idx][off .. off + len]` of one witness vector.
#[derive(Clone, Copy, Debug, PartialEq, Eq)]
pub struct Block {
    pub idx: usize,
    pub off: usize,
    pub len: usize,
}

impl Block {
    pub fn new(idx: usize, off: usize, len: usize) -> (r: Block)
        ensures
            r == (Block { idx, off, len }),
    {
        Block { idx, off, len }
    }
}

/// Where a constraint's `phi` comes from.
///
/// The owned variants hold the concatenation of the blocks' coefficient polynomials, each block
/// padded to its `phi` length. [`PhiSource::Polx`] aliases an existing buffer starting at the
/// given element, with the blocks one behind the other.
#[derive(Debug)]
pub enum PhiSource {
    Int64(Vec<[i64; 64]>),
    Int16(Vec<[i16; 64]>),
    Polx(Arc<PolxBuf>, usize),
    /// One block descriptor per block, so that blocks of the same constraint can alias buffers
    /// that are shared with other constraints.
    Blocks(Vec<PhiBlock>),
}

/// A `phi` block given in the coefficient domain: element `i` of the block is
/// `sum_t c[i * wid + t] X^(off + t)`, with `off + wid <= 64`.
#[derive(Debug)]
pub struct ShortPhi {
    pub off: usize,
    pub wid: usize,
    pub c: Vec<i16>,
}

impl ShortPhi {
    /// The coefficients fit the ring degree and come `wid` per element.
    pub open spec fn wf(&self) -> bool {
        self.wid > 0 && self.off + self.wid <= 64 && self.c@.len() % (self.wid as nat) == 0
    }

    pub fn new(off: usize, wid: usize, c: Vec<i16>) -> (r: ShortPhi)
        requires
            wid > 0,
            off + wid <= 64,
            c@.len() % (wid as nat) == 0,
        ensures
            r.wf(),
            r == (ShortPhi { off, wid, c }),
    {
        ShortPhi { off, wid, c }
    }

    /// Elements the buffer holds.
    pub fn len(&self) -> (n: usize)
        requires
            self.wid > 0,
        ensures
            n == self.c@.len() / (self.wid as nat),
    {
        self.c.len() / self.wid
    }

    pub fn is_empty(&self) -> (r: bool)
        ensures
            r == (self.c@.len() == 0),
    {
        self.c.len() == 0
    }

    /// Bytes held.
    pub fn bytes(&self) -> (n: usize)
        requires
            self.c@.len() * 2 <= usize::MAX,
        ensures
            n == self.c@.len() * 2,
    {
        self.c.len() * 2
    }
}

/// Where one block of a [`PhiSource::Blocks`] constraint reads its `phi`: transformed elements at
/// an offset into a shared buffer, or `wid` coefficients per element at an element offset into a
/// shared [`ShortPhi`].
#[derive(Debug)]
pub enum PhiBlock {
    Polx(Arc<PolxBuf>, usize),
    Short(Arc<ShortPhi>, usize),
}

impl PhiSource {
    pub fn polx(buf: Arc<PolxBuf>) -> (r: PhiSource)
        ensures
            r == PhiSource::Polx(buf, 0),
    {
        PhiSource::Polx(buf, 0)
    }

    /// The polynomials the source holds; a per-block source has no count of its own.
    pub open spec fn held(&self) -> nat {
        match self {
            PhiSource::Int64(v) => v@.len(),
            PhiSource::Int16(v) => v@.len(),
            PhiSource::Polx(buf, base) => if buf.count >= *base {
                (buf.count - *base) as nat
            } else {
                0
            },
            PhiSource::Blocks(_) => usize::MAX as nat,
        }
    }

    pub(crate) fn source_len(&self) -> (n: usize)
        ensures
            n == self.held(),
    {
        match self {
            PhiSource::Int64(v) => v.len(),
            PhiSource::Int16(v) => v.len(),
            PhiSource::Polx(buf, base) => {
                let n: usize = buf.len();
                let b: usize = *base;
                if n >= b {
                    n - b
                } else {
                    0
                }
            },
            PhiSource::Blocks(_) => usize::MAX,
        }
    }
}

/// A constraint's right-hand side, `max(1, deg)` ring elements.
#[derive(Debug)]
pub enum BSource {
    Int64(Vec<[i64; 64]>),
    Polx(Arc<PolxBuf>),
}

impl BSource {
    pub open spec fn held(&self) -> nat {
        match self {
            BSource::Int64(v) => v@.len(),
            BSource::Polx(buf) => buf.count as nat,
        }
    }

    pub(crate) fn len(&self) -> (n: usize)
        ensures
            n == self.held(),
    {
        match self {
            BSource::Int64(v) => v.len(),
            BSource::Polx(buf) => buf.len(),
        }
    }
}

/// One dot-product constraint.
#[derive(Debug)]
pub struct Constraint {
    /// Extension degree. `0` is a constant-coefficient constraint: only the constant coefficient
    /// of the linear form has to match `b`, and `phi` is one ring element per witness polynomial.
    pub deg: usize,
    pub blocks: Vec<Block>,
    pub phi: PhiSource,
    pub b: Option<BSource>,
}

/// The `phi` length of the first `n` blocks.
pub open spec fn phi_total(blocks: Seq<Block>, deg: nat, n: nat) -> nat
    decreases n,
{
    if n == 0 {
        0
    } else {
        phi_total(blocks, deg, (n - 1) as nat) + polx::phi_padded(blocks[n - 1].len as nat, deg)
    }
}

pub proof fn lemma_total_mono(blocks: Seq<Block>, deg: nat, a: nat, b: nat)
    requires
        a <= b,
    ensures
        phi_total(blocks, deg, a) <= phi_total(blocks, deg, b),
    decreases b,
{
    if a < b {
        lemma_total_mono(blocks, deg, a, (b - 1) as nat);
    }
}

impl Constraint {
    pub fn new(deg: usize, blocks: Vec<Block>, phi: PhiSource, b: Option<BSource>) -> (r: Constraint)
        ensures
            r == (Constraint { deg, blocks, phi, b }),
    {
        Constraint { deg, blocks, phi, b }
    }

    /// Total `phi` length.
    pub open spec fn total(&self) -> nat {
        phi_total(self.blocks@, self.deg as nat, self.blocks@.len())
    }

    /// Total `phi` length: the blocks' lengths, each padded.
    pub fn phi_len(&self) -> (n: usize)
        requires
            self.total() <= usize::MAX,
        ensures
            n == self.total(),
    {
        self.phi_offset(self.blocks.len())
    }

    /// Offset of block `j` within `phi`.
    pub fn phi_offset(&self, j: usize) -> (n: usize)
        requires
            j <= self.blocks@.len(),
            phi_total(self.blocks@, self.deg as nat, j as nat) <= usize::MAX,
        ensures
            n == phi_total(self.blocks@, self.deg as nat, j as nat),
    {
        let mut n: usize = 0;
        let mut i: usize = 0;
        while i < j
            invariant
                i <= j <= self.blocks@.len(),
                phi_total(self.blocks@, self.deg as nat, j as nat) <= usize::MAX,
                n == phi_total(self.blocks@, self.deg as nat, i as nat),
            decreases j - i,
        {
            proof {
                lemma_total_mono(self.blocks@, self.deg as nat, (i + 1) as nat, j as nat);
            }
            n = n + polx::philen(self.blocks[i].len, self.deg);
            i += 1;
        }
        n
    }
}

/// A statement: witness vectors and the constraints on them.
#[derive(Debug)]
pub struct Statement {
    pub vectors: Vec<VectorSpec>,
    pub constraints: Vec<Constraint>,
    /// The 32 bytes that bind the whole statement.
    pub digest: [u8; 32],
}

// ---------------------------------------------------------------------------------------------
// the digest
// ---------------------------------------------------------------------------------------------

/// A count as eight bytes.
pub open spec fn word(x: nat) -> Seq<u8> {
    bytes::le(x, 8)
}

/// A signed integer of `n` bytes, in two's complement.
pub open spec fn signed(x: int, n: nat) -> Seq<u8> {
    bytes::le(
        (if x < 0 {
            x + bytes::radix(n)
        } else {
            x
        }) as nat,
        n,
    )
}

/// A vector's rank, bound and kind.
pub open spec fn vector_bytes(v: VectorSpec) -> Seq<u8> {
    word(v.n as nat) + word(v.bound() as nat) + seq![
        if v.binary {
            1u8
        } else {
            0u8
        },
    ]
}

/// A block's vector, offset and length.
pub open spec fn block_bytes(b: Block) -> Seq<u8> {
    word(b.idx as nat) + word(b.off as nat) + word(b.len as nat)
}

/// The coefficients of wide polynomials.
pub open spec fn wide_bytes(v: Seq<[i64; 64]>) -> Seq<u8> {
    cat::cat(wide_piece(v), v.len())
}

pub open spec fn wide_piece(v: Seq<[i64; 64]>) -> spec_fn(int) -> Seq<u8> {
    |i: int| cat::cat(word_piece(v[i]@), 64)
}

pub open spec fn word_piece(p: Seq<i64>) -> spec_fn(int) -> Seq<u8> {
    |t: int| signed(p[t] as int, 8)
}

/// The coefficients of narrow polynomials.
pub open spec fn narrow_bytes(v: Seq<[i16; 64]>) -> Seq<u8> {
    cat::cat(narrow_piece(v), v.len())
}

pub open spec fn narrow_piece(v: Seq<[i16; 64]>) -> spec_fn(int) -> Seq<u8> {
    |i: int| short_bytes(v[i]@)
}

/// Two-byte coefficients.
pub open spec fn short_bytes(c: Seq<i16>) -> Seq<u8> {
    cat::cat(short_piece(c), c.len())
}

pub open spec fn short_piece(c: Seq<i16>) -> spec_fn(int) -> Seq<u8> {
    |t: int| signed(c[t] as int, 2)
}

/// The bytes of the transformed elements `from .. to`, as far as the buffer goes.
pub open spec fn window(b: Seq<u8>, from: nat, to: nat) -> Seq<u8> {
    b.subrange(clamped(from * 1024, b.len()), clamped(to * 1024, b.len()))
}

pub open spec fn clamped(x: nat, n: nat) -> int {
    if x <= n {
        x as int
    } else {
        n as int
    }
}

/// What is hashed of one block of a per-block `phi`.
pub open spec fn part_bytes(part: PhiBlock, blk: Block, deg: nat) -> Seq<u8> {
    match part {
        PhiBlock::Polx(buf, off) => "p".spec_bytes() + window(
            buf.bytes@,
            off as nat,
            off as nat + polx::phi_padded(blk.len as nat, deg),
        ),
        PhiBlock::Short(sp, off) => "s".spec_bytes() + word(sp.off as nat) + word(sp.wid as nat)
            + short_bytes(
            sp.c@.subrange(
                off * sp.wid,
                (off + polx::phi_padded(blk.len as nat, deg)) * sp.wid,
            ),
        ),
    }
}

pub open spec fn part_piece(
    parts: Seq<PhiBlock>,
    blocks: Seq<Block>,
    deg: nat,
) -> spec_fn(int) -> Seq<u8> {
    |j: int| part_bytes(parts[j], blocks[j], deg)
}

/// The number of blocks that have a descriptor.
pub open spec fn paired(parts: Seq<PhiBlock>, blocks: Seq<Block>) -> nat {
    if parts.len() <= blocks.len() {
        parts.len()
    } else {
        blocks.len()
    }
}

/// What is hashed of a `phi`.
pub open spec fn phi_bytes(c: Constraint) -> Seq<u8> {
    match c.phi {
        PhiSource::Int64(v) => "i64".spec_bytes() + word(v@.len()) + wide_bytes(v@),
        PhiSource::Int16(v) => "i16".spec_bytes() + word(v@.len()) + narrow_bytes(v@),
        PhiSource::Polx(buf, base) => "plx".spec_bytes() + window(
            buf.bytes@,
            base as nat,
            base as nat + c.total(),
        ),
        PhiSource::Blocks(parts) => "blk".spec_bytes() + cat::cat(
            part_piece(parts@, c.blocks@, c.deg as nat),
            paired(parts@, c.blocks@),
        ),
    }
}

/// What is hashed of a right-hand side.
pub open spec fn b_bytes(b: Option<BSource>) -> Seq<u8> {
    match b {
        None => "hom".spec_bytes(),
        Some(BSource::Int64(v)) => "bi64".spec_bytes() + wide_bytes(v@),
        Some(BSource::Polx(buf)) => "bplx".spec_bytes() + buf.bytes@,
    }
}

pub open spec fn block_piece(blocks: Seq<Block>) -> spec_fn(int) -> Seq<u8> {
    |j: int| block_bytes(blocks[j])
}

/// A constraint's degree, blocks, `phi` and right-hand side.
pub open spec fn constraint_bytes(c: Constraint) -> Seq<u8> {
    word(c.deg as nat) + word(c.blocks@.len()) + cat::cat(block_piece(c.blocks@), c.blocks@.len())
        + phi_bytes(c) + b_bytes(c.b)
}

pub open spec fn vector_piece(v: Seq<VectorSpec>) -> spec_fn(int) -> Seq<u8> {
    |i: int| vector_bytes(v[i])
}

pub open spec fn constraint_piece(c: Seq<Constraint>) -> spec_fn(int) -> Seq<u8> {
    |i: int| constraint_bytes(c[i])
}

/// What stands before the constraints.
pub open spec fn head_bytes(vectors: Seq<VectorSpec>, count: nat) -> Seq<u8> {
    "bin-ntt/labrador/statement/v1".spec_bytes() + word(48) + word(vectors.len()) + cat::cat(
        vector_piece(vectors),
        vectors.len(),
    ) + word(count)
}

/// Everything the digest binds.
pub open spec fn statement_bytes(vectors: Seq<VectorSpec>, constraints: Seq<Constraint>) -> Seq<u8> {
    head_bytes(vectors, constraints.len()) + cat::cat(
        constraint_piece(constraints),
        constraints.len(),
    )
}

/// Every block's `phi` length is a count.
pub open spec fn countable(c: Constraint) -> bool {
    forall|j: int|
        0 <= j < c.blocks@.len() ==> polx::phi_padded(
            (#[trigger] c.blocks@[j]).len as nat,
            c.deg as nat,
        ) <= usize::MAX
}

/// The coefficients a per-block `phi` names are there.
pub open spec fn readable(c: Constraint) -> bool {
    match c.phi {
        PhiSource::Blocks(parts) => countable(c) && forall|j: int|
            0 <= j < paired(parts@, c.blocks@) ==> readable_part(
                #[trigger] parts@[j],
                c.blocks@[j],
                c.deg as nat,
            ),
        PhiSource::Polx(_, _) => countable(c),
        _ => true,
    }
}

pub open spec fn readable_part(part: PhiBlock, blk: Block, deg: nat) -> bool {
    match part {
        PhiBlock::Polx(_, _) => true,
        PhiBlock::Short(sp, off) => (off + polx::phi_padded(blk.len as nat, deg)) * sp.wid
            <= sp.c@.len(),
    }
}

/// The statement can be hashed.
pub open spec fn hashable(vectors: Seq<VectorSpec>, constraints: Seq<Constraint>) -> bool {
    &&& forall|i: int| 0 <= i < constraints.len() ==> readable(#[trigger] constraints[i])
    &&& statement_bytes(vectors, constraints).len() <= u64::MAX
}

fn push_word(out: &mut Vec<u8>, x: usize)
    ensures
        final(out)@ == old(out)@ + word(x as nat),
{
    bytes::push_le(out, x as u128, 8);
}

fn push_i16(out: &mut Vec<u8>, x: i16)
    ensures
        final(out)@ == old(out)@ + signed(x as int, 2),
{
    proof {
        bytes::lemma_radix_values();
    }
    let w: u128 = if x < 0 {
        (x as i32 + 0x1_0000) as u128
    } else {
        x as u128
    };
    bytes::push_le(out, w, 2);
}

fn push_i64(out: &mut Vec<u8>, x: i64)
    ensures
        final(out)@ == old(out)@ + signed(x as int, 8),
{
    proof {
        bytes::lemma_radix_values();
    }
    let w: u128 = if x < 0 {
        (x as i128 + 0x1_0000_0000_0000_0000) as u128
    } else {
        x as u128
    };
    bytes::push_le(out, w, 8);
}

fn push_wide(out: &mut Vec<u8>, v: &Vec<[i64; 64]>)
    ensures
        final(out)@ == old(out)@ + wide_bytes(v@),
{
    let ghost start = out@;
    assert(start + cat::cat(wide_piece(v@), 0) =~= start);
    let mut i: usize = 0;
    while i < v.len()
        invariant
            i <= v@.len(),
            out@ == start + cat::cat(wide_piece(v@), i as nat),
        decreases v@.len() - i,
    {
        let ghost base = out@;
        let ghost p = v@[i as int]@;
        assert(base + cat::cat(word_piece(p), 0) =~= base);
        let mut t: usize = 0;
        while t < 64
            invariant
                t <= 64,
                i < v@.len(),
                p == v@[i as int]@,
                out@ == base + cat::cat(word_piece(p), t as nat),
            decreases 64 - t,
        {
            let x: i64 = v[i][t];
            push_i64(out, x);
            assert(word_piece(p)(t as int) == signed(x as int, 8));
            assert(out@ =~= base + cat::cat(word_piece(p), (t + 1) as nat));
            t += 1;
        }
        assert(wide_piece(v@)(i as int) == cat::cat(word_piece(p), 64));
        assert(out@ =~= start + cat::cat(wide_piece(v@), (i + 1) as nat));
        i += 1;
    }
}

/// Appends the coefficients `from .. to`.
fn push_short(out: &mut Vec<u8>, c: &[i16], from: usize, to: usize)
    requires
        from <= to <= c@.len(),
    ensures
        final(out)@ == old(out)@ + short_bytes(c@.subrange(from as int, to as int)),
{
    let ghost start = out@;
    let ghost s = c@.subrange(from as int, to as int);
    assert(start + cat::cat(short_piece(s), 0) =~= start);
    let mut t: usize = from;
    while t < to
        invariant
            from <= t <= to <= c@.len(),
            s == c@.subrange(from as int, to as int),
            out@ == start + cat::cat(short_piece(s), (t - from) as nat),
        decreases to - t,
    {
        push_i16(out, c[t]);
        proof {
            let k = t - from;
            assert(short_piece(s)(k) == signed(c@[t as int] as int, 2));
            assert(out@ =~= start + cat::cat(short_piece(s), (k + 1) as nat));
        }
        t += 1;
    }
}

fn push_narrow(out: &mut Vec<u8>, v: &Vec<[i16; 64]>)
    ensures
        final(out)@ == old(out)@ + narrow_bytes(v@),
{
    let ghost start = out@;
    assert(start + cat::cat(narrow_piece(v@), 0) =~= start);
    let mut i: usize = 0;
    while i < v.len()
        invariant
            i <= v@.len(),
            out@ == start + cat::cat(narrow_piece(v@), i as nat),
        decreases v@.len() - i,
    {
        let p: [i16; 64] = v[i];
        push_short(out, &p, 0, 64);
        assert(p@.subrange(0, 64) =~= p@);
        assert(narrow_piece(v@)(i as int) == short_bytes(p@));
        assert(out@ =~= start + cat::cat(narrow_piece(v@), (i + 1) as nat));
        i += 1;
    }
}

/// Appends the transformed elements `from .. from + count`, as far as the buffer goes.
fn push_window(out: &mut Vec<u8>, b: &[u8], from: usize, count: u128)
    requires
        count <= 0xFFFF_FFFF_FFFF_FFFF * 0xFFFF_FFFF_FFFF_FFFF,
    ensures
        final(out)@ == old(out)@ + window(b@, from as nat, (from + count) as nat),
{
    let len: usize = b.len();
    let start: usize = if from as u128 * 1024 <= len as u128 {
        from * 1024
    } else {
        len
    };
    let last: u128 = if count >= 0x1_0000_0000_0000_0000 {
        len as u128
    } else if (from as u128 + count) * 1024 <= len as u128 {
        (from as u128 + count) * 1024
    } else {
        len as u128
    };
    rans::push_all(out, vstd::slice::slice_subrange(b, start, last as usize));
}

/// The `phi` length of a constraint, in any number of bits.
pub(crate) fn wide_phi_len(c: &Constraint) -> (n: u128)
    requires
        countable(*c),
    ensures
        n == c.total(),
        n <= 0xFFFF_FFFF_FFFF_FFFF * 0xFFFF_FFFF_FFFF_FFFF,
{
    let mut n: u128 = 0;
    let count: usize = c.blocks.len();
    let mut i: usize = 0;
    while i < count
        invariant
            i <= count == c.blocks@.len(),
            countable(*c),
            n == phi_total(c.blocks@, c.deg as nat, i as nat),
            n <= i * 0xFFFF_FFFF_FFFF_FFFF,
        decreases count - i,
    {
        n = n + polx::philen(c.blocks[i].len, c.deg) as u128;
        i += 1;
    }
    n
}

/// What is hashed of a `phi`, appended.
fn push_phi(out: &mut Vec<u8>, c: &Constraint)
    requires
        readable(*c),
    ensures
        final(out)@ == old(out)@ + phi_bytes(*c),
{
    let ghost start = out@;
    match &c.phi {
        PhiSource::Int64(v) => {
            rans::push_all(out, "i64".as_bytes());
            push_word(out, v.len());
            push_wide(out, v);
        },
        PhiSource::Int16(v) => {
            rans::push_all(out, "i16".as_bytes());
            push_word(out, v.len());
            push_narrow(out, v);
        },
        PhiSource::Polx(buf, base) => {
            rans::push_all(out, "plx".as_bytes());
            let n: u128 = wide_phi_len(c);
            push_window(out, buf.as_bytes(), *base, n);
        },
        PhiSource::Blocks(parts) => {
            rans::push_all(out, "blk".as_bytes());
            let ghost base = out@;
            let ghost f = part_piece(parts@, c.blocks@, c.deg as nat);
            assert(base + cat::cat(f, 0) =~= base);
            let mut j: usize = 0;
            while j < parts.len() && j < c.blocks.len()
                invariant
                    j <= paired(parts@, c.blocks@),
                    countable(*c),
                    forall|j: int|
                        0 <= j < paired(parts@, c.blocks@) ==> readable_part(
                            #[trigger] parts@[j],
                            c.blocks@[j],
                            c.deg as nat,
                        ),
                    f == part_piece(parts@, c.blocks@, c.deg as nat),
                    out@ == base + cat::cat(f, j as nat),
                decreases paired(parts@, c.blocks@) - j,
            {
                let ghost here = out@;
                push_part(out, &parts[j], &c.blocks[j], c.deg);
                assert(f(j as int) == part_bytes(parts@[j as int], c.blocks@[j as int], c.deg as nat));
                assert(out@ =~= base + cat::cat(f, (j + 1) as nat));
                j += 1;
            }
        },
    }
    assert(out@ =~= start + phi_bytes(*c));
}

/// What is hashed of one block of a per-block `phi`, appended.
fn push_part(out: &mut Vec<u8>, part: &PhiBlock, blk: &Block, deg: usize)
    requires
        readable_part(*part, *blk, deg as nat),
        polx::phi_padded(blk.len as nat, deg as nat) <= usize::MAX,
    ensures
        final(out)@ == old(out)@ + part_bytes(*part, *blk, deg as nat),
{
    let ghost start = out@;
    match part {
        PhiBlock::Polx(buf, off) => {
            rans::push_all(out, "p".as_bytes());
            let n: usize = polx::philen(blk.len, deg);
            push_window(out, buf.as_bytes(), *off, n as u128);
        },
        PhiBlock::Short(sp, off) => {
            rans::push_all(out, "s".as_bytes());
            push_word(out, sp.off);
            push_word(out, sp.wid);
            let n: usize = polx::philen(blk.len, deg);
            let total: usize = sp.c.len();
            let (o, w): (usize, usize) = (*off, sp.wid);
            proof {
                let (x, l, w) = (o as int, n as int, w as int);
                assert((x + l) * w == x * w + l * w && 0 <= x * w && 0 <= l * w)
                    by (nonlinear_arith)
                    requires
                        0 <= x,
                        0 <= l,
                        0 <= w,
                ;
            }
            let from: usize = o * w;
            let wide: usize = n * w;
            push_short(out, sp.c.as_slice(), from, from + wide);
        },
    }
    assert(out@ =~= start + part_bytes(*part, *blk, deg as nat));
}

/// What is hashed of a right-hand side, appended.
fn push_b(out: &mut Vec<u8>, b: &Option<BSource>)
    ensures
        final(out)@ == old(out)@ + b_bytes(*b),
{
    let ghost start = out@;
    match b {
        None => {
            rans::push_all(out, "hom".as_bytes());
        },
        Some(BSource::Int64(v)) => {
            rans::push_all(out, "bi64".as_bytes());
            push_wide(out, v);
        },
        Some(BSource::Polx(buf)) => {
            rans::push_all(out, "bplx".as_bytes());
            rans::push_all(out, buf.as_bytes());
        },
    }
    assert(out@ =~= start + b_bytes(*b));
}

/// What is hashed of a constraint.
fn constraint_input(c: &Constraint) -> (out: Vec<u8>)
    requires
        readable(*c),
    ensures
        out@ == constraint_bytes(*c),
{
    let mut out: Vec<u8> = Vec::new();
    push_word(&mut out, c.deg);
    push_word(&mut out, c.blocks.len());
    let ghost base = out@;
    let ghost f = block_piece(c.blocks@);
    assert(base + cat::cat(f, 0) =~= base);
    let mut j: usize = 0;
    while j < c.blocks.len()
        invariant
            j <= c.blocks@.len(),
            f == block_piece(c.blocks@),
            out@ == base + cat::cat(f, j as nat),
        decreases c.blocks@.len() - j,
    {
        let b = c.blocks[j];
        push_word(&mut out, b.idx);
        push_word(&mut out, b.off);
        push_word(&mut out, b.len);
        assert(f(j as int) == block_bytes(b));
        assert(out@ =~= base + cat::cat(f, (j + 1) as nat));
        j += 1;
    }
    push_phi(&mut out, c);
    push_b(&mut out, &c.b);
    assert(out@ =~= constraint_bytes(*c));
    out
}

/// What is hashed before the constraints.
fn head_input(vectors: &Vec<VectorSpec>, count: usize) -> (out: Vec<u8>)
    ensures
        out@ == head_bytes(vectors@, count as nat),
{
    let mut out: Vec<u8> = Vec::new();
    rans::push_all(&mut out, "bin-ntt/labrador/statement/v1".as_bytes());
    push_word(&mut out, polx::logq());
    push_word(&mut out, vectors.len());
    let ghost base = out@;
    let ghost f = vector_piece(vectors@);
    assert(base + cat::cat(f, 0) =~= base);
    let mut i: usize = 0;
    while i < vectors.len()
        invariant
            i <= vectors@.len(),
            f == vector_piece(vectors@),
            out@ == base + cat::cat(f, i as nat),
        decreases vectors@.len() - i,
    {
        let v = vectors[i];
        push_word(&mut out, v.n);
        bytes::push_le(&mut out, v.c_betasq() as u128, 8);
        out.push(
            if v.binary {
                1
            } else {
                0
            },
        );
        assert(f(i as int) == vector_bytes(v));
        assert(out@ =~= base + cat::cat(f, (i + 1) as nat));
        i += 1;
    }
    push_word(&mut out, count);
    assert(out@ =~= head_bytes(vectors@, count as nat));
    out
}

/// The digest of a statement's parts.
fn digest_of(vectors: &Vec<VectorSpec>, constraints: &Vec<Constraint>) -> (d: [u8; 32])
    requires
        hashable(vectors@, constraints@),
    ensures
        d@ == hash::hash_bytes(Seq::<u8>::empty(), statement_bytes(vectors@, constraints@)),
{
    let mut h = hash::new_hasher();
    let head = head_input(vectors, constraints.len());
    let ghost f = constraint_piece(constraints@);
    let ghost n = constraints@.len();
    assert(Seq::<u8>::empty() + head@ =~= head@);
    assert(head@ + cat::cat(f, 0) =~= head@);
    hash::update(&mut h, head.as_slice());
    let mut i: usize = 0;
    while i < constraints.len()
        invariant
            i <= n == constraints@.len(),
            hashable(vectors@, constraints@),
            f == constraint_piece(constraints@),
            head@ == head_bytes(vectors@, n),
            hash::hasher_key(h) == Seq::<u8>::empty(),
            hash::hasher_input(h) == head@ + cat::cat(f, i as nat),
        decreases n - i,
    {
        proof {
            cat::lemma_slice(f, n, i as nat);
        }
        let b = constraint_input(&constraints[i]);
        hash::update(&mut h, b.as_slice());
        assert(hash::hasher_input(h) =~= head@ + cat::cat(f, (i + 1) as nat));
        i += 1;
    }
    hash::digest(&h)
}

impl Statement {
    /// The statement with the digest of its contents.
    pub fn new(vectors: Vec<VectorSpec>, constraints: Vec<Constraint>) -> (r: Statement)
        requires
            hashable(vectors@, constraints@),
        ensures
            r.vectors == vectors,
            r.constraints == constraints,
            r.digest@ == r.content(),
    {
        let digest = digest_of(&vectors, &constraints);
        Statement { vectors, constraints, digest }
    }

    /// The same with a digest the caller derives instead, for a statement that is already a
    /// deterministic function of a transcript.
    pub fn with_digest(
        vectors: Vec<VectorSpec>,
        constraints: Vec<Constraint>,
        digest: [u8; 32],
    ) -> (r: Statement)
        ensures
            r == (Statement { vectors, constraints, digest }),
    {
        Statement { vectors, constraints, digest }
    }

    /// The digest of the contents.
    pub open spec fn content(&self) -> Seq<u8> {
        hash::hash_bytes(
            Seq::<u8>::empty(),
            statement_bytes(self.vectors@, self.constraints@),
        )
    }

    /// Total rank over all vectors.
    pub fn total_rank(&self) -> (n: usize)
        requires
            rank_sum(self.vectors@, self.vectors@.len()) <= usize::MAX,
        ensures
            n == rank_sum(self.vectors@, self.vectors@.len()),
    {
        let mut n: usize = 0;
        let mut i: usize = 0;
        while i < self.vectors.len()
            invariant
                i <= self.vectors@.len(),
                rank_sum(self.vectors@, self.vectors@.len()) <= usize::MAX,
                n == rank_sum(self.vectors@, i as nat),
            decreases self.vectors@.len() - i,
        {
            proof {
                lemma_rank_mono(self.vectors@, (i + 1) as nat, self.vectors@.len());
            }
            n = n + self.vectors[i].n;
            i += 1;
        }
        n
    }

    /// A digest binding every input of the statement: the vector specs, and for each constraint
    /// its degree, blocks, `phi` and `b`. Owned `phi` and `b` are hashed in their canonical
    /// coefficient form, aliased buffers as the bytes the prover will read.
    pub fn content_digest(&self) -> (d: [u8; 32])
        requires
            hashable(self.vectors@, self.constraints@),
        ensures
            d@ == self.content(),
    {
        digest_of(&self.vectors, &self.constraints)
    }

    /// Recomputes the digest from the contents.
    pub fn reseal(&mut self)
        requires
            hashable(old(self).vectors@, old(self).constraints@),
        ensures
            final(self).vectors == old(self).vectors,
            final(self).constraints == old(self).constraints,
            final(self).digest@ == old(self).content(),
    {
        let d = digest_of(&self.vectors, &self.constraints);
        self.digest = d;
    }
}

/// The ranks of the first `n` vectors.
pub open spec fn rank_sum(v: Seq<VectorSpec>, n: nat) -> nat
    decreases n,
{
    if n == 0 {
        0
    } else {
        rank_sum(v, (n - 1) as nat) + v[n - 1].n as nat
    }
}

proof fn lemma_rank_mono(v: Seq<VectorSpec>, a: nat, b: nat)
    requires
        a <= b,
    ensures
        rank_sum(v, a) <= rank_sum(v, b),
    decreases b,
{
    if a < b {
        lemma_rank_mono(v, a, (b - 1) as nat);
    }
}

/// A witness: `n * 64` coefficients per vector.
#[derive(Clone, Debug)]
pub struct Witness {
    pub vectors: Vec<Vec<i16>>,
}

/// The sum of the squares of the first `n` coefficients.
pub open spec fn square_sum(v: Seq<i16>, n: nat) -> nat
    decreases n,
{
    if n == 0 {
        0
    } else {
        (square_sum(v, (n - 1) as nat) + v[n - 1] * v[n - 1]) as nat
    }
}

/// The squared norm, in any number of bits.
pub(crate) fn wide_normsq(v: &Vec<i16>) -> (n: u128)
    ensures
        n == square_sum(v@, v@.len()),
{
    let mut n: u128 = 0;
    let count: usize = v.len();
    let mut i: usize = 0;
    while i < count
        invariant
            i <= count == v@.len(),
            n == square_sum(v@, i as nat),
            n <= i * 0x4000_0000,
        decreases count - i,
    {
        let x: i64 = v[i] as i64;
        proof {
            let y = x as int;
            assert(0 <= y * y <= 0x4000_0000) by (nonlinear_arith)
                requires
                    -0x8000 <= y <= 0x8000,
            ;
        }
        n = n + (x * x) as u128;
        i += 1;
    }
    n
}

impl Witness {
    pub fn new(vectors: Vec<Vec<i16>>) -> (r: Witness)
        ensures
            r.vectors == vectors,
    {
        Witness { vectors }
    }

    /// Squared l2-norm of vector `i`.
    pub fn normsq(&self, i: usize) -> (n: u64)
        requires
            i < self.vectors@.len(),
            square_sum(
                self.vectors@[i as int]@,
                self.vectors@[i as int]@.len(),
            ) <= u64::MAX,
        ensures
            n == square_sum(self.vectors@[i as int]@, self.vectors@[i as int]@.len()),
    {
        wide_normsq(&self.vectors[i]) as u64
    }
}

/// A commitment-key length that covers a statement of this total witness rank: one and a half
/// times the rank, rounded up to the chunk of 32 the key is expanded in.
pub fn comkey_len_for_rank(total_rank: usize) -> (n: usize)
    requires
        total_rank * 3 + 64 <= usize::MAX,
    ensures
        n == (total_rank as nat * 3 / 2 + 31) / 32 * 32,
        n % 32 == 0,
        3 * total_rank <= 2 * n + 1,
        2 * n < 3 * total_rank + 64,
{
    (total_rank * 3 / 2 + 31) / 32 * 32
}


/// The total rank counts every vector: that of two lists joined is the sum of theirs, and that of one
/// vector is its own.
pub proof fn ranks_add_up(a: Seq<VectorSpec>, b: Seq<VectorSpec>, v: VectorSpec)
    ensures
        rank_sum(a + b, a.len() + b.len()) == rank_sum(a, a.len()) + rank_sum(b, b.len()),
        rank_sum(seq![v], 1) == v.n,
    decreases b.len(),
{
    reveal_with_fuel(rank_sum, 2);
    if b.len() == 0 {
        assert(a + b =~= a);
    } else {
        let c = b.drop_last();
        ranks_add_up(a, c, v);
        lemma_rank_prefix(a + b, a + c, a.len() + c.len());
        lemma_rank_prefix(b, c, c.len());
    }
}

proof fn lemma_rank_prefix(a: Seq<VectorSpec>, b: Seq<VectorSpec>, n: nat)
    requires
        forall|i: int| 0 <= i < n ==> (#[trigger] a[i]) == b[i],
    ensures
        rank_sum(a, n) == rank_sum(b, n),
    decreases n,
{
    if n > 0 {
        lemma_rank_prefix(a, b, (n - 1) as nat);
    }
}

} // verus!
