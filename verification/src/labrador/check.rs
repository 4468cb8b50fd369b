//! The tests a statement and a witness pass before they reach the backend.
use super::polx;
use super::statement;
use super::statement::{
    BSource, Block, Constraint, PhiBlock, PhiSource, Statement, VectorSpec, Witness,
    WITNESS_COEFF_MAX,
};
use vstd::prelude::*;

verus! {

/// Why a statement is refused.
#[derive(Clone, Copy, PartialEq, Eq, Debug)]
pub enum StatementError {
    NoVectors,
    NoConstraints,
    /// A vector of rank 0.
    RankZero { vector: usize },
    /// A norm bound of 0 on a vector that is not binary.
    ZeroBound { vector: usize },
    /// A norm bound past half the modulus, on a vector that is not binary.
    BoundTooLarge { vector: usize, betasq: u64 },
    NoBlocks { constraint: usize },
    /// A block of a vector that does not exist.
    BlockIndex { constraint: usize, block: usize, idx: usize },
    EmptyBlock { constraint: usize, block: usize },
    /// The end of the block is no count.
    BlockOverflow { constraint: usize, block: usize },
    /// The block runs past its vector.
    BlockSpan { constraint: usize, block: usize, end: usize },
    /// As many `phi` blocks as witness blocks are needed.
    PhiBlockCount { constraint: usize, parts: usize, blocks: usize },
    PhiBlockEnd { constraint: usize, block: usize },
    /// The coefficients of a short block do not fit the ring degree.
    ShortSpan { constraint: usize, block: usize },
    ShortEnd { constraint: usize, block: usize },
    /// Too few polynomials in `phi`.
    PhiLen { constraint: usize, has: usize, wants: u128 },
    /// A `phi` coefficient outside `[0, q)`.
    PhiRange { constraint: usize },
    /// Not `max(1, deg)` polynomials in `b`.
    BLen { constraint: usize, has: usize, needs: usize },
    /// A `b` coefficient outside `[0, q)`.
    BRange { constraint: usize },
}

/// Why a witness is refused.
#[derive(Clone, Copy, PartialEq, Eq, Debug)]
pub enum WitnessError {
    VectorCount { statement: usize, witness: usize },
    /// `64 n` is no count.
    RankOverflow { vector: usize },
    Length { vector: usize, has: usize, wants: usize },
    /// A coefficient of a binary vector that is neither 0 nor 1.
    NotBinary { vector: usize, coefficient: i16 },
    /// A coefficient the backend's norm accumulator cannot square.
    TooLarge { vector: usize },
    Norm { vector: usize, normsq: u128, betasq: u64 },
}

/// The first of `f(0)`, .., `f(n - 1)` that is an error.
pub open spec fn first<E>(f: spec_fn(int) -> Option<E>, n: nat) -> Option<E>
    decreases n,
{
    if n == 0 {
        None
    } else {
        match first(f, (n - 1) as nat) {
            Some(e) => Some(e),
            None => f(n - 1),
        }
    }
}

/// An error stays the first one.
pub proof fn lemma_first<E>(f: spec_fn(int) -> Option<E>, n: nat, m: nat)
    requires
        n <= m,
        first(f, n) is Some,
    ensures
        first(f, m) == first(f, n),
    decreases m,
{
    if n < m {
        lemma_first(f, n, (m - 1) as nat);
    }
}

/// The larger of 1 and the degree.
pub open spec fn rank_of(deg: usize) -> usize {
    if deg == 0 {
        1
    } else {
        deg
    }
}

pub open spec fn vector_error(v: VectorSpec, i: int) -> Option<StatementError> {
    if v.n == 0 {
        Some(StatementError::RankZero { vector: i as usize })
    } else if !v.binary && v.betasq == 0 {
        Some(StatementError::ZeroBound { vector: i as usize })
    } else if !v.binary && v.betasq >= 0x8000_0000_0000 {
        Some(StatementError::BoundTooLarge { vector: i as usize, betasq: v.betasq })
    } else {
        None
    }
}

/// The end of a block.
pub open spec fn block_end(blk: Block, deg: usize) -> nat {
    blk.off as nat + polx::padded(blk.len as nat, rank_of(deg) as nat)
}

pub open spec fn block_error(
    vectors: Seq<VectorSpec>,
    c: Constraint,
    ci: int,
    j: int,
) -> Option<StatementError> {
    let (constraint, block, blk) = (ci as usize, j as usize, c.blocks@[j]);
    if blk.idx >= vectors.len() {
        Some(StatementError::BlockIndex { constraint, block, idx: blk.idx })
    } else if blk.len == 0 {
        Some(StatementError::EmptyBlock { constraint, block })
    } else if block_end(blk, c.deg) > usize::MAX {
        Some(StatementError::BlockOverflow { constraint, block })
    } else if block_end(blk, c.deg) > vectors[blk.idx as int].n {
        Some(
            StatementError::BlockSpan { constraint, block, end: block_end(blk, c.deg) as usize },
        )
    } else {
        None
    }
}

pub open spec fn part_error(
    parts: Seq<PhiBlock>,
    c: Constraint,
    ci: int,
    j: int,
) -> Option<StatementError> {
    let (constraint, block, blk) = (ci as usize, j as usize, c.blocks@[j]);
    let size = polx::phi_padded(blk.len as nat, c.deg as nat);
    match parts[j] {
        PhiBlock::Polx(buf, off) => if off + size > buf.count {
            Some(StatementError::PhiBlockEnd { constraint, block })
        } else {
            None
        },
        PhiBlock::Short(sp, off) => if sp.off + sp.wid > 64 {
            Some(StatementError::ShortSpan { constraint, block })
        } else if off + size > sp.c@.len() / (sp.wid as nat) {
            Some(StatementError::ShortEnd { constraint, block })
        } else {
            None
        },
    }
}

pub open spec fn parts_error(c: Constraint, ci: int) -> Option<StatementError> {
    match c.phi {
        PhiSource::Blocks(parts) => if parts@.len() != c.blocks@.len() {
            Some(
                StatementError::PhiBlockCount {
                    constraint: ci as usize,
                    parts: parts@.len() as usize,
                    blocks: c.blocks@.len() as usize,
                },
            )
        } else {
            first(|j: int| part_error(parts@, c, ci, j), parts@.len())
        },
        _ => None,
    }
}

/// Every coefficient is in `[0, q)`.
pub open spec fn reduced(v: Seq<[i64; 64]>, q: i64) -> bool {
    forall|i: int, t: int| 0 <= i < v.len() && 0 <= t < 64 ==> 0 <= (#[trigger] v[i]@[t]) < q
}

pub open spec fn b_error(c: Constraint, q: i64, ci: int) -> Option<StatementError> {
    match c.b {
        None => None,
        Some(b) => if b.held() != rank_of(c.deg) {
            Some(
                StatementError::BLen {
                    constraint: ci as usize,
                    has: b.held() as usize,
                    needs: rank_of(c.deg),
                },
            )
        } else {
            match b {
                BSource::Int64(v) => if reduced(v@, q) {
                    None
                } else {
                    Some(StatementError::BRange { constraint: ci as usize })
                },
                BSource::Polx(_) => None,
            }
        },
    }
}

/// The tests of `phi` behind those of its blocks, then those of `b`.
pub open spec fn source_error(c: Constraint, q: i64, ci: int) -> Option<StatementError> {
    if c.phi.held() < c.total() {
        Some(
            StatementError::PhiLen {
                constraint: ci as usize,
                has: c.phi.held() as usize,
                wants: c.total() as u128,
            },
        )
    } else {
        match c.phi {
            PhiSource::Int64(v) => if reduced(v@, q) {
                b_error(c, q, ci)
            } else {
                Some(StatementError::PhiRange { constraint: ci as usize })
            },
            _ => b_error(c, q, ci),
        }
    }
}

pub open spec fn constraint_error(
    vectors: Seq<VectorSpec>,
    c: Constraint,
    q: i64,
    ci: int,
) -> Option<StatementError> {
    if c.blocks@.len() == 0 {
        Some(StatementError::NoBlocks { constraint: ci as usize })
    } else {
        match first(|j: int| block_error(vectors, c, ci, j), c.blocks@.len()) {
            Some(e) => Some(e),
            None => match parts_error(c, ci) {
                Some(e) => Some(e),
                None => source_error(c, q, ci),
            },
        }
    }
}

/// Why the statement is refused over the modulus `q`, in the order the tests are made.
pub open spec fn statement_error(s: Statement, q: i64) -> Option<StatementError> {
    if s.vectors@.len() == 0 {
        Some(StatementError::NoVectors)
    } else if s.constraints@.len() == 0 {
        Some(StatementError::NoConstraints)
    } else {
        match first(|i: int| vector_error(s.vectors@[i], i), s.vectors@.len()) {
            Some(e) => Some(e),
            None => first(
                |ci: int| constraint_error(s.vectors@, s.constraints@[ci], q, ci),
                s.constraints@.len(),
            ),
        }
    }
}

/// Every short block has a width.
pub open spec fn widths(c: Constraint) -> bool {
    match c.phi {
        PhiSource::Blocks(parts) => forall|j: int|
            0 <= j < parts@.len() ==> width(#[trigger] parts@[j]),
        _ => true,
    }
}

pub open spec fn width(part: PhiBlock) -> bool {
    match part {
        PhiBlock::Short(sp, _) => sp.wid > 0,
        PhiBlock::Polx(_, _) => true,
    }
}

fn check_vectors(vectors: &Vec<VectorSpec>) -> (r: Result<(), StatementError>)
    ensures
        match r {
            Ok(_) => first(|i: int| vector_error(vectors@[i], i), vectors@.len()) is None,
            Err(e) => first(|i: int| vector_error(vectors@[i], i), vectors@.len()) == Some(e),
        },
{
    let ghost f = |i: int| vector_error(vectors@[i], i);
    let mut i: usize = 0;
    while i < vectors.len()
        invariant
            i <= vectors@.len(),
            f == (|i: int| vector_error(vectors@[i], i)),
            first(f, i as nat) is None,
        decreases vectors@.len() - i,
    {
        let v = vectors[i];
        let e = if v.n == 0 {
            Some(StatementError::RankZero { vector: i })
        } else if !v.binary && v.betasq == 0 {
            Some(StatementError::ZeroBound { vector: i })
        } else if !v.binary && v.betasq >= 0x8000_0000_0000 {
            Some(StatementError::BoundTooLarge { vector: i, betasq: v.betasq })
        } else {
            None
        };
        assert(f(i as int) == e);
        if let Some(e) = e {
            proof {
                lemma_first(f, (i + 1) as nat, vectors@.len());
            }
            return Err(e);
        }
        i += 1;
    }
    Ok(())
}

fn check_blocks(vectors: &Vec<VectorSpec>, c: &Constraint, ci: usize) -> (r: Result<
    (),
    StatementError,
>)
    ensures
        match r {
            Ok(_) => first(
                |j: int| block_error(vectors@, *c, ci as int, j),
                c.blocks@.len(),
            ) is None && statement::countable(*c),
            Err(e) => first(
                |j: int| block_error(vectors@, *c, ci as int, j),
                c.blocks@.len(),
            ) == Some(e),
        },
{
    let ghost f = |j: int| block_error(vectors@, *c, ci as int, j);
    let deg: usize = if c.deg == 0 {
        1
    } else {
        c.deg
    };
    let mut j: usize = 0;
    while j < c.blocks.len()
        invariant
            j <= c.blocks@.len(),
            deg == rank_of(c.deg),
            f == (|j: int| block_error(vectors@, *c, ci as int, j)),
            first(f, j as nat) is None,
            forall|i: int|
                0 <= i < j ==> polx::phi_padded(
                    (#[trigger] c.blocks@[i]).len as nat,
                    c.deg as nat,
                ) <= usize::MAX,
        decreases c.blocks@.len() - j,
    {
        let blk = c.blocks[j];
        let e = if blk.idx >= vectors.len() {
            Some(StatementError::BlockIndex { constraint: ci, block: j, idx: blk.idx })
        } else if blk.len == 0 {
            Some(StatementError::EmptyBlock { constraint: ci, block: j })
        } else {
            match polx::checked_padded(blk.len, deg) {
                None => Some(StatementError::BlockOverflow { constraint: ci, block: j }),
                Some(n) => match blk.off.checked_add(n) {
                    None => Some(StatementError::BlockOverflow { constraint: ci, block: j }),
                    Some(end) => if end > vectors[blk.idx].n {
                        Some(StatementError::BlockSpan { constraint: ci, block: j, end })
                    } else {
                        None
                    },
                },
            }
        };
        assert(f(j as int) == e);
        if let Some(e) = e {
            proof {
                lemma_first(f, (j + 1) as nat, c.blocks@.len());
            }
            return Err(e);
        }
        j += 1;
    }
    Ok(())
}

fn check_parts(c: &Constraint, ci: usize) -> (r: Result<(), StatementError>)
    requires
        statement::countable(*c),
        widths(*c),
    ensures
        match r {
            Ok(_) => parts_error(*c, ci as int) is None,
            Err(e) => parts_error(*c, ci as int) == Some(e),
        },
{
    if let PhiSource::Blocks(parts) = &c.phi {
        if parts.len() != c.blocks.len() {
            return Err(
                StatementError::PhiBlockCount {
                    constraint: ci,
                    parts: parts.len(),
                    blocks: c.blocks.len(),
                },
            );
        }
        let ghost f = |j: int| part_error(parts@, *c, ci as int, j);
        let mut j: usize = 0;
        while j < parts.len()
            invariant
                j <= parts@.len() == c.blocks@.len(),
                statement::countable(*c),
                forall|j: int| 0 <= j < parts@.len() ==> width(#[trigger] parts@[j]),
                c.phi == PhiSource::Blocks(*parts),
                f == (|j: int| part_error(parts@, *c, ci as int, j)),
                first(f, j as nat) is None,
            decreases parts@.len() - j,
        {
            assert(width(parts@[j as int]));
            let size: u128 = polx::philen(c.blocks[j].len, c.deg) as u128;
            let e = match &parts[j] {
                PhiBlock::Polx(buf, off) => if *off as u128 + size > buf.len() as u128 {
                    Some(StatementError::PhiBlockEnd { constraint: ci, block: j })
                } else {
                    None
                },
                PhiBlock::Short(sp, off) => if sp.off as u128 + sp.wid as u128 > 64 {
                    Some(StatementError::ShortSpan { constraint: ci, block: j })
                } else if *off as u128 + size > sp.len() as u128 {
                    Some(StatementError::ShortEnd { constraint: ci, block: j })
                } else {
                    None
                },
            };
            assert(f(j as int) == e);
            if let Some(e) = e {
                proof {
                    lemma_first(f, (j + 1) as nat, parts@.len());
                }
                return Err(e);
            }
            j += 1;
        }
    }
    Ok(())
}

/// Every coefficient is in `[0, q)`.
fn is_reduced(v: &Vec<[i64; 64]>, q: i64) -> (r: bool)
    ensures
        r == reduced(v@, q),
{
    let mut i: usize = 0;
    while i < v.len()
        invariant
            i <= v@.len(),
            forall|a: int, t: int| 0 <= a < i && 0 <= t < 64 ==> 0 <= (#[trigger] v@[a]@[t]) < q,
        decreases v@.len() - i,
    {
        let mut t: usize = 0;
        while t < 64
            invariant
                t <= 64,
                i < v@.len(),
                forall|a: int, t: int|
                    0 <= a < i && 0 <= t < 64 ==> 0 <= (#[trigger] v@[a]@[t]) < q,
                forall|b: int| 0 <= b < t ==> 0 <= (#[trigger] v@[i as int]@[b]) < q,
            decreases 64 - t,
        {
            let x: i64 = v[i][t];
            assert(x == v@[i as int]@[t as int]);
            if x < 0 || x >= q {
                return false;
            }
            t += 1;
        }
        i += 1;
    }
    true
}

fn check_source(c: &Constraint, q: i64, ci: usize) -> (r: Result<(), StatementError>)
    requires
        statement::countable(*c),
    ensures
        match r {
            Ok(_) => source_error(*c, q, ci as int) is None,
            Err(e) => source_error(*c, q, ci as int) == Some(e),
        },
{
    let wants: u128 = statement::wide_phi_len(c);
    let has: usize = c.phi.source_len();
    if (has as u128) < wants {
        return Err(StatementError::PhiLen { constraint: ci, has, wants });
    }
    if let PhiSource::Int64(v) = &c.phi {
        if !is_reduced(v, q) {
            return Err(StatementError::PhiRange { constraint: ci });
        }
    }
    let rank: usize = if c.deg == 0 {
        1
    } else {
        c.deg
    };
    match &c.b {
        None => {},
        Some(b) => {
            if b.len() != rank {
                return Err(StatementError::BLen { constraint: ci, has: b.len(), needs: rank });
            }
            if let BSource::Int64(v) = b {
                if !is_reduced(v, q) {
                    return Err(StatementError::BRange { constraint: ci });
                }
            }
        },
    }
    Ok(())
}

fn check_constraint(vectors: &Vec<VectorSpec>, c: &Constraint, q: i64, ci: usize) -> (r: Result<
    (),
    StatementError,
>)
    requires
        widths(*c),
    ensures
        match r {
            Ok(_) => constraint_error(vectors@, *c, q, ci as int) is None,
            Err(e) => constraint_error(vectors@, *c, q, ci as int) == Some(e),
        },
{
    if c.blocks.len() == 0 {
        return Err(StatementError::NoBlocks { constraint: ci });
    }
    match check_blocks(vectors, c, ci) {
        Err(e) => Err(e),
        Ok(_) => match check_parts(c, ci) {
            Err(e) => Err(e),
            Ok(_) => check_source(c, q, ci),
        },
    }
}

/// The tests of a statement over the modulus `q`, first failure first.
pub fn check_statement(stmt: &Statement, q: i64) -> (r: Result<(), StatementError>)
    requires
        forall|ci: int|
            0 <= ci < stmt.constraints@.len() ==> widths(#[trigger] stmt.constraints@[ci]),
    ensures
        match r {
            Ok(_) => statement_error(*stmt, q) is None,
            Err(e) => statement_error(*stmt, q) == Some(e),
        },
{
    if stmt.vectors.len() == 0 {
        return Err(StatementError::NoVectors);
    }
    if stmt.constraints.len() == 0 {
        return Err(StatementError::NoConstraints);
    }
    if let Err(e) = check_vectors(&stmt.vectors) {
        return Err(e);
    }
    let ghost f = |ci: int| constraint_error(stmt.vectors@, stmt.constraints@[ci], q, ci);
    let mut ci: usize = 0;
    while ci < stmt.constraints.len()
        invariant
            ci <= stmt.constraints@.len(),
            stmt.vectors@.len() > 0,
            forall|ci: int|
                0 <= ci < stmt.constraints@.len() ==> widths(#[trigger] stmt.constraints@[ci]),
            first(
                |i: int| vector_error(stmt.vectors@[i], i),
                stmt.vectors@.len(),
            ) is None,
            f == (|ci: int| constraint_error(stmt.vectors@, stmt.constraints@[ci], q, ci)),
            first(f, ci as nat) is None,
        decreases stmt.constraints@.len() - ci,
    {
        let r = check_constraint(&stmt.vectors, &stmt.constraints[ci], q, ci);
        proof {
            assert(f(ci as int) == constraint_error(
                stmt.vectors@,
                stmt.constraints@[ci as int],
                q,
                ci as int,
            ));
        }
        if let Err(e) = r {
            proof {
                lemma_first(f, (ci + 1) as nat, stmt.constraints@.len());
            }
            return Err(e);
        }
        ci += 1;
    }
    Ok(())
}

// ---------------------------------------------------------------------------------------------
// witnesses
// ---------------------------------------------------------------------------------------------

pub open spec fn binary_error(c: Seq<i16>, vector: usize) -> spec_fn(int) -> Option<WitnessError> {
    |t: int|
        if c[t] != 0 && c[t] != 1 {
            Some(WitnessError::NotBinary { vector, coefficient: c[t] })
        } else {
            None
        }
}

/// Every coefficient can be squared by the backend.
pub open spec fn squarable(c: Seq<i16>) -> bool {
    forall|t: int| 0 <= t < c.len() ==> -23170 <= (#[trigger] c[t]) <= 23170
}

pub open spec fn fit_error(v: VectorSpec, c: Seq<i16>, i: int) -> Option<WitnessError> {
    let vector = i as usize;
    if v.n * 64 > usize::MAX {
        Some(WitnessError::RankOverflow { vector })
    } else if c.len() != v.n * 64 {
        Some(WitnessError::Length { vector, has: c.len() as usize, wants: (v.n * 64) as usize })
    } else if v.binary {
        first(binary_error(c, vector), c.len())
    } else if !squarable(c) {
        Some(WitnessError::TooLarge { vector })
    } else if statement::square_sum(c, c.len()) > v.betasq {
        Some(
            WitnessError::Norm {
                vector,
                normsq: statement::square_sum(c, c.len()) as u128,
                betasq: v.betasq,
            },
        )
    } else {
        None
    }
}

/// Why the witness does not fit the statement, in the order the tests are made.
pub open spec fn witness_error(s: Statement, w: Witness) -> Option<WitnessError> {
    if s.vectors@.len() != w.vectors@.len() {
        Some(
            WitnessError::VectorCount {
                statement: s.vectors@.len() as usize,
                witness: w.vectors@.len() as usize,
            },
        )
    } else {
        first(|i: int| fit_error(s.vectors@[i], w.vectors@[i]@, i), s.vectors@.len())
    }
}

fn check_vector(v: &VectorSpec, c: &Vec<i16>, i: usize) -> (r: Option<WitnessError>)
    ensures
        r == fit_error(*v, c@, i as int),
{
    if v.n as u128 * 64 > usize::MAX as u128 {
        return Some(WitnessError::RankOverflow { vector: i });
    }
    let wants: usize = v.n * 64;
    if c.len() != wants {
        return Some(WitnessError::Length { vector: i, has: c.len(), wants });
    }
    let mut t: usize = 0;
    if v.binary {
        let ghost f = binary_error(c@, i);
        while t < c.len()
            invariant
                t <= c@.len() == wants,
                wants == v.n * 64,
                v.binary,
                f == binary_error(c@, i),
                first(f, t as nat) is None,
            decreases c@.len() - t,
        {
            let x: i16 = c[t];
            if x != 0 && x != 1 {
                proof {
                    assert(f(t as int) == Some(
                        WitnessError::NotBinary { vector: i, coefficient: x },
                    ));
                    lemma_first(f, (t + 1) as nat, c@.len());
                }
                return Some(WitnessError::NotBinary { vector: i, coefficient: x });
            }
            assert(f(t as int) is None);
            t += 1;
        }
        return None;
    }
    while t < c.len()
        invariant
            t <= c@.len() == wants,
            wants == v.n * 64,
            !v.binary,
            forall|s: int| 0 <= s < t ==> -23170 <= (#[trigger] c@[s]) <= 23170,
        decreases c@.len() - t,
    {
        let x: i16 = c[t];
        if x > WITNESS_COEFF_MAX || x < -WITNESS_COEFF_MAX {
            assert(!(-23170 <= c@[t as int] <= 23170));
            return Some(WitnessError::TooLarge { vector: i });
        }
        t += 1;
    }
    let normsq: u128 = statement::wide_normsq(c);
    if normsq > v.betasq as u128 {
        return Some(WitnessError::Norm { vector: i, normsq, betasq: v.betasq });
    }
    None
}

/// The tests of a witness against its statement, first failure first.
pub fn check_witness(stmt: &Statement, wit: &Witness) -> (r: Result<(), WitnessError>)
    ensures
        match r {
            Ok(_) => witness_error(*stmt, *wit) is None,
            Err(e) => witness_error(*stmt, *wit) == Some(e),
        },
{
    if stmt.vectors.len() != wit.vectors.len() {
        return Err(
            WitnessError::VectorCount { statement: stmt.vectors.len(), witness: wit.vectors.len() },
        );
    }
    let ghost f = |i: int| fit_error(stmt.vectors@[i], wit.vectors@[i]@, i);
    let mut i: usize = 0;
    while i < stmt.vectors.len()
        invariant
            i <= stmt.vectors@.len() == wit.vectors@.len(),
            f == (|i: int| fit_error(stmt.vectors@[i], wit.vectors@[i]@, i)),
            first(f, i as nat) is None,
        decreases stmt.vectors@.len() - i,
    {
        let e = check_vector(&stmt.vectors[i], &wit.vectors[i], i);
        assert(f(i as int) == e);
        if let Some(e) = e {
            proof {
                lemma_first(f, (i + 1) as nat, stmt.vectors@.len());
            }
            return Err(e);
        }
        i += 1;
    }
    Ok(())
}

} // verus!
