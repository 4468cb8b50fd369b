use std::sync::Arc;

use labinius::labrador::{
    check_statement, check_witness, comkey_len_for_rank, extlen, logq, philen, sizeof_polx,
    BSource, Block, Constraint, PhiBlock, PhiSource, PolxBuf, ShortPhi, Statement, StatementError,
    VectorSpec, Witness, WitnessError,
};

const Q: i64 = 1 << 40;

fn phi(n: usize) -> PhiSource {
    PhiSource::Int64(vec![[1i64; 64]; n])
}

fn statement(vectors: Vec<VectorSpec>, constraints: Vec<Constraint>) -> Statement {
    Statement::with_digest(vectors, constraints, [0u8; 32])
}

fn one(c: Constraint) -> Result<(), StatementError> {
    check_statement(&statement(vec![VectorSpec::norm_bounded(4, 100)], vec![c]), Q)
}

#[test]
fn sizes() {
    assert_eq!(logq(), 48);
    assert_eq!(sizeof_polx(), 1024);
    assert_eq!(extlen(5, 2), 6);
    assert_eq!(extlen(4, 2), 4);
    assert_eq!(philen(5, 0), 5);
    assert_eq!(comkey_len_for_rank(100), 160);
    assert_eq!(comkey_len_for_rank(64), 96);
    let v = VectorSpec::binary(3);
    assert_eq!(v.c_betasq(), 0);
    assert_eq!(VectorSpec::norm_bounded(3, 9).c_betasq(), 9);
}

#[test]
fn a_sound_statement_passes() {
    let c = Constraint::new(1, vec![Block::new(0, 1, 3)], phi(3), None);
    assert_eq!(c.phi_len(), 3);
    assert_eq!(one(c), Ok(()));
}

#[test]
fn each_refusal_of_a_statement() {
    let ok = || Constraint::new(1, vec![Block::new(0, 0, 1)], phi(1), None);
    let v = || VectorSpec::norm_bounded(4, 100);
    let check = |vs, cs| check_statement(&statement(vs, cs), Q);
    assert_eq!(check(vec![], vec![ok()]), Err(StatementError::NoVectors));
    assert_eq!(check(vec![v()], vec![]), Err(StatementError::NoConstraints));
    assert_eq!(
        check(vec![VectorSpec::norm_bounded(0, 1)], vec![ok()]),
        Err(StatementError::RankZero { vector: 0 })
    );
    assert_eq!(
        check(vec![v(), VectorSpec::norm_bounded(1, 0)], vec![ok()]),
        Err(StatementError::ZeroBound { vector: 1 })
    );
    assert_eq!(
        check(vec![VectorSpec::norm_bounded(1, 1 << 47)], vec![ok()]),
        Err(StatementError::BoundTooLarge { vector: 0, betasq: 1 << 47 })
    );
    assert_eq!(
        one(Constraint::new(1, vec![], phi(0), None)),
        Err(StatementError::NoBlocks { constraint: 0 })
    );
    assert_eq!(
        one(Constraint::new(1, vec![Block::new(3, 0, 1)], phi(1), None)),
        Err(StatementError::BlockIndex { constraint: 0, block: 0, idx: 3 })
    );
    assert_eq!(
        one(Constraint::new(1, vec![Block::new(0, 0, 0)], phi(1), None)),
        Err(StatementError::EmptyBlock { constraint: 0, block: 0 })
    );
    assert_eq!(
        one(Constraint::new(1, vec![Block::new(0, usize::MAX, 1)], phi(1), None)),
        Err(StatementError::BlockOverflow { constraint: 0, block: 0 })
    );
    assert_eq!(
        one(Constraint::new(2, vec![Block::new(0, 1, 3)], phi(4), None)),
        Err(StatementError::BlockSpan { constraint: 0, block: 0, end: 5 })
    );
    assert_eq!(
        one(Constraint::new(1, vec![Block::new(0, 0, 2)], phi(1), None)),
        Err(StatementError::PhiLen { constraint: 0, has: 1, wants: 2 })
    );
    assert_eq!(
        one(Constraint::new(
            1,
            vec![Block::new(0, 0, 1)],
            PhiSource::Int64(vec![[Q; 64]]),
            None
        )),
        Err(StatementError::PhiRange { constraint: 0 })
    );
    assert_eq!(
        one(Constraint::new(
            2,
            vec![Block::new(0, 0, 2)],
            phi(2),
            Some(BSource::Int64(vec![[0; 64]]))
        )),
        Err(StatementError::BLen { constraint: 0, has: 1, needs: 2 })
    );
    assert_eq!(
        one(Constraint::new(
            1,
            vec![Block::new(0, 0, 1)],
            phi(1),
            Some(BSource::Int64(vec![[-1; 64]]))
        )),
        Err(StatementError::BRange { constraint: 0 })
    );
    assert_eq!(
        one(Constraint::new(
            1,
            vec![Block::new(0, 0, 1)],
            PhiSource::Blocks(vec![]),
            None
        )),
        Err(StatementError::PhiBlockCount { constraint: 0, parts: 0, blocks: 1 })
    );
    let short = Arc::new(ShortPhi::new(0, 9, vec![0i16; 9]));
    assert_eq!(
        one(Constraint::new(
            1,
            vec![Block::new(0, 0, 2)],
            PhiSource::Blocks(vec![PhiBlock::Short(short.clone(), 0)]),
            None
        )),
        Err(StatementError::ShortEnd { constraint: 0, block: 0 })
    );
    let polx = Arc::new(PolxBuf::from_bytes(1, &[0u8; 1024]).unwrap());
    assert_eq!(
        one(Constraint::new(
            1,
            vec![Block::new(0, 0, 1)],
            PhiSource::Blocks(vec![PhiBlock::Polx(polx, 1)]),
            None
        )),
        Err(StatementError::PhiBlockEnd { constraint: 0, block: 0 })
    );
    let wide = Arc::new(ShortPhi { off: 60, wid: 9, c: vec![0; 9] });
    assert_eq!(
        one(Constraint::new(
            1,
            vec![Block::new(0, 0, 1)],
            PhiSource::Blocks(vec![PhiBlock::Short(wide, 0)]),
            None
        )),
        Err(StatementError::ShortSpan { constraint: 0, block: 0 })
    );
}

#[test]
fn each_refusal_of_a_witness() {
    let c = || Constraint::new(1, vec![Block::new(0, 0, 1)], phi(1), None);
    let bounded = statement(vec![VectorSpec::norm_bounded(1, 10)], vec![c()]);
    let binary = statement(vec![VectorSpec::binary(1)], vec![c()]);
    let vector = |x: i16| {
        let mut v = vec![0i16; 64];
        v[3] = x;
        v
    };
    assert_eq!(check_witness(&bounded, &Witness::new(vec![vector(3)])), Ok(()));
    assert_eq!(check_witness(&binary, &Witness::new(vec![vector(1)])), Ok(()));
    assert_eq!(
        check_witness(&bounded, &Witness::new(vec![])),
        Err(WitnessError::VectorCount { statement: 1, witness: 0 })
    );
    assert_eq!(
        check_witness(&bounded, &Witness::new(vec![vec![0; 63]])),
        Err(WitnessError::Length { vector: 0, has: 63, wants: 64 })
    );
    assert_eq!(
        check_witness(&binary, &Witness::new(vec![vector(2)])),
        Err(WitnessError::NotBinary { vector: 0, coefficient: 2 })
    );
    assert_eq!(
        check_witness(&bounded, &Witness::new(vec![vector(23171)])),
        Err(WitnessError::TooLarge { vector: 0 })
    );
    assert_eq!(
        check_witness(&bounded, &Witness::new(vec![vector(4)])),
        Err(WitnessError::Norm { vector: 0, normsq: 16, betasq: 10 })
    );
    assert_eq!(Witness::new(vec![vector(-4)]).normsq(0), 16);
}

#[test]
fn the_digest_binds_every_part() {
    let make = |beta: u64, off: usize, coefficient: i64, b: Option<BSource>| {
        let mut p = [0i64; 64];
        p[0] = coefficient;
        Statement::new(
            vec![VectorSpec::norm_bounded(4, beta)],
            vec![Constraint::new(
                1,
                vec![Block::new(0, off, 1)],
                PhiSource::Int64(vec![p]),
                b,
            )],
        )
        .digest
    };
    let base = make(10, 0, 1, None);
    assert_eq!(make(10, 0, 1, None), base);
    assert!(make(11, 0, 1, None) != base);
    assert!(make(10, 1, 1, None) != base);
    assert!(make(10, 0, 2, None) != base);
    assert!(make(10, 0, 1, Some(BSource::Int64(vec![[0; 64]]))) != base);
    let mut s = Statement::new(
        vec![VectorSpec::norm_bounded(4, 10)],
        vec![Constraint::new(1, vec![Block::new(0, 0, 1)], phi(1), None)],
    );
    let before = s.digest;
    assert_eq!(s.content_digest(), before);
    s.vectors[0].betasq = 11;
    s.reseal();
    assert!(s.digest != before);
    assert_eq!(s.total_rank(), 4);
}

#[test]
fn the_bound_of_a_binary_vector_is_ignored() {
    let check = |binary: bool, betasq: u64| {
        let v = VectorSpec { n: 1, betasq, binary };
        let c = Constraint::new(
            1,
            vec![Block::new(0, 0, 1)],
            PhiSource::Int64(vec![[0i64; 64]]),
            None,
        );
        check_statement(&statement(vec![v], vec![c]), Q)
    };
    assert_eq!(check(true, 1 << 47), Ok(()));
    assert_eq!(check(true, u64::MAX), Ok(()));
    assert_eq!(check(true, 0), Ok(()));
    assert_eq!(check(false, (1 << 47) - 1), Ok(()));
    assert!(matches!(check(false, 1 << 47), Err(StatementError::BoundTooLarge { .. })));
}

#[test]
fn the_digest_binds_the_padding_of_a_short_block() {
    let make = |last: i16| {
        let short = Arc::new(ShortPhi::new(0, 1, vec![1, last]));
        statement(
            vec![VectorSpec::norm_bounded(4, 100)],
            vec![Constraint::new(
                2,
                vec![Block::new(0, 0, 1)],
                PhiSource::Blocks(vec![PhiBlock::Short(short, 0)]),
                None,
            )],
        )
    };
    let (a, b) = (make(5), make(6));
    assert_eq!(philen(1, 2), 2);
    assert_eq!(check_statement(&a, Q), Ok(()));
    assert_eq!(check_statement(&b, Q), Ok(()));
    assert_eq!(a.content_digest(), make(5).content_digest());
    assert!(a.content_digest() != b.content_digest());
}
