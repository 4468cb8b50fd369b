//! The LaBRADOR backend: statements and witnesses.
//!
//! A statement is a list of witness vectors, vector `i` of rank `n[i]` over `Z_q[X]/(X^64 + 1)`
//! and either with an exact l2-norm bound or binary, together with dot-product constraints.
//! A constraint of extension degree `deg` is
//!
//! ```text
//! sum over blocks j of  < phi_j , s[idx_j][off_j .. off_j + len_j] >  ==  b
//! ```
//!
//! with `phi_j` padded to a multiple of the degree and `b` of `max(1, deg)` ring elements.
pub mod accepted;
pub mod binding;
pub mod check;
pub mod polx;
pub mod statement;

pub use check::{check_statement, check_witness, StatementError, WitnessError};
pub use polx::{extlen, logq, philen, sizeof_polx, PolxBuf, N};
pub use statement::{
    comkey_len_for_rank, BSource, Block, Constraint, PhiBlock, PhiSource, ShortPhi, Statement,
    VectorSpec, Witness, WITNESS_COEFF_MAX,
};
