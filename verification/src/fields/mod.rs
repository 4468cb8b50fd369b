//! The binary fields the scheme runs over.
//!
//! [`gf2`] is the mathematics: the quotient rings `GF(2)[X]/(X^n + taps)` over bit sequences and
//! their ring laws; [`field`] shows that the one of degree 162 is a field; [`linear`] adds sums and
//! multilinear extensions over them. [`scalar`] holds the two scalar types.
pub mod bitmat;
pub mod crossfield;
pub mod f162;
pub mod field;
pub mod gf2;
pub mod linear;
pub mod scalar;
pub mod sumcheck;
