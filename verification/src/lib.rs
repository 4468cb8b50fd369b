//! A lattice polynomial commitment scheme over `GF(2^162)`, with its contracts.
pub mod ajtai;
pub mod bd;
pub mod bytes;
pub mod challenge;
pub mod eval;
pub mod fields;
pub mod fold;
pub mod hash;
pub mod key;
pub mod labrador;
pub mod limb;
pub mod modular;
pub mod ntt;
pub mod params;
pub mod parity;
pub mod recursion;
pub mod ring;
pub mod rng;
pub mod scalar;
pub mod scheme;
pub mod simd;
pub mod switch;
pub mod switch_laws;
pub mod wire;
