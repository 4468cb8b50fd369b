//! The opening as a relation over `S = Z[Z]/(Z^162 + Z^81 + 1)`, in the chunk encoding that a
//! degree-64 backend reads.
pub mod algebra;
pub mod carry;
pub mod chain;
pub mod chunk;
pub mod encode;
pub mod identity;
pub mod limbs;
pub mod masking;
pub mod masks;
pub mod meaning;
pub mod product;
pub mod statement;
pub mod table;
pub mod unique;
pub mod worth;

use vstd::prelude::*;

verus! {

/// Degree of the backend's ring.
pub const DEG: usize = 64;

/// Coefficients of a public sub-chunk.
pub const SUB: usize = 9;

/// Sub-chunks of an element.
pub const BLOCKS: usize = 18;

/// Coefficients of a witness chunk.
pub const CHUNK: usize = 54;

/// Chunks of an element.
pub const CHUNKS: usize = 3;

/// Sub-chunks of a chunk.
pub const SPAN: usize = 6;

/// Coefficients of a carry.
pub const CARRY: usize = 53;

/// An element of `S`.
pub type SElem = [i64; 162];

/// A polynomial of the backend's ring.
pub type Poly = [i16; 64];

/// The public blocks of an element: chunk, sub-chunk, coefficient.
pub type Blocks = [[[i16; 9]; 18]; 3];

} // verus!
