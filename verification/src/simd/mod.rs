//! Kernels over whole ring elements.
pub mod bin;
pub mod gen_large;
pub mod gen_quad;
pub mod lane;
pub mod network;
pub mod norm;
pub mod ntt;
pub mod schedule;
pub mod transpose32;
