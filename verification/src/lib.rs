//! Multi-scalar multiplication over the BLS12-377 prime-order group and the
//! proof-of-succinct-work puzzle built on it.

pub mod bits;
pub mod coordinates;
pub mod curve;
pub mod encoding;
pub mod error;
pub mod fixed_base;
pub mod hash;
pub mod msm;
pub mod puzzle;
pub mod records;
pub mod scalar;
pub mod srs;
