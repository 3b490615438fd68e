//! Verified building blocks of a lattice-based (GLWE / CKKS) homomorphic
//! encryption stack: negacyclic ring kernels, GLWE column operations of a
//! CPU backend, CKKS metadata bookkeeping and exact complex slot
//! arithmetic used to derive expected values.
pub mod ckks;
pub mod glwe;
pub mod slots;
pub mod znx;
