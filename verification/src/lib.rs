//! A small dense linear-algebra library: a two-dimensional integer matrix
//! stored column-major in a single flat buffer, with a lazy O(1) transpose,
//! elementwise and scalar arithmetic, cofactor-expansion determinants and a
//! fixed binary serialization whose scalars are IEEE-754 single-precision
//! bit patterns.

pub mod linear_algebra;
