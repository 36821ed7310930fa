//! Array values of an array-oriented language: scalars, shape-tagged arrays,
//! and the shape-aware algorithms (ranges, reversal, join, length coercion and
//! cell sorting) that its primitives reduce to.
pub mod shape;
pub mod order;
pub mod value;
pub mod algorithm;
pub mod sort;
pub mod laws;
