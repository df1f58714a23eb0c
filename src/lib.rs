//! Pairwise row correlation kernel: the integer side of the computation.
//!
//! Values of a matrix reach this library as order keys (missing cells as
//! `None`), correlations as whole hundredths. The library decides which
//! columns two rows share, ranks values with averaged ties, applies the
//! round-half-to-even rule, and selects the edges of the correlation graph.
pub mod edges;
pub mod matrix;
pub mod rank;
pub mod rounding;
