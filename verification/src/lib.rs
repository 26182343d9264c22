//! Finite permutations of `N` labelled elements: construction, composition,
//! and decomposition into disjoint cycles.
//!
//! Labels seen by callers run from `1` to `N`; the stored mapping runs from
//! `0` to `N - 1`.

pub mod cycles;
pub mod laws;
pub mod mapping;
pub mod notation;
pub mod permutation;
pub mod taken;

pub use permutation::Permutation;
