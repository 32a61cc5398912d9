//! Variation and selection operators.
pub mod permutation;
pub mod selectors;
