//! Solutions to introductory counting and construction problems.

pub mod increasing_array;
pub mod number_spiral;
pub mod permutations;
pub mod two_knights;
pub mod two_sets;
