//! In-place comparison sorts over `Vec<T>`: a stable top-down merge sort and a
//! Lomuto-partition quicksort, each proved to return an ordered rearrangement
//! of what it was given.
//!
//! The sorts are `mergesort::sort` and `quicksort::sort`. What "ordered"
//! means for a `PartialOrd` type is said in `order`, and what a rearrangement
//! is in `permutation`.

pub mod mergesort;
pub mod order;
pub mod permutation;
pub mod quicksort;
