//! Closest pair of points in the plane, with exact integer distances.
//!
//! Three algorithms are offered: an exhaustive search, a divide-and-conquer
//! search and a heuristic that scans a window of packed, sorted keys.
//! Distances are reported squared, as exact integers, so that comparisons
//! between candidate pairs never suffer rounding.

/// Points, exact squared distances and packed keys.
pub mod utils;
/// Pairs of positions in sequences, and how reordering keeps them.
pub mod pairs;
/// The three closest-pair searches and what each returns.
pub mod algorithms;
/// Facts that relate the searches to one another.
pub mod laws;
