//! Search for sentences of `N` words of `L` letters each in which no letter
//! occurs twice, over a dictionary of words given as symbol indices.
//!
//! The letters of a word are held as a bitmask ([`charset`]). The words of the
//! dictionary are grouped by their letters ([`groups`]), and one word stands
//! for each group in a graph of words that share no letter ([`graph`]). The
//! search walks that graph ([`search`]) and prunes its candidate lists with a
//! filter-and-compact kernel ([`filter_vec`]); what it finds is expanded into
//! every sentence of real words ([`anagram`]) and sorted ([`solver`]). What the
//! sorted list holds is stated in [`meaning`], and that it holds nothing twice
//! in [`once`].

pub mod adaptors;
pub mod anagram;
pub mod bits;
pub mod charset;
pub mod filter_vec;
pub mod graph;
pub mod groups;
pub mod meaning;
pub mod odometer;
pub mod once;
pub mod order;
pub mod search;
pub mod sentence;
pub mod solver;
