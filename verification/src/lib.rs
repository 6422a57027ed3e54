//! Longest Lyndon subsequence of a byte sequence.
//!
//! A Lyndon word is a non-empty string that is strictly smaller, in
//! lexicographic order, than every one of its proper rotations. This crate
//! finds a longest (not necessarily contiguous) subsequence of a byte
//! sequence that forms a Lyndon word, by a stack-based depth-first search
//! over candidate subsequences with pruning of dominated candidates.

pub mod words;
pub mod search;
