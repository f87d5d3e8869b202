//! Verified algorithms on arrays, strings and trees.
//!
//! The core of the library is a pair of static segment trees: `chmin_tree`
//! lowers ranges of values to a threshold and reports range maxima, and
//! `existence_tree` tells whether a value occurs in a range. Both lay their
//! nodes out as `layout` describes and state their results over the range
//! aggregates of `aggregate`. `chmin_queries` and `coverage_queries` run
//! lists of operations on them that are given as text.
//!
//! Around it stand smaller pieces: `binary_tree`, a binary tree kept in one
//! array; `sightseeing` and `topics`, two planning problems, the second of
//! which rests on `lis` and `topic_order`; `challenges`, short exercises on
//! strings and arrays; and `text`, which reads numbers out of text and writes
//! them back.

pub mod aggregate;
pub mod binary_tree;
pub mod challenges;
pub mod chmin_queries;
pub mod chmin_tree;
pub mod coverage_queries;
pub mod existence_tree;
pub mod layout;
pub mod lis;
pub mod sightseeing;
pub mod text;
pub mod topic_order;
pub mod topics;
