//! Ranking-pipeline core of a full-text search engine.
//!
//! Given a parsed query tree and a read-only inverted index, this crate
//! resolves the tree into candidate document sets (compressed bitmaps),
//! expands fuzzy and prefix terms against a dictionary, honours two-term
//! proximity constraints, and chains ranking criteria (typo count, word
//! count, proximity, ascending/descending facet order) into a bucketed
//! pipeline drained by a fetcher.

use vstd::prelude::*;

pub mod bitmap;
pub mod query_tree;
pub mod index;
pub mod derivations;
pub mod resolver;
pub mod codec;
pub mod criteria;

verus! {

/// The error a search can surface: a structurally malformed query tree.
///
/// Missing posting lists are never errors; they stand for empty sets.
#[derive(Debug, Clone, Copy, PartialEq, Eq, Structural)]
pub enum Error {
    /// A `Consecutive` node holds a child that is not a leaf query.
    InvalidConsecutive,
}

impl Error {
    /// A human-readable description of the error.
    pub fn message(&self) -> (r: &'static str)
        ensures
            r@ == "invalid consecutive query type"@,
    {
        "invalid consecutive query type"
    }
}

} // verus!
