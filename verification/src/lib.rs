//! Full-text search over exported chat-conversation trees.
//!
//! A conversation export is a tree of message nodes; the library flattens
//! each tree into a searchable text blob, builds an inverted index of
//! lower-cased character n-grams (lengths 2 through 10), and answers
//! free-text queries with ranked, excerpted results.
//!
//! The pipeline: a [`tree::ConversationTree`] is flattened by
//! [`tree::extract`] into the content of a [`index::ConversationRecord`];
//! [`index::SearchIndex::build`] turns a batch of records into an inverted
//! index; [`search::SearchEngine`] answers ranked queries over it. What
//! the library guarantees about that pipeline is stated and proved in
//! [`laws`].

use vstd::prelude::*;

pub mod codec;
pub mod config;
pub mod html;
pub mod index;
pub mod laws;
pub mod search;
pub mod templates;
pub mod text;
pub mod tree;
pub mod tokenize;

verus! {

/// Failure conditions of the engine.
///
/// Missing optional metadata (no title, no date) is never an error; these
/// variants cover malformed input, storage faults, and unreadable indexes.
#[derive(Debug, Clone, Copy, PartialEq, Eq, Structural)]
pub enum IndexError {
    /// The conversations input could not be parsed at all.
    MalformedInput,
    /// A conversation's node tree reaches the same node twice.
    CycleDetected,
    /// The index files could not be written.
    StorageFailure,
    /// No index exists at the given location.
    IndexNotFound,
    /// The stored index bytes are not a valid index encoding.
    IndexCorrupt,
}

/// The number of results a search returns when the caller gives no limit.
pub fn default_limit() -> (n: usize)
    ensures
        n == 20,
{
    20
}

} // verus!
