//! Forward and backward substring search over byte streams, holding only a
//! small fixed-size window of the stream in memory.
//!
//! The searchers are state machines: they ask their driver for bytes and
//! report match offsets. Their contracts tie every reported offset to the
//! greedy, non-overlapping matches of the bytes handed to them.
mod buffer;
mod exact;
mod finder;
mod occurrence;

pub use buffer::{window_capacity, window_min_len, Buffer, BufferRev, DEFAULT_BUFFER_CAPACITY};
pub use finder::{
    find_iter, lemma_backward_matches_reference, lemma_backward_sessions_agree,
    lemma_forward_matches_reference, lemma_forward_sessions_agree, rev_consistent, rev_started,
    rfind_iter, FindIter, FindRevIter, RevStep, SearchError, Step, StreamFinder,
};
pub use occurrence::{
    all_matches, all_matches_rev, lemma_backward_is_reverse, lemma_reported_once, matches_before,
    matches_from, occurrences_in, occurs_at, overlaps_itself, strictly_increasing,
};
