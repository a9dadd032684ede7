//! Exact search of a needle inside an in-memory slice, done by `memchr`.
use crate::occurrence::occurs_at;
use vstd::prelude::*;

verus! {

/// Relies on `memchr::memmem::find`: it returns the offset of the first
/// occurrence of `needle` in `haystack`, or `None` when there is none.
#[verifier::external_body]
pub(crate) fn first_occurrence(haystack: &[u8], needle: &[u8]) -> (r: Option<usize>)
    ensures
        match r {
            Some(m) => occurs_at(haystack@, needle@, m as int) && forall|k: int|
                0 <= k < m ==> !occurs_at(haystack@, needle@, k),
            None => forall|k: int| !occurs_at(haystack@, needle@, k),
        },
{
    memchr::memmem::find(haystack, needle)
}

/// Relies on `memchr::memmem::rfind`: it returns the offset of the last
/// occurrence of `needle` in `haystack`, or `None` when there is none.
#[verifier::external_body]
pub(crate) fn last_occurrence(haystack: &[u8], needle: &[u8]) -> (r: Option<usize>)
    ensures
        match r {
            Some(m) => occurs_at(haystack@, needle@, m as int) && forall|k: int|
                m < k ==> !occurs_at(haystack@, needle@, k),
            None => forall|k: int| !occurs_at(haystack@, needle@, k),
        },
{
    memchr::memmem::rfind(haystack, needle)
}

} // verus!
