//! Forward and backward search sessions over a byte stream.
//!
//! A session never touches the stream itself. `poll` says what it needs:
//! either the next match, or bytes of the stream, which its driver reads and
//! hands back. A forward session asks for the next bytes of the stream; a
//! backward session asks for the bytes just before those it has, at a given
//! offset, and so needs a stream that can seek.
use crate::buffer::{window_capacity, Buffer, BufferRev};
use crate::exact::{first_occurrence, last_occurrence};
use crate::occurrence::{
    all_matches, all_matches_rev, lemma_backward_is_reverse, lemma_occurs_in_head,
    lemma_occurs_in_tail, lemma_skip_backward, lemma_skip_forward, matches_before, matches_from,
    occurs_at, overlaps_itself,
};
use vstd::prelude::*;
use vstd::slice::slice_subrange;

verus! {

/// Why a session cannot go on.
#[derive(Clone, Copy, Debug, PartialEq, Eq, Structural)]
pub enum SearchError {
    /// The needle is empty, so every offset would match.
    EmptyNeedle,
    /// An offset in the stream does not fit in a `usize`.
    StreamTooLong,
}

/// What a forward session asks of its driver.
#[derive(Clone, Copy, Debug, PartialEq, Eq, Structural)]
pub enum Step {
    /// A match begins at this offset of the stream.
    Found(usize),
    /// Read at most this many bytes from the stream and pass them to `feed`
    /// (none at the end of the stream).
    Read(usize),
    /// The session has ended.
    Done,
    /// The session failed; it ends after this.
    Failed(SearchError),
}

/// A needle, kept to search many streams for it.
#[derive(Clone, Debug)]
pub struct StreamFinder {
    needle: Vec<u8>,
}

impl View for StreamFinder {
    type V = Seq<u8>;

    closed spec fn view(&self) -> Seq<u8> {
        self.needle@
    }
}

impl StreamFinder {
    /// Keeps `needle` for later searches.
    pub fn new(needle: &[u8]) -> (r: StreamFinder)
        ensures
            r@ == needle@,
    {
        StreamFinder { needle: vstd::slice::slice_to_vec(needle) }
    }

    /// Returns the needle that this finder searches for.
    pub fn needle(&self) -> (r: &[u8])
        ensures
            r@ == self@,
    {
        self.needle.as_slice()
    }

    /// Starts a forward search session for the needle.
    pub fn find_iter(&self) -> (r: FindIter)
        requires
            self@.len() <= usize::MAX / 8,
        ensures
            r.wf(),
            r.pattern() == self@,
            r.seen() == Seq::<u8>::empty(),
            r.reported() == Seq::<int>::empty(),
            r.window_capacity() == window_capacity(self@.len() as int),
            self@.len() == 0 ==> r.pending_error() == Some(SearchError::EmptyNeedle),
            self@.len() > 0 ==> r.pending_error() is None && !r.awaiting() && !r.ended(),
    {
        FindIter::new(self)
    }

    /// Starts a backward search session for the needle on a stream of
    /// `stream_len` bytes.
    pub fn rfind_iter(&self, stream_len: u64) -> (r: Result<FindRevIter, SearchError>)
        requires
            self@.len() <= usize::MAX / 8,
        ensures
            rev_started(self@, stream_len, r),
    {
        FindRevIter::new(self, stream_len)
    }
}

/// Starts a forward search session for `needle`. With an empty needle the
/// first `poll` fails.
pub fn find_iter(needle: &[u8]) -> (r: FindIter)
    requires
        needle@.len() <= usize::MAX / 8,
    ensures
        r.wf(),
        r.pattern() == needle@,
        r.seen() == Seq::<u8>::empty(),
        r.reported() == Seq::<int>::empty(),
        r.window_capacity() == window_capacity(needle@.len() as int),
        needle@.len() == 0 ==> r.pending_error() == Some(SearchError::EmptyNeedle),
        needle@.len() > 0 ==> r.pending_error() is None && !r.awaiting() && !r.ended(),
{
    FindIter::new_with_needle(needle)
}

/// Starts a backward search session for `needle` on a stream of
/// `stream_len` bytes.
pub fn rfind_iter(needle: &[u8], stream_len: u64) -> (r: Result<FindRevIter, SearchError>)
    requires
        needle@.len() <= usize::MAX / 8,
    ensures
        rev_started(needle@, stream_len, r),
{
    FindRevIter::new_with_needle(needle, stream_len)
}

#[derive(Clone, Copy)]
enum Phase {
    Scanning,
    Filling { read_any: bool },
    Exhausted,
    Rejected(SearchError),
    Failed,
}

/// A forward search session: it reports the non-overlapping matches of a
/// needle from the first to the last.
pub struct FindIter {
    needle: Vec<u8>,
    buf: Buffer,
    /// Where the next scan of the window starts.
    search_pos: usize,
    /// The offset in the stream of `search_pos`.
    stream_pos: usize,
    /// How many bytes of the stream have been fed in.
    consumed: usize,
    phase: Phase,
    seen: Ghost<Seq<u8>>,
    reported: Ghost<Seq<int>>,
}

impl FindIter {
    /// The needle searched for.
    pub closed spec fn pattern(&self) -> Seq<u8> {
        self.needle@
    }

    /// Every byte of the stream fed in so far.
    pub closed spec fn seen(&self) -> Seq<u8> {
        self.seen@
    }

    /// Every offset reported so far, in order.
    pub closed spec fn reported(&self) -> Seq<int> {
        self.reported@
    }

    /// The session waits for `feed`.
    pub closed spec fn awaiting(&self) -> bool {
        self.phase is Filling
    }

    /// The most bytes that the next `feed` may take.
    pub closed spec fn want(&self) -> int {
        self.buf.storage_len() - self.buf@.len()
    }

    /// Some bytes were fed since the session last asked for bytes.
    pub closed spec fn read_any(&self) -> bool {
        match self.phase {
            Phase::Filling { read_any } => read_any,
            _ => false,
        }
    }

    /// The stream ended and every match in it has been reported.
    pub closed spec fn exhausted(&self) -> bool {
        self.phase is Exhausted
    }

    /// The session has ended, normally or not.
    pub closed spec fn ended(&self) -> bool {
        self.phase is Exhausted || self.phase is Failed
    }

    /// The failure that the next `poll` reports, if any.
    pub closed spec fn pending_error(&self) -> Option<SearchError> {
        match self.phase {
            Phase::Rejected(e) => Some(e),
            _ => None,
        }
    }

    /// The capacity of the window.
    pub closed spec fn window_capacity(&self) -> int {
        self.buf.storage_len()
    }

    /// Scanning from `stream_pos` in any continuation of the stream finds
    /// exactly the matches that were not reported yet.
    spec fn scan_inv(&self) -> bool {
        let n = self.needle@;
        let seen = self.seen@;
        let w = self.buf@;
        &&& self.buf.min_len() == n.len()
        &&& w.len() <= seen.len()
        &&& w == seen.subrange(seen.len() - w.len(), seen.len() as int)
        &&& self.search_pos <= w.len()
        &&& self.stream_pos == seen.len() - w.len() + self.search_pos
        &&& forall|ext: Seq<u8>|
            #![trigger all_matches(seen + ext, n)]
            all_matches(seen + ext, n) == self.reported@ + matches_from(
                seen + ext,
                n,
                self.stream_pos as int,
            )
        &&& (self.phase is Filling || self.phase is Exhausted) ==> self.stream_pos + n.len()
            > seen.len()
        &&& self.phase is Filling ==> w.len() <= n.len()
    }

    /// The session is well formed: its window holds the last bytes fed, and
    /// what it reported and will report are the greedy matches.
    pub closed spec fn wf(&self) -> bool {
        &&& self.buf.wf()
        &&& self.consumed == self.seen@.len()
        &&& if self.needle@.len() == 0 {
            &&& self.phase is Rejected || self.phase is Failed
            &&& self.reported@ == Seq::<int>::empty()
        } else {
            self.scan_inv()
        }
    }

    /// Starts a session that searches the stream for the needle of `finder`.
    pub(crate) fn new(finder: &StreamFinder) -> (r: FindIter)
        requires
            finder@.len() <= usize::MAX / 8,
        ensures
            r.wf(),
            r.pattern() == finder@,
            r.seen() == Seq::<u8>::empty(),
            r.reported() == Seq::<int>::empty(),
            r.window_capacity() == window_capacity(finder@.len() as int),
            finder@.len() == 0 ==> r.pending_error() == Some(SearchError::EmptyNeedle),
            finder@.len() > 0 ==> r.pending_error() is None && !r.awaiting() && !r.ended(),
    {
        FindIter::new_with_needle(finder.needle())
    }

    /// Starts a session that searches the stream for `needle`. With an empty
    /// needle the first `poll` fails.
    pub(crate) fn new_with_needle(needle: &[u8]) -> (r: FindIter)
        requires
            needle@.len() <= usize::MAX / 8,
        ensures
            r.wf(),
            r.pattern() == needle@,
            r.seen() == Seq::<u8>::empty(),
            r.reported() == Seq::<int>::empty(),
            r.window_capacity() == window_capacity(needle@.len() as int),
            needle@.len() == 0 ==> r.pending_error() == Some(SearchError::EmptyNeedle),
            needle@.len() > 0 ==> r.pending_error() is None && !r.awaiting() && !r.ended(),
    {
        let buf = Buffer::new(needle.len());
        let phase = if needle.len() == 0 {
            Phase::Rejected(SearchError::EmptyNeedle)
        } else {
            Phase::Scanning
        };
        let r = FindIter {
            needle: vstd::slice::slice_to_vec(needle),
            buf,
            search_pos: 0,
            stream_pos: 0,
            consumed: 0,
            phase,
            seen: Ghost(Seq::empty()),
            reported: Ghost(Seq::empty()),
        };
        proof {
            if needle@.len() > 0 {
                assert forall|ext: Seq<u8>|
                    #![trigger all_matches(r.seen@ + ext, r.needle@)]
                    all_matches(r.seen@ + ext, r.needle@) == r.reported@ + matches_from(
                        r.seen@ + ext,
                        r.needle@,
                        0,
                    ) by {
                    assert(r.reported@ + matches_from(r.seen@ + ext, r.needle@, 0)
                        =~= matches_from(r.seen@ + ext, r.needle@, 0));
                }
                assert(r.buf@ =~= r.seen@.subrange(0, 0));
            }
        }
        r
    }

    /// The next thing the session needs: it reports the next match of what
    /// was fed so far, or asks for more bytes once every such match has been
    /// reported, or says that it has ended.
    pub fn poll(&mut self) -> (r: Step)
        requires
            old(self).wf(),
        ensures
            final(self).wf(),
            final(self).pattern() == old(self).pattern(),
            final(self).seen() == old(self).seen(),
            final(self).window_capacity() == old(self).window_capacity(),
            final(self).pending_error() is None,
            match r {
                Step::Found(p) => {
                    &&& final(self).reported() == old(self).reported().push(p as int)
                    &&& final(self).reported().is_prefix_of(
                        all_matches(final(self).seen(), final(self).pattern()),
                    )
                    &&& !final(self).awaiting()
                    &&& !final(self).ended()
                },
                Step::Read(k) => {
                    &&& final(self).reported() == old(self).reported()
                    &&& final(self).reported() == all_matches(
                        final(self).seen(),
                        final(self).pattern(),
                    )
                    &&& final(self).awaiting()
                    &&& final(self).want() == k
                    &&& k > 0
                    &&& !final(self).read_any() || old(self).awaiting()
                    &&& old(self).awaiting() ==> final(self).read_any() == old(self).read_any()
                },
                Step::Done => {
                    &&& old(self).ended()
                    &&& final(self).reported() == old(self).reported()
                    &&& final(self).exhausted() == old(self).exhausted()
                    &&& final(self).ended()
                },
                Step::Failed(e) => {
                    &&& old(self).pending_error() == Some(e)
                    &&& final(self).reported() == old(self).reported()
                    &&& final(self).ended()
                    &&& !final(self).exhausted()
                },
            },
            old(self).pending_error() is Some ==> r is Failed,
            old(self).ended() ==> r is Done,
            old(self).awaiting() ==> r is Read,
            final(self).exhausted() ==> final(self).reported() == all_matches(
                final(self).seen(),
                final(self).pattern(),
            ),
    {
        match self.phase {
            Phase::Rejected(e) => {
                self.phase = Phase::Failed;
                return Step::Failed(e);
            },
            Phase::Failed => {
                return Step::Done;
            },
            Phase::Exhausted => {
                proof {
                    self.lemma_reported_all();
                }
                return Step::Done;
            },
            Phase::Filling { .. } => {
                proof {
                    self.lemma_reported_all();
                }
                return Step::Read(self.buf.free_buffer());
            },
            Phase::Scanning => {},
        }
        let ghost seen = self.seen@;
        let ghost n = self.needle@;
        let ghost base: int = seen.len() - self.buf@.len();
        let len = self.buf.len();
        let nlen = self.needle.len();
        if self.search_pos < len {
            let rest = slice_subrange(self.buf.buffer(), self.search_pos, len);
            proof {
                assert(rest@ =~= seen.subrange(self.stream_pos as int, seen.len() as int));
            }
            match first_occurrence(rest, self.needle.as_slice()) {
                Some(m) => {
                    let p = self.stream_pos + m;
                    proof {
                        let sp = self.stream_pos as int;
                        assert forall|ext: Seq<u8>|
                            #![trigger all_matches(seen + ext, n)]
                            all_matches(seen + ext, n) == self.reported@.push(p as int)
                                + matches_from(seen + ext, n, p + n.len()) by {
                            let h = seen + ext;
                            assert forall|k: int| sp <= k < p implies !occurs_at(h, n, k) by {
                                lemma_occurs_in_tail(seen, ext, n, sp, k - sp);
                            }
                            lemma_occurs_in_tail(seen, ext, n, sp, m as int);
                            lemma_skip_forward(h, n, sp, p as int);
                            assert(matches_from(h, n, p as int) == seq![p as int] + matches_from(
                                h,
                                n,
                                p + n.len(),
                            ));
                            assert(self.reported@ + matches_from(h, n, sp) =~= self.reported@.push(
                                p as int,
                            ) + matches_from(h, n, p + n.len()));
                        }
                    }
                    self.stream_pos = p + nlen;
                    self.search_pos = self.search_pos + m + nlen;
                    self.reported = Ghost(self.reported@.push(p as int));
                    proof {
                        self.lemma_reported_prefix();
                    }
                    return Step::Found(p);
                },
                None => {
                    if len >= nlen && self.search_pos <= len - nlen {
                        let next = len - nlen + 1;
                        proof {
                            let sp = self.stream_pos as int;
                            let sp2 = base + next;
                            assert forall|ext: Seq<u8>|
                                #![trigger all_matches(seen + ext, n)]
                                all_matches(seen + ext, n) == self.reported@ + matches_from(
                                    seen + ext,
                                    n,
                                    sp2,
                                ) by {
                                let h = seen + ext;
                                assert forall|k: int| sp <= k < sp2 implies !occurs_at(h, n, k) by {
                                    lemma_occurs_in_tail(seen, ext, n, sp, k - sp);
                                }
                                lemma_skip_forward(h, n, sp, sp2);
                            }
                        }
                        self.stream_pos = self.stream_pos + (next - self.search_pos);
                        self.search_pos = next;
                    }
                },
            }
        }
        if len >= nlen {
            self.buf.roll();
            self.search_pos = self.search_pos - (len - nlen);
            proof {
                assert(self.buf@ =~= seen.subrange(seen.len() - nlen, seen.len() as int));
            }
        }
        self.phase = Phase::Filling { read_any: false };
        proof {
            self.lemma_reported_all();
        }
        Step::Read(self.buf.free_buffer())
    }

    /// Hands the session the bytes of one read of the stream; no bytes
    /// means that the read hit the end of the stream. The stream ends when
    /// nothing at all was read since the session asked for bytes.
    pub fn feed(&mut self, data: &[u8])
        requires
            old(self).wf(),
            old(self).awaiting(),
            data@.len() <= old(self).want(),
        ensures
            final(self).wf(),
            final(self).pattern() == old(self).pattern(),
            final(self).reported() == old(self).reported(),
            final(self).window_capacity() == old(self).window_capacity(),
            if old(self).seen().len() + data@.len() > usize::MAX {
                &&& final(self).seen() == old(self).seen()
                &&& final(self).pending_error() == Some(SearchError::StreamTooLong)
            } else {
                &&& final(self).seen() == old(self).seen() + data@
                &&& final(self).pending_error() is None
                &&& final(self).exhausted() == (data@.len() == 0 && !old(self).read_any())
                &&& !final(self).exhausted() ==> !final(self).ended()
                &&& final(self).awaiting() ==> data@.len() > 0 && final(self).read_any()
            },
            final(self).exhausted() ==> final(self).reported() == all_matches(
                final(self).seen(),
                final(self).pattern(),
            ),
    {
        let read_any = match self.phase {
            Phase::Filling { read_any } => read_any,
            _ => false,
        };
        if data.len() > usize::MAX - self.consumed {
            self.phase = Phase::Rejected(SearchError::StreamTooLong);
            return;
        }
        if data.len() == 0 {
            if read_any {
                self.phase = Phase::Scanning;
            } else {
                self.phase = Phase::Exhausted;
                proof {
                    self.lemma_reported_all();
                }
            }
            return;
        }
        let ghost seen = self.seen@;
        let ghost n = self.needle@;
        let enough = self.buf.fill(data);
        self.consumed = self.consumed + data.len();
        self.seen = Ghost(seen + data@);
        proof {
            assert forall|ext: Seq<u8>|
                #![trigger all_matches(self.seen@ + ext, n)]
                all_matches(self.seen@ + ext, n) == self.reported@ + matches_from(
                    self.seen@ + ext,
                    n,
                    self.stream_pos as int,
                ) by {
                assert(self.seen@ + ext =~= seen + (data@ + ext));
                assert(all_matches(seen + (data@ + ext), n) == self.reported@ + matches_from(
                    seen + (data@ + ext),
                    n,
                    self.stream_pos as int,
                ));
            }
            assert(self.buf@ =~= self.seen@.subrange(
                self.seen@.len() - self.buf@.len(),
                self.seen@.len() as int,
            ));
        }
        if enough {
            self.phase = Phase::Scanning;
        } else {
            self.phase = Phase::Filling { read_any: true };
        }
    }

    /// Tells the session that a read of the stream failed: it ends.
    pub fn fail(&mut self)
        requires
            old(self).wf(),
            old(self).awaiting(),
        ensures
            final(self).wf(),
            final(self).pattern() == old(self).pattern(),
            final(self).seen() == old(self).seen(),
            final(self).reported() == old(self).reported(),
            final(self).window_capacity() == old(self).window_capacity(),
            final(self).pending_error() is None,
            final(self).ended(),
            !final(self).exhausted(),
    {
        self.phase = Phase::Failed;
    }

    proof fn lemma_reported_prefix(&self)
        requires
            self.wf(),
            self.needle@.len() > 0,
        ensures
            self.reported@.is_prefix_of(all_matches(self.seen@, self.needle@)),
    {
        let e = Seq::<u8>::empty();
        assert(self.seen@ + e =~= self.seen@);
        assert(all_matches(self.seen@ + e, self.needle@) == self.reported@ + matches_from(
            self.seen@ + e,
            self.needle@,
            self.stream_pos as int,
        ));
        assert(self.reported@ =~= all_matches(self.seen@, self.needle@).subrange(
            0,
            self.reported@.len() as int,
        ));
    }

    /// Once the scan has passed every offset at which a match could fit in
    /// what was fed, everything has been reported.
    proof fn lemma_reported_all(&self)
        requires
            self.wf(),
            self.phase is Filling || self.phase is Exhausted,
        ensures
            self.reported@ == all_matches(self.seen@, self.needle@),
    {
        if self.needle@.len() > 0 {
            let e = Seq::<u8>::empty();
            assert(self.seen@ + e =~= self.seen@);
            assert(all_matches(self.seen@ + e, self.needle@) == self.reported@ + matches_from(
                self.seen@ + e,
                self.needle@,
                self.stream_pos as int,
            ));
            assert(self.reported@ + matches_from(self.seen@, self.needle@, self.stream_pos as int)
                =~= self.reported@);
        }
    }
}

/// For every head of length `unread` before the tail `seen`, the backward
/// sequence of matches of `n` in the whole stream is `reported`, followed by
/// the matches that end at or before `scan_end`.
pub open spec fn rev_consistent(
    seen: Seq<u8>,
    n: Seq<u8>,
    reported: Seq<int>,
    unread: int,
    scan_end: int,
) -> bool {
    forall|head: Seq<u8>|
        head.len() == unread ==> #[trigger] all_matches_rev(head + seen, n) == reported
            + matches_before(head + seen, n, scan_end)
}

/// `r` is what starting a backward session for `needle` on a stream of
/// `stream_len` bytes gives: an error for an empty needle or a length that
/// does not fit in a `usize`, else a fresh session.
pub open spec fn rev_started(
    needle: Seq<u8>,
    stream_len: u64,
    r: Result<FindRevIter, SearchError>,
) -> bool {
    if needle.len() == 0 {
        r == Err::<FindRevIter, SearchError>(SearchError::EmptyNeedle)
    } else if stream_len > usize::MAX {
        r == Err::<FindRevIter, SearchError>(SearchError::StreamTooLong)
    } else {
        &&& r is Ok
        &&& r->Ok_0.wf()
        &&& r->Ok_0.pattern() == needle
        &&& r->Ok_0.seen() == Seq::<u8>::empty()
        &&& r->Ok_0.reported() == Seq::<int>::empty()
        &&& r->Ok_0.stream_size() == stream_len
        &&& r->Ok_0.window_capacity() == window_capacity(needle.len() as int)
        &&& !r->Ok_0.awaiting()
        &&& !r->Ok_0.ended()
    }
}

/// What a backward session asks of its driver.
#[derive(Clone, Copy, Debug, PartialEq, Eq, Structural)]
pub enum RevStep {
    /// A match begins at this offset of the stream.
    Found(usize),
    /// Read exactly `len` bytes of the stream from offset `pos` and pass them
    /// to `feed`.
    ReadAt { pos: usize, len: usize },
    /// The session has ended.
    Done,
}

#[derive(Clone, Copy)]
enum RevPhase {
    Scanning,
    Reading(usize),
    Exhausted,
    Failed,
}

/// A backward search session: it reports the non-overlapping matches of a
/// needle from the last to the first, as a scan from the end finds them.
pub struct FindRevIter {
    needle: Vec<u8>,
    buf: BufferRev,
    /// How many bytes at the back of the window have been scanned.
    search_pos: usize,
    /// The offset in the stream where the unscanned part of the window ends.
    stream_pos: usize,
    /// How many bytes at the head of the stream have not been read yet.
    seek_pos: usize,
    stream_len: usize,
    phase: RevPhase,
    seen: Ghost<Seq<u8>>,
    reported: Ghost<Seq<int>>,
}

impl FindRevIter {
    /// The needle searched for.
    pub closed spec fn pattern(&self) -> Seq<u8> {
        self.needle@
    }

    /// The tail of the stream read so far.
    pub closed spec fn seen(&self) -> Seq<u8> {
        self.seen@
    }

    /// Every offset reported so far, in order.
    pub closed spec fn reported(&self) -> Seq<int> {
        self.reported@
    }

    /// The length of the stream, as the driver gave it.
    pub closed spec fn stream_size(&self) -> int {
        self.stream_len as int
    }

    /// The length of the head of the stream that has not been read yet.
    pub closed spec fn unread(&self) -> int {
        self.seek_pos as int
    }

    /// Matches that end at or before this offset have not been scanned for.
    pub closed spec fn scan_end(&self) -> int {
        self.stream_pos as int
    }

    /// The session waits for `feed`.
    pub closed spec fn awaiting(&self) -> bool {
        self.phase is Reading
    }

    /// The length of the read that the session waits for.
    pub closed spec fn read_len(&self) -> int {
        match self.phase {
            RevPhase::Reading(amount) => amount as int,
            _ => 0,
        }
    }

    /// The whole stream was read and every match in it has been reported.
    pub closed spec fn exhausted(&self) -> bool {
        self.phase is Exhausted
    }

    /// The session has ended, normally or not.
    pub closed spec fn ended(&self) -> bool {
        self.phase is Exhausted || self.phase is Failed
    }

    /// The capacity of the window.
    pub closed spec fn window_capacity(&self) -> int {
        self.buf.storage_len()
    }

    /// Whatever the unread head of the stream holds, the backward sequence
    /// of matches of the whole stream is what was reported, followed by the
    /// matches that end at or before `scan_end()`.
    pub open spec fn consistent(&self) -> bool {
        rev_consistent(
            self.seen(),
            self.pattern(),
            self.reported(),
            self.unread(),
            self.scan_end(),
        )
    }

    /// The session is well formed: its window holds the first bytes of the
    /// read tail, and it is `consistent`.
    pub closed spec fn wf(&self) -> bool {
        let n = self.needle@;
        let seen = self.seen@;
        let w = self.buf@;
        &&& self.buf.wf()
        &&& n.len() > 0
        &&& self.buf.min_len() == n.len()
        &&& self.seek_pos + seen.len() == self.stream_len
        &&& w.len() <= seen.len()
        &&& w == seen.subrange(0, w.len() as int)
        &&& self.search_pos <= w.len()
        &&& self.stream_pos == self.seek_pos + w.len() - self.search_pos
        &&& self.consistent()
        &&& (self.phase is Reading || self.phase is Exhausted) ==> self.stream_pos
            < self.seek_pos + n.len()
        &&& match self.phase {
            RevPhase::Reading(amount) => 0 < amount <= self.seek_pos && amount
                <= self.buf.storage_len() - w.len(),
            RevPhase::Exhausted => self.seek_pos == 0,
            _ => true,
        }
    }

    /// Starts a session that searches a stream of `stream_len` bytes for the
    /// needle of `finder`, from its end.
    pub(crate) fn new(finder: &StreamFinder, stream_len: u64) -> (r: Result<
        FindRevIter,
        SearchError,
    >)
        requires
            finder@.len() <= usize::MAX / 8,
        ensures
            rev_started(finder@, stream_len, r),
    {
        FindRevIter::new_with_needle(finder.needle(), stream_len)
    }

    /// Starts a session that searches a stream of `stream_len` bytes for
    /// `needle`, from its end.
    pub(crate) fn new_with_needle(needle: &[u8], stream_len: u64) -> (r: Result<
        FindRevIter,
        SearchError,
    >)
        requires
            needle@.len() <= usize::MAX / 8,
        ensures
            rev_started(needle@, stream_len, r),
    {
        if needle.len() == 0 {
            return Err(SearchError::EmptyNeedle);
        }
        if stream_len > usize::MAX as u64 {
            return Err(SearchError::StreamTooLong);
        }
        let len = stream_len as usize;
        let r = FindRevIter {
            needle: vstd::slice::slice_to_vec(needle),
            buf: BufferRev::new(needle.len()),
            search_pos: 0,
            stream_pos: len,
            seek_pos: len,
            stream_len: len,
            phase: RevPhase::Scanning,
            seen: Ghost(Seq::empty()),
            reported: Ghost(Seq::empty()),
        };
        proof {
            assert forall|head: Seq<u8>| head.len() == r.unread() implies #[trigger] all_matches_rev(
                head + r.seen(),
                r.pattern(),
            ) == r.reported() + matches_before(head + r.seen(), r.pattern(), r.scan_end()) by {
                assert(head + r.seen() =~= head);
                assert(r.reported() + matches_before(head, r.pattern(), r.scan_end())
                    =~= matches_before(head, r.pattern(), r.scan_end()));
            }
            assert(r.buf@ =~= r.seen@.subrange(0, 0));
        }
        Ok(r)
    }

    /// The next thing the session needs: it reports the next match, from
    /// the end, of what was read so far, or asks for the bytes just before
    /// those once every such match has been reported, or says that it has
    /// ended.
    pub fn poll(&mut self) -> (r: RevStep)
        requires
            old(self).wf(),
        ensures
            final(self).wf(),
            final(self).consistent(),
            final(self).pattern() == old(self).pattern(),
            final(self).seen() == old(self).seen(),
            final(self).stream_size() == old(self).stream_size(),
            final(self).unread() == old(self).unread(),
            final(self).window_capacity() == old(self).window_capacity(),
            match r {
                RevStep::Found(p) => {
                    &&& final(self).reported() == old(self).reported().push(p as int)
                    &&& final(self).scan_end() == p
                    &&& occurs_at(
                        final(self).seen(),
                        final(self).pattern(),
                        p - final(self).unread(),
                    )
                    &&& !final(self).awaiting()
                    &&& !final(self).ended()
                },
                RevStep::ReadAt { pos, len } => {
                    &&& final(self).reported() == old(self).reported()
                    &&& final(self).scan_end() < final(self).unread() + final(self).pattern().len()
                    &&& final(self).awaiting()
                    &&& final(self).read_len() == len
                    &&& 0 < len <= final(self).unread()
                    &&& pos + len == final(self).unread()
                },
                RevStep::Done => {
                    &&& final(self).reported() == old(self).reported()
                    &&& final(self).ended()
                    &&& final(self).exhausted() == (old(self).exhausted() || !old(self).ended())
                },
            },
            old(self).ended() ==> r is Done,
            old(self).awaiting() ==> r is ReadAt,
            final(self).exhausted() ==> final(self).seen().len() == final(self).stream_size()
                && final(self).reported() == all_matches_rev(
                final(self).seen(),
                final(self).pattern(),
            ),
    {
        match self.phase {
            RevPhase::Failed => {
                return RevStep::Done;
            },
            RevPhase::Exhausted => {
                proof {
                    self.lemma_reported_all();
                }
                return RevStep::Done;
            },
            RevPhase::Reading(amount) => {
                return RevStep::ReadAt { pos: self.seek_pos - amount, len: amount };
            },
            RevPhase::Scanning => {},
        }
        let ghost seen = self.seen();
        let ghost n = self.pattern();
        let ghost s = self.seek_pos as int;
        let len = self.buf.len();
        let nlen = self.needle.len();
        if self.search_pos < len {
            let e = len - self.search_pos;
            let rest = slice_subrange(self.buf.buffer(), 0, e);
            proof {
                assert(rest@ =~= seen.subrange(0, e as int));
            }
            match last_occurrence(rest, self.needle.as_slice()) {
                Some(m) => {
                    let p = self.seek_pos + m;
                    proof {
                        let sp = self.stream_pos as int;
                        assert forall|head: Seq<u8>| head.len() == s implies #[trigger] all_matches_rev(
                            head + seen,
                            n,
                        ) == self.reported@.push(p as int) + matches_before(
                            head + seen,
                            n,
                            p as int,
                        ) by {
                            let h = head + seen;
                            assert(all_matches_rev(h, n) == self.reported@ + matches_before(
                                h,
                                n,
                                sp,
                            ));
                            assert forall|k: int| p + n.len() < k + n.len() <= sp implies !occurs_at(
                                h,
                                n,
                                k,
                            ) by {
                                lemma_occurs_in_head(head, seen, n, e as int, k - s);
                            }
                            lemma_occurs_in_head(head, seen, n, e as int, m as int);
                            lemma_skip_backward(h, n, p + n.len(), sp);
                            assert(matches_before(h, n, p + n.len()) == seq![p as int]
                                + matches_before(h, n, p as int));
                            assert(self.reported@ + matches_before(h, n, sp) =~= self.reported@.push(
                                p as int,
                            ) + matches_before(h, n, p as int));
                        }
                        assert(seen.subrange(0, e as int).subrange(m as int, m + n.len())
                            =~= seen.subrange(m as int, m + n.len()));
                    }
                    self.stream_pos = p;
                    self.search_pos = len - m;
                    self.reported = Ghost(self.reported@.push(p as int));
                    return RevStep::Found(p);
                },
                None => {
                    if len >= nlen && self.search_pos < len - nlen + 1 {
                        proof {
                            let sp = self.stream_pos as int;
                            let sp2 = s + n.len() - 1;
                            assert forall|head: Seq<u8>| head.len() == s implies #[trigger] all_matches_rev(
                                head + seen,
                                n,
                            ) == self.reported@ + matches_before(head + seen, n, sp2) by {
                                let h = head + seen;
                                assert(all_matches_rev(h, n) == self.reported@ + matches_before(
                                    h,
                                    n,
                                    sp,
                                ));
                                assert forall|k: int| sp2 < k + n.len() <= sp implies !occurs_at(
                                    h,
                                    n,
                                    k,
                                ) by {
                                    lemma_occurs_in_head(head, seen, n, e as int, k - s);
                                }
                                lemma_skip_backward(h, n, sp2, sp);
                            }
                        }
                        self.stream_pos = self.seek_pos + nlen - 1;
                        self.search_pos = len - nlen + 1;
                    }
                },
            }
        }
        if self.seek_pos == 0 {
            self.phase = RevPhase::Exhausted;
            proof {
                self.lemma_reported_all();
            }
            return RevStep::Done;
        }
        if len >= nlen {
            self.buf.roll_right();
            self.search_pos = self.search_pos - (len - nlen);
            proof {
                assert(self.buf@ =~= seen.subrange(0, nlen as int));
            }
        }
        let free = self.buf.free_buffer();
        let amount = if free < self.seek_pos {
            free
        } else {
            self.seek_pos
        };
        self.phase = RevPhase::Reading(amount);
        RevStep::ReadAt { pos: self.seek_pos - amount, len: amount }
    }

    /// Hands the session the bytes that it asked for.
    pub fn feed(&mut self, data: &[u8])
        requires
            old(self).wf(),
            old(self).awaiting(),
            data@.len() == old(self).read_len(),
        ensures
            final(self).wf(),
            final(self).consistent(),
            final(self).pattern() == old(self).pattern(),
            final(self).seen() == data@ + old(self).seen(),
            final(self).unread() == old(self).unread() - data@.len(),
            final(self).reported() == old(self).reported(),
            final(self).scan_end() == old(self).scan_end(),
            final(self).stream_size() == old(self).stream_size(),
            final(self).window_capacity() == old(self).window_capacity(),
            !final(self).awaiting(),
            !final(self).ended(),
    {
        let ghost seen = self.seen();
        let ghost n = self.pattern();
        self.buf.fill_exact(data);
        self.seek_pos = self.seek_pos - data.len();
        self.seen = Ghost(data@ + seen);
        self.phase = RevPhase::Scanning;
        proof {
            assert forall|head: Seq<u8>| head.len() == self.unread() implies #[trigger] all_matches_rev(
                head + self.seen(),
                n,
            ) == self.reported() + matches_before(head + self.seen(), n, self.scan_end()) by {
                assert(head + self.seen@ =~= (head + data@) + seen);
                assert(all_matches_rev((head + data@) + seen, n) == self.reported() + matches_before(
                    (head + data@) + seen,
                    n,
                    self.scan_end(),
                ));
            }
            assert(self.buf@ =~= self.seen@.subrange(0, self.buf@.len() as int));
        }
    }

    /// Tells the session that a read of the stream failed or came up short:
    /// it ends.
    pub fn fail(&mut self)
        requires
            old(self).wf(),
            old(self).awaiting(),
        ensures
            final(self).wf(),
            final(self).consistent(),
            final(self).pattern() == old(self).pattern(),
            final(self).seen() == old(self).seen(),
            final(self).reported() == old(self).reported(),
            final(self).stream_size() == old(self).stream_size(),
            final(self).window_capacity() == old(self).window_capacity(),
            final(self).ended(),
            !final(self).exhausted(),
    {
        self.phase = RevPhase::Failed;
    }

    /// Once the whole stream was read and scanned, everything has been
    /// reported.
    proof fn lemma_reported_all(&self)
        requires
            self.wf(),
            self.phase is Exhausted,
        ensures
            self.seen@.len() == self.stream_len,
            self.reported@ == all_matches_rev(self.seen@, self.needle@),
    {
        let e = Seq::<u8>::empty();
        let seen = self.seen();
        assert(e + seen =~= self.seen@);
        assert(all_matches_rev(e + seen, self.pattern()) == self.reported() + matches_before(
            e + seen,
            self.pattern(),
            self.scan_end(),
        ));
        assert(self.reported@ + matches_before(self.seen@, self.needle@, self.stream_pos as int)
            =~= self.reported@);
    }

    /// Returns the length of the stream.
    pub fn stream_len(&self) -> (r: usize)
        requires
            self.wf(),
        ensures
            r == self.stream_size(),
    {
        self.stream_len
    }
}

/// A forward session that ran to the end of the stream reported exactly the
/// non-overlapping matches, first to last, that a search of the whole stream
/// held in memory finds, however the reads were split.
pub proof fn lemma_forward_matches_reference(it: &FindIter)
    requires
        it.wf(),
        it.exhausted(),
    ensures
        it.reported() == all_matches(it.seen(), it.pattern()),
{
    it.lemma_reported_all();
}

/// A backward session that ran to the start of the stream read all of it
/// and reported the matches that a scan from the end finds; for a needle
/// that cannot overlap itself, those are the matches of a forward search,
/// last to first.
pub proof fn lemma_backward_matches_reference(it: &FindRevIter)
    requires
        it.wf(),
        it.exhausted(),
    ensures
        it.seen().len() == it.stream_size(),
        it.reported() == all_matches_rev(it.seen(), it.pattern()),
        !overlaps_itself(it.pattern()) ==> it.reported() == all_matches(
            it.seen(),
            it.pattern(),
        ).reverse(),
{
    it.lemma_reported_all();
    if !overlaps_itself(it.pattern()) {
        lemma_backward_is_reverse(it.seen(), it.pattern());
    }
}

/// Two forward sessions for the same needle that ran to the end of streams
/// with the same contents reported the same matches.
pub proof fn lemma_forward_sessions_agree(a: &FindIter, b: &FindIter)
    requires
        a.wf(),
        b.wf(),
        a.exhausted(),
        b.exhausted(),
        a.pattern() == b.pattern(),
        a.seen() == b.seen(),
    ensures
        a.reported() == b.reported(),
{
    a.lemma_reported_all();
    b.lemma_reported_all();
}

/// Two backward sessions for the same needle that ran to the start of
/// streams with the same contents reported the same matches.
pub proof fn lemma_backward_sessions_agree(a: &FindRevIter, b: &FindRevIter)
    requires
        a.wf(),
        b.wf(),
        a.exhausted(),
        b.exhausted(),
        a.pattern() == b.pattern(),
        a.seen() == b.seen(),
    ensures
        a.reported() == b.reported(),
{
    a.lemma_reported_all();
    b.lemma_reported_all();
}

} // verus!
