//! The mathematical model of the search: where a needle occurs in a byte
//! sequence, and which occurrences a greedy scan reports in each direction.
use vstd::prelude::*;

verus! {

/// The needle `n` occurs in `h` at offset `i`.
pub open spec fn occurs_at(h: Seq<u8>, n: Seq<u8>, i: int) -> bool {
    0 <= i && i + n.len() <= h.len() && h.subrange(i, i + n.len()) == n
}

/// The offsets, in increasing order, that a left-to-right scan of `h` starting
/// at `i` reports: each match is taken as soon as it is seen, and the scan
/// resumes just past it, so that no two reported matches overlap.
pub open spec fn matches_from(h: Seq<u8>, n: Seq<u8>, i: int) -> Seq<int>
    decreases h.len() - i,
{
    if n.len() == 0 || i < 0 || i + n.len() > h.len() {
        Seq::empty()
    } else if occurs_at(h, n, i) {
        seq![i] + matches_from(h, n, i + n.len())
    } else {
        matches_from(h, n, i + 1)
    }
}

/// All non-overlapping matches of `n` in `h`, first to last.
pub open spec fn all_matches(h: Seq<u8>, n: Seq<u8>) -> Seq<int> {
    matches_from(h, n, 0)
}

/// The offsets, in decreasing order, that a right-to-left scan of `h[0..j]`
/// reports: each match is taken as soon as it is seen, and the scan resumes
/// just before it.
pub open spec fn matches_before(h: Seq<u8>, n: Seq<u8>, j: int) -> Seq<int>
    decreases j,
{
    if n.len() == 0 || j < n.len() || j > h.len() {
        Seq::empty()
    } else if occurs_at(h, n, j - n.len()) {
        seq![j - n.len()] + matches_before(h, n, j - n.len())
    } else {
        matches_before(h, n, j - 1)
    }
}

/// All non-overlapping matches of `n` in `h`, as a scan from the end reports
/// them: last to first.
pub open spec fn all_matches_rev(h: Seq<u8>, n: Seq<u8>) -> Seq<int> {
    matches_before(h, n, h.len() as int)
}

/// Two copies of `n` can overlap: some proper suffix of `n` is also a
/// prefix of it.
pub open spec fn overlaps_itself(n: Seq<u8>) -> bool {
    exists|d: int| 0 < d < n.len() && #[trigger] n.subrange(d, n.len() as int) == n.subrange(0, n.len() - d)
}

/// Every offset `p` with `i <= p` and `p + n.len() <= j` at which `n`
/// occurs in `h`, in increasing order, overlapping or not.
pub open spec fn occurrences_in(h: Seq<u8>, n: Seq<u8>, i: int, j: int) -> Seq<int>
    decreases j - i,
{
    if n.len() == 0 || i < 0 || j > h.len() || i + n.len() > j {
        Seq::empty()
    } else if occurs_at(h, n, i) {
        seq![i] + occurrences_in(h, n, i + 1, j)
    } else {
        occurrences_in(h, n, i + 1, j)
    }
}

/// The offsets of `s` grow strictly from first to last.
pub open spec fn strictly_increasing(s: Seq<int>) -> bool {
    forall|a: int, b: int| 0 <= a < b < s.len() ==> s[a] < s[b]
}

/// Starting the forward scan anywhere in a stretch without occurrences is the
/// same as starting it after that stretch.
pub(crate) proof fn lemma_skip_forward(h: Seq<u8>, n: Seq<u8>, i: int, j: int)
    requires
        0 <= i <= j,
        forall|k: int| i <= k < j ==> !occurs_at(h, n, k),
    ensures
        matches_from(h, n, i) == matches_from(h, n, j),
    decreases j - i,
{
    if i < j {
        lemma_skip_forward(h, n, i + 1, j);
    }
}

/// Ending the backward scan anywhere in a stretch without occurrence ends is
/// the same as ending it before that stretch.
pub(crate) proof fn lemma_skip_backward(h: Seq<u8>, n: Seq<u8>, i: int, j: int)
    requires
        0 <= i <= j <= h.len(),
        forall|k: int| i < k + n.len() <= j ==> !occurs_at(h, n, k),
    ensures
        matches_before(h, n, j) == matches_before(h, n, i),
    decreases j - i,
{
    if i < j {
        lemma_skip_backward(h, n, i, j - 1);
    }
}

/// What lies at offset `k` of the tail `h[a..]` lies at offset `a + k` of
/// `h`, and of every extension of `h`.
pub(crate) proof fn lemma_occurs_in_tail(h: Seq<u8>, ext: Seq<u8>, n: Seq<u8>, a: int, k: int)
    requires
        0 <= a <= h.len(),
        0 <= k,
        a + k + n.len() <= h.len(),
    ensures
        occurs_at(h.subrange(a, h.len() as int), n, k) == occurs_at(h + ext, n, a + k),
{
    assert(h.subrange(a, h.len() as int).subrange(k, k + n.len()) =~= (h + ext).subrange(
        a + k,
        a + k + n.len(),
    ));
}

/// What lies at offset `k` of the head `h[..e]` lies at offset
/// `pre.len() + k` of `pre + h`.
pub(crate) proof fn lemma_occurs_in_head(pre: Seq<u8>, h: Seq<u8>, n: Seq<u8>, e: int, k: int)
    requires
        0 <= e <= h.len(),
        0 <= k,
        k + n.len() <= e,
    ensures
        occurs_at(h.subrange(0, e), n, k) == occurs_at(pre + h, n, pre.len() + k),
{
    assert(h.subrange(0, e).subrange(k, k + n.len()) =~= (pre + h).subrange(
        pre.len() + k,
        pre.len() + k + n.len(),
    ));
}

/// Two occurrences of a needle that cannot overlap itself are at least a
/// needle's length apart.
pub(crate) proof fn lemma_occurrences_apart(h: Seq<u8>, n: Seq<u8>, p: int, q: int)
    requires
        !overlaps_itself(n),
        occurs_at(h, n, p),
        occurs_at(h, n, q),
        p < q,
    ensures
        p + n.len() <= q,
{
    if q < p + n.len() {
        let d = q - p;
        let l = n.len() as int;
        assert(n.subrange(d, l) =~= h.subrange(q, p + l));
        assert(n.subrange(0, l - d) =~= h.subrange(q, p + l));
        assert(n.subrange(d, l) == n.subrange(0, l - d));
    }
}

/// The occurrences are found by peeling the window from the right as well.
proof fn lemma_occurrences_peel_right(h: Seq<u8>, n: Seq<u8>, i: int, j: int)
    requires
        n.len() > 0,
        0 <= i,
        i + n.len() <= j <= h.len(),
    ensures
        occurrences_in(h, n, i, j) == occurrences_in(h, n, i, j - 1) + (if occurs_at(
            h,
            n,
            j - n.len(),
        ) {
            seq![j - n.len()]
        } else {
            Seq::empty()
        }),
    decreases j - i,
{
    if i + n.len() < j {
        lemma_occurrences_peel_right(h, n, i + 1, j);
        let tail = if occurs_at(h, n, j - n.len()) {
            seq![j - n.len()]
        } else {
            Seq::<int>::empty()
        };
        if occurs_at(h, n, i) {
            assert(seq![i] + (occurrences_in(h, n, i + 1, j - 1) + tail) =~= (seq![i]
                + occurrences_in(h, n, i + 1, j - 1)) + tail);
        }
    } else {
        assert(occurrences_in(h, n, i + 1, j) =~= Seq::<int>::empty());
        assert(occurrences_in(h, n, i, j - 1) =~= Seq::<int>::empty());
        if occurs_at(h, n, i) {
            assert(seq![i] + Seq::<int>::empty() =~= Seq::<int>::empty() + seq![i]);
        } else {
            assert(Seq::<int>::empty() + Seq::<int>::empty() =~= Seq::<int>::empty());
        }
    }
}

/// Moving the start of the window past offsets without occurrences changes
/// nothing.
proof fn lemma_occurrences_skip_left(h: Seq<u8>, n: Seq<u8>, i: int, k: int, j: int)
    requires
        0 <= i <= k,
        forall|p: int| i <= p < k ==> !occurs_at(h, n, p),
    ensures
        occurrences_in(h, n, i, j) == occurrences_in(h, n, k, j),
    decreases k - i,
{
    if i < k {
        lemma_occurrences_skip_left(h, n, i + 1, k, j);
        if n.len() == 0 || j > h.len() || i + n.len() > j {
            assert(occurrences_in(h, n, i + 1, j) =~= Seq::<int>::empty());
        }
    }
}

/// Moving the end of the window before offsets without occurrence ends
/// changes nothing.
proof fn lemma_occurrences_skip_right(h: Seq<u8>, n: Seq<u8>, i: int, k: int, j: int)
    requires
        n.len() > 0,
        0 <= i,
        k <= j <= h.len(),
        forall|p: int| i <= p && k < p + n.len() <= j ==> !occurs_at(h, n, p),
    ensures
        occurrences_in(h, n, i, j) == occurrences_in(h, n, i, k),
    decreases j - k,
{
    if k < j {
        if i + n.len() <= j {
            lemma_occurrences_peel_right(h, n, i, j);
            assert(occurrences_in(h, n, i, j - 1) + Seq::<int>::empty() =~= occurrences_in(
                h,
                n,
                i,
                j - 1,
            ));
        }
        lemma_occurrences_skip_right(h, n, i, k, j - 1);
    }
}

/// For a needle that cannot overlap itself, the forward scan reports every
/// occurrence.
proof fn lemma_forward_is_all(h: Seq<u8>, n: Seq<u8>, i: int)
    requires
        n.len() > 0,
        0 <= i,
        !overlaps_itself(n),
    ensures
        matches_from(h, n, i) == occurrences_in(h, n, i, h.len() as int),
    decreases h.len() - i,
{
    if i + n.len() <= h.len() {
        if occurs_at(h, n, i) {
            lemma_forward_is_all(h, n, i + n.len());
            assert forall|p: int| i + 1 <= p < i + n.len() implies !occurs_at(h, n, p) by {
                if occurs_at(h, n, p) {
                    lemma_occurrences_apart(h, n, i, p);
                }
            }
            lemma_occurrences_skip_left(h, n, i + 1, i + n.len(), h.len() as int);
        } else {
            lemma_forward_is_all(h, n, i + 1);
        }
    }
}

/// For a needle that cannot overlap itself, the backward scan reports every
/// occurrence, last to first.
proof fn lemma_backward_is_all(h: Seq<u8>, n: Seq<u8>, j: int)
    requires
        n.len() > 0,
        j <= h.len(),
        !overlaps_itself(n),
    ensures
        matches_before(h, n, j).reverse() == occurrences_in(h, n, 0, j),
    decreases j,
{
    if j < n.len() {
        assert(matches_before(h, n, j).reverse() =~= Seq::<int>::empty());
    } else {
        let l = n.len() as int;
        lemma_occurrences_peel_right(h, n, 0, j);
        if occurs_at(h, n, j - l) {
            lemma_backward_is_all(h, n, j - l);
            assert forall|p: int| 0 <= p && j - l < p + l <= j - 1 implies !occurs_at(h, n, p) by {
                if occurs_at(h, n, p) {
                    lemma_occurrences_apart(h, n, p, j - l);
                }
            }
            lemma_occurrences_skip_right(h, n, 0, j - l, j - 1);
            assert((seq![j - l] + matches_before(h, n, j - l)).reverse() =~= matches_before(
                h,
                n,
                j - l,
            ).reverse() + seq![j - l]);
        } else {
            lemma_backward_is_all(h, n, j - 1);
            assert(occurrences_in(h, n, 0, j - 1) + Seq::<int>::empty() =~= occurrences_in(
                h,
                n,
                0,
                j - 1,
            ));
        }
    }
}

/// For a needle that cannot overlap itself, a search from the end of a
/// stream reports the same matches as a search from its start, in reverse
/// order.
pub proof fn lemma_backward_is_reverse(h: Seq<u8>, n: Seq<u8>)
    requires
        !overlaps_itself(n),
    ensures
        all_matches_rev(h, n) == all_matches(h, n).reverse(),
{
    if n.len() == 0 {
        assert(all_matches(h, n).reverse() =~= Seq::<int>::empty());
    } else {
        lemma_forward_is_all(h, n, 0);
        lemma_backward_is_all(h, n, h.len() as int);
        assert(all_matches_rev(h, n) =~= all_matches_rev(h, n).reverse().reverse());
    }
}

/// The forward scan from `i` reports offsets at or after `i`, in strictly
/// increasing order.
proof fn lemma_forward_increasing(h: Seq<u8>, n: Seq<u8>, i: int)
    ensures
        strictly_increasing(matches_from(h, n, i)),
        forall|k: int| 0 <= k < matches_from(h, n, i).len() ==> #[trigger] matches_from(h, n, i)[k] >= i,
    decreases h.len() - i,
{
    if n.len() == 0 || i < 0 || i + n.len() > h.len() {
    } else if occurs_at(h, n, i) {
        lemma_forward_increasing(h, n, i + n.len());
        let m = matches_from(h, n, i);
        let rest = matches_from(h, n, i + n.len());
        assert forall|k: int| 0 < k < m.len() implies m[k] == rest[k - 1] && #[trigger] m[k] > i by {
            assert(rest[k - 1] >= i + n.len());
        }
    } else {
        lemma_forward_increasing(h, n, i + 1);
    }
}

/// Every occurrence that fits in the window is listed.
proof fn lemma_occurrences_complete(h: Seq<u8>, n: Seq<u8>, i: int, j: int, p: int)
    requires
        n.len() > 0,
        0 <= i <= p,
        p + n.len() <= j <= h.len(),
        occurs_at(h, n, p),
    ensures
        occurrences_in(h, n, i, j).contains(p),
    decreases p - i,
{
    if i == p {
        assert(occurrences_in(h, n, i, j)[0] == p);
    } else {
        lemma_occurrences_complete(h, n, i + 1, j, p);
        if occurs_at(h, n, i) {
            let rest = occurrences_in(h, n, i + 1, j);
            let k = choose|k: int| 0 <= k < rest.len() && rest[k] == p;
            assert(occurrences_in(h, n, i, j)[k + 1] == p);
        }
    }
}

/// An occurrence of a needle that cannot overlap itself is reported exactly
/// once by a search from the start of the stream, and exactly once by a
/// search from its end, wherever it lies.
pub proof fn lemma_reported_once(h: Seq<u8>, n: Seq<u8>, p: int)
    requires
        !overlaps_itself(n),
        occurs_at(h, n, p),
        n.len() > 0,
    ensures
        exists|k: int|
            0 <= k < all_matches(h, n).len() && all_matches(h, n)[k] == p && forall|k2: int|
                0 <= k2 < all_matches(h, n).len() && all_matches(h, n)[k2] == p ==> k2 == k,
        exists|k: int|
            0 <= k < all_matches_rev(h, n).len() && all_matches_rev(h, n)[k] == p && forall|
                k2: int,
            |
                0 <= k2 < all_matches_rev(h, n).len() && all_matches_rev(h, n)[k2] == p ==> k2
                    == k,
{
    let m = all_matches(h, n);
    lemma_forward_is_all(h, n, 0);
    lemma_occurrences_complete(h, n, 0, h.len() as int, p);
    lemma_forward_increasing(h, n, 0);
    let k = choose|k: int| 0 <= k < m.len() && m[k] == p;
    assert forall|k2: int| 0 <= k2 < m.len() && m[k2] == p implies k2 == k by {
        if k2 < k {
            assert(m[k2] < m[k]);
        } else if k < k2 {
            assert(m[k] < m[k2]);
        }
    }
    lemma_backward_is_reverse(h, n);
    let r = all_matches_rev(h, n);
    let kr = m.len() - 1 - k;
    assert(r[kr] == p);
    assert forall|k2: int| 0 <= k2 < r.len() && r[k2] == p implies k2 == kr by {
        assert(m[m.len() - 1 - k2] == p);
    }
}

} // verus!
