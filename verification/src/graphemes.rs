//! Grapheme cluster boundaries, found by `unicode_segmentation`, and the
//! choice of the boundary next to an offset.
use vstd::prelude::*;
use unicode_segmentation::UnicodeSegmentation;

verus! {

/// The byte offsets at which the grapheme clusters of `text` start, in the
/// order in which `unicode_segmentation` yields them (extended clusters when
/// `is_extended`).
pub uninterp spec fn grapheme_starts_of(text: Seq<char>, is_extended: bool) -> Seq<usize>;

/// Calls `UnicodeSegmentation::grapheme_indices(text, is_extended)` and keeps
/// the byte offset of each cluster. The contract claims only that the result
/// is `grapheme_starts_of` of the arguments: the segmentation rules of
/// Unicode Standard Annex #29 are not stated here.
#[verifier::external_body]
pub(crate) fn grapheme_starts(text: &str, is_extended: bool) -> (r: Vec<usize>)
    ensures
        r@ == grapheme_starts_of(text@, is_extended),
{
    text.grapheme_indices(is_extended).map(|(i, _)| i).collect()
}

/// The last offset in `starts` that lies before `offset`, or 0 when none does.
pub open spec fn last_start_before(starts: Seq<usize>, offset: int) -> usize
    decreases starts.len(),
{
    if starts.len() == 0 {
        0
    } else if starts.last() < offset {
        starts.last()
    } else {
        last_start_before(starts.drop_last(), offset)
    }
}

/// The first offset in `starts` that lies after `offset`, or `end` when none does.
pub open spec fn first_start_after(starts: Seq<usize>, offset: int, end: usize) -> usize
    decreases starts.len(),
{
    if starts.len() == 0 {
        end
    } else if starts[0] > offset {
        starts[0]
    } else {
        first_start_after(starts.drop_first(), offset, end)
    }
}

/// Searching `starts` from its end, the first offset before `offset`; 0 when
/// there is none.
pub fn previous_start(starts: &[usize], offset: usize) -> (r: usize)
    ensures
        r == last_start_before(starts@, offset as int),
        r < offset || r == 0,
{
    let mut i = starts.len();
    proof {
        assert(starts@.take(i as int) =~= starts@);
    }
    while i > 0
        invariant
            i <= starts@.len(),
            last_start_before(starts@, offset as int) == last_start_before(
                starts@.take(i as int),
                offset as int,
            ),
        decreases i,
    {
        proof {
            let t = starts@.take(i as int);
            assert(t.drop_last() =~= starts@.take(i - 1));
            assert(t.last() == starts@[i - 1]);
        }
        if starts[i - 1] < offset {
            return starts[i - 1];
        }
        i = i - 1;
    }
    0
}

/// Searching `starts` from its front, the first offset after `offset`; `end`
/// when there is none.
pub fn next_start(starts: &[usize], offset: usize, end: usize) -> (r: usize)
    ensures
        r == first_start_after(starts@, offset as int, end),
        r > offset || r == end,
{
    let n = starts.len();
    let mut i: usize = 0;
    proof {
        assert(starts@.skip(0) =~= starts@);
    }
    while i < n
        invariant
            n == starts@.len(),
            i <= n,
            first_start_after(starts@, offset as int, end) == first_start_after(
                starts@.skip(i as int),
                offset as int,
                end,
            ),
        decreases n - i,
    {
        proof {
            let t = starts@.skip(i as int);
            assert(t.drop_first() =~= starts@.skip(i + 1));
            assert(t[0] == starts@[i as int]);
        }
        if starts[i] > offset {
            return starts[i];
        }
        i = i + 1;
    }
    end
}

/// Laws of the two searches that hold whatever the boundaries are.
pub proof fn lemma_start_searches(starts: Seq<usize>, offset: int, end: usize)
    ensures
        last_start_before(starts, offset) < offset || last_start_before(starts, offset) == 0,
        first_start_after(starts, offset, end) > offset || first_start_after(starts, offset, end)
            == end,
    decreases starts.len(),
{
    if starts.len() > 0 {
        lemma_start_searches(starts.drop_last(), offset, end);
        lemma_start_searches(starts.drop_first(), offset, end);
    }
}

/// The search before `offset` finds the last start (by position) that lies
/// before `offset`: it is one of the starts, below `offset`, and every start
/// after it lies at or past `offset`; it is 0 only when no start lies before
/// `offset` or when that start is 0. When the starts ascend, it is the
/// greatest start before `offset`.
pub proof fn lemma_last_start_before(starts: Seq<usize>, offset: int)
    ensures
        (forall|i: int| 0 <= i < starts.len() ==> #[trigger] starts[i] >= offset)
            ==> last_start_before(starts, offset) == 0,
        (exists|i: int| 0 <= i < starts.len() && #[trigger] starts[i] < offset) ==> exists|i: int|
            0 <= i < starts.len() && #[trigger] starts[i] == last_start_before(starts, offset)
                && starts[i] < offset && forall|j: int|
                i < j < starts.len() ==> #[trigger] starts[j] >= offset,
        (forall|i: int, j: int| 0 <= i < j < starts.len() ==> #[trigger] starts[i] < #[trigger] starts[j])
            ==> forall|i: int|
            0 <= i < starts.len() && #[trigger] starts[i] < offset ==> starts[i] <= last_start_before(
                starts,
                offset,
            ),
    decreases starts.len(),
{
    if starts.len() > 0 {
        let t = starts.drop_last();
        let n = starts.len() - 1;
        lemma_last_start_before(t, offset);
        if starts[n] < offset {
            assert(starts.last() == starts[n]);
        } else {
            assert(starts.last() == starts[n]);
            if exists|i: int| 0 <= i < starts.len() && #[trigger] starts[i] < offset {
                let i0 = choose|i: int| 0 <= i < starts.len() && #[trigger] starts[i] < offset;
                assert(t[i0] == starts[i0]);
                let i1 = choose|i: int|
                    0 <= i < t.len() && #[trigger] t[i] == last_start_before(t, offset) && t[i]
                        < offset && forall|j: int| i < j < t.len() ==> #[trigger] t[j] >= offset;
                assert(starts[i1] == t[i1]);
                assert forall|j: int| i1 < j < starts.len() implies #[trigger] starts[j] >= offset by {
                    if j < n {
                        assert(t[j] == starts[j]);
                    }
                }
            }
            assert forall|i: int| 0 <= i < t.len() implies #[trigger] t[i] == starts[i] by {}
        }
    }
}

/// The search after `offset` finds the first start (by position) that lies
/// after `offset`: it is one of the starts, above `offset`, and every start
/// before it lies at or before `offset`; it is `end` when no start lies after
/// `offset`. When the starts ascend, it is the least start after `offset`.
pub proof fn lemma_first_start_after(starts: Seq<usize>, offset: int, end: usize)
    ensures
        (forall|i: int| 0 <= i < starts.len() ==> #[trigger] starts[i] <= offset)
            ==> first_start_after(starts, offset, end) == end,
        (exists|i: int| 0 <= i < starts.len() && #[trigger] starts[i] > offset) ==> exists|i: int|
            0 <= i < starts.len() && #[trigger] starts[i] == first_start_after(starts, offset, end)
                && starts[i] > offset && forall|j: int| 0 <= j < i ==> #[trigger] starts[j] <= offset,
        (forall|i: int, j: int| 0 <= i < j < starts.len() ==> #[trigger] starts[i] < #[trigger] starts[j])
            ==> forall|i: int|
            0 <= i < starts.len() && #[trigger] starts[i] > offset ==> first_start_after(
                starts,
                offset,
                end,
            ) <= starts[i],
    decreases starts.len(),
{
    if starts.len() > 0 {
        let t = starts.drop_first();
        lemma_first_start_after(t, offset, end);
        assert forall|i: int| 0 <= i < t.len() implies #[trigger] t[i] == starts[i + 1] by {}
        if starts[0] <= offset {
            if exists|i: int| 0 <= i < starts.len() && #[trigger] starts[i] > offset {
                let i0 = choose|i: int| 0 <= i < starts.len() && #[trigger] starts[i] > offset;
                assert(t[i0 - 1] == starts[i0]);
                let i1 = choose|i: int|
                    0 <= i < t.len() && #[trigger] t[i] == first_start_after(t, offset, end)
                        && t[i] > offset && forall|j: int| 0 <= j < i ==> #[trigger] t[j] <= offset;
                assert(starts[i1 + 1] == t[i1]);
                assert forall|j: int| 0 <= j < i1 + 1 implies #[trigger] starts[j] <= offset by {
                    if j > 0 {
                        assert(t[j - 1] == starts[j]);
                    }
                }
            }
            if forall|i: int, j: int| 0 <= i < j < starts.len() ==> #[trigger] starts[i] < #[trigger] starts[j] {
                assert forall|i: int, j: int| 0 <= i < j < t.len() implies #[trigger] t[i] < #[trigger] t[j] by {
                    assert(starts[i + 1] < starts[j + 1]);
                }
                assert forall|i: int| 0 <= i < starts.len() && #[trigger] starts[i] > offset implies first_start_after(
                    starts,
                    offset,
                    end,
                ) <= starts[i] by {
                    assert(t[i - 1] == starts[i]);
                }
            }
        }
    }
}

} // verus!
