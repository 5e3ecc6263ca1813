//! Editing state of a single-line text input: its content, the selection
//! and the marked (composing) range, all in UTF-8 byte offsets, with
//! conversions to and from the UTF-16 offsets that input methods use.
use vstd::prelude::*;
use vstd::string::*;
use std::ops::Range;
use crate::text_metrics::{
    byte_offset, char_utf16_width, char_utf8_width, chars_reaching_utf16, chars_reaching_utf8,
    chars_within, floor_boundary, is_boundary, lemma_boundary_within, lemma_char_boundary,
    lemma_chars_reaching_bound, lemma_chars_reaching_offset, lemma_chars_within_offset,
    lemma_floor_boundary, lemma_floor_monotone, lemma_floor_of_boundary, lemma_offset_monotone,
    lemma_offset_step, lemma_offset_zero_and_end, lemma_utf8_len_concat, slice_between,
    lemma_chars_reaching_utf16_order, lemma_chars_reaching_utf8_order, lemma_offset_strictly_increasing,
    split_at_boundary, text_len, utf16_len, utf16_offset, utf8_len,
};
use crate::graphemes::{
    first_start_after, grapheme_starts, grapheme_starts_of, last_start_before, next_start,
    previous_start, lemma_last_start_before, lemma_first_start_after, lemma_start_searches,
};

verus! {

broadcast use vstd::string::group_string_axioms;

/// A selection in UTF-16 offsets, with the side on which the cursor stands.
pub struct Utf16Selection {
    pub range: Range<usize>,
    pub reversed: bool,
}

/// Byte offset reached at UTF-16 offset `u`: the boundary of the first
/// character whose UTF-16 start is at or past `u`, or the end of the text.
pub open spec fn utf16_to_byte(s: Seq<char>, u: int) -> nat {
    byte_offset(s, chars_reaching_utf16(s, u) as int)
}

/// UTF-16 offset reached at byte offset `b`: the UTF-16 start of the first
/// character whose byte start is at or past `b`, or the UTF-16 length.
pub open spec fn byte_to_utf16(s: Seq<char>, b: int) -> nat {
    utf16_offset(s, chars_reaching_utf8(s, b) as int)
}

/// The range that `start..end` becomes once clamped: both ends cut to the
/// text's length, put in order, and moved back to a character boundary.
pub open spec fn clamped(s: Seq<char>, start: int, end: int) -> (nat, nat) {
    let len = utf8_len(s) as int;
    let lo = if start < len {
        start
    } else {
        len
    };
    let hi = if end < len {
        end
    } else {
        len
    };
    if lo > hi {
        (floor_boundary(s, hi), floor_boundary(s, lo))
    } else {
        (floor_boundary(s, lo), floor_boundary(s, hi))
    }
}

/// The selection `(start, end, reversed)` once its active end has moved to
/// `offset`: the active end is `start` when reversed, else `end`; when the
/// ends cross they are swapped and the direction flips.
pub open spec fn selected_to(start: usize, end: usize, reversed: bool, offset: usize) -> (
    usize,
    usize,
    bool,
) {
    let (s1, e1) = if reversed {
        (offset, end)
    } else {
        (start, offset)
    };
    if e1 < s1 {
        (e1, s1, !reversed)
    } else {
        (s1, e1, reversed)
    }
}

/// `s` with the characters between boundaries `a` and `b` replaced by `text`.
pub open spec fn spliced(s: Seq<char>, a: int, b: int, text: Seq<char>) -> Seq<char> {
    s.take(chars_within(s, a) as int) + text + s.skip(chars_within(s, b) as int)
}

/// The editing state of a single-line text input.
pub struct TextInput {
    /// The text typed so far.
    pub content: String,
    /// Text shown while the content is empty.
    pub placeholder: String,
    /// Selected byte range; empty when nothing is selected.
    pub selected_range: Range<usize>,
    /// Whether the cursor stands at the start of the selection.
    pub selection_reversed: bool,
    /// Byte range of text being composed by an input method.
    pub marked_range: Option<Range<usize>>,
}

impl TextInput {
    /// Where the cursor stands.
    pub open spec fn cursor(&self) -> usize {
        if self.selection_reversed {
            self.selected_range.start
        } else {
            self.selected_range.end
        }
    }

    /// Nothing is selected.
    pub open spec fn selection_empty(&self) -> bool {
        self.selected_range.start >= self.selected_range.end
    }

    /// The byte range, before clamping, that an edit given `range_utf16`
    /// replaces: the converted range when one is given, else the marked
    /// range, else the selection.
    pub open spec fn edit_range(&self, range_utf16: Option<Range<usize>>) -> (int, int) {
        match range_utf16 {
            Some(r) => (
                utf16_to_byte(self.content@, r.start as int) as int,
                utf16_to_byte(self.content@, r.end as int) as int,
            ),
            None => match self.marked_range {
                Some(m) => (m.start as int, m.end as int),
                None => (self.selected_range.start as int, self.selected_range.end as int),
            },
        }
    }

    /// The edit range of `range_utf16` once clamped.
    pub open spec fn edit_bounds(&self, range_utf16: Option<Range<usize>>) -> (nat, nat) {
        clamped(self.content@, self.edit_range(range_utf16).0, self.edit_range(range_utf16).1)
    }

    /// The grapheme boundary before byte `offset` (0 when there is none).
    pub open spec fn prev_grapheme(&self, offset: int) -> usize {
        last_start_before(grapheme_starts_of(self.content@, true), offset)
    }

    /// The grapheme boundary after byte `offset` (the end when there is none).
    pub open spec fn next_grapheme(&self, offset: int) -> usize {
        first_start_after(
            grapheme_starts_of(self.content@, true),
            offset,
            utf8_len(self.content@) as usize,
        )
    }

    /// `next` is `self` with an empty selection at `offset` and all else kept.
    pub open spec fn moved_to(&self, next: &TextInput, offset: int) -> bool {
        &&& next.selected_range.start == offset
        &&& next.selected_range.end == offset
        &&& next.content == self.content
        &&& next.placeholder == self.placeholder
        &&& next.selection_reversed == self.selection_reversed
        &&& next.marked_range == self.marked_range
    }

    /// `next` is `self` after the bytes `start..end`, once clamped, were
    /// replaced by `text`, leaving an empty selection just after the new text
    /// and nothing marked.
    pub open spec fn replaced_into(
        &self,
        next: &TextInput,
        start: int,
        end: int,
        text: Seq<char>,
    ) -> bool {
        let bounds = clamped(self.content@, start, end);
        &&& next.content@ == spliced(self.content@, bounds.0 as int, bounds.1 as int, text)
        &&& next.selected_range.start == bounds.0 + utf8_len(text)
        &&& next.selected_range.end == bounds.0 + utf8_len(text)
        &&& next.marked_range is None
        &&& next.placeholder == self.placeholder
    }

    /// The range that a deletion of selection `sel` removes: the marked range
    /// when there is one, else `sel`.
    pub open spec fn deletion_range(&self, sel: (usize, usize, bool)) -> (int, int) {
        match self.marked_range {
            Some(m) => (m.start as int, m.end as int),
            None => (sel.0 as int, sel.1 as int),
        }
    }

    /// The selection that backspace deletes: the current one when it is not
    /// empty, else from the previous grapheme boundary to the cursor; `None`
    /// when there is nothing before the cursor.
    pub open spec fn backspace_selection(&self) -> Option<(usize, usize, bool)> {
        if self.selection_empty() {
            let prev = self.prev_grapheme(self.cursor() as int);
            if self.cursor() == prev {
                None
            } else {
                Some(
                    selected_to(
                        self.selected_range.start,
                        self.selected_range.end,
                        self.selection_reversed,
                        prev,
                    ),
                )
            }
        } else {
            Some((self.selected_range.start, self.selected_range.end, self.selection_reversed))
        }
    }

    /// The selection that delete removes: the current one when it is not
    /// empty, else from the cursor to the next grapheme boundary; `None` when
    /// there is nothing after the cursor.
    pub open spec fn delete_selection(&self) -> Option<(usize, usize, bool)> {
        if self.selection_empty() {
            let next = self.next_grapheme(self.cursor() as int);
            if self.cursor() == next {
                None
            } else {
                Some(
                    selected_to(
                        self.selected_range.start,
                        self.selected_range.end,
                        self.selection_reversed,
                        next,
                    ),
                )
            }
        } else {
            Some((self.selected_range.start, self.selected_range.end, self.selection_reversed))
        }
    }

    /// An empty input that shows `placeholder`.
    pub fn new(placeholder: &str) -> (r: Self)
        ensures
            r.content@ == Seq::<char>::empty(),
            r.placeholder@ == placeholder@,
            r.selected_range.start == 0,
            r.selected_range.end == 0,
            !r.selection_reversed,
            r.marked_range is None,
    {
        TextInput {
            content: String::new(),
            placeholder: placeholder.to_string(),
            selected_range: 0..0,
            selection_reversed: false,
            marked_range: None,
        }
    }

    /// The cursor's byte offset.
    pub fn cursor_offset(&self) -> (r: usize)
        ensures
            r == self.cursor(),
    {
        if self.selection_reversed {
            self.selected_range.start
        } else {
            self.selected_range.end
        }
    }

    /// Puts an empty selection at `offset`.
    pub fn move_to(&mut self, offset: usize)
        ensures
            final(self).selected_range.start == offset,
            final(self).selected_range.end == offset,
            final(self).content == old(self).content,
            final(self).placeholder == old(self).placeholder,
            final(self).selection_reversed == old(self).selection_reversed,
            final(self).marked_range == old(self).marked_range,
    {
        self.selected_range = offset..offset;
    }

    /// Moves the cursor end of the selection to `offset`, keeping the other end.
    pub fn select_to(&mut self, offset: usize)
        ensures
            selected_to(
                old(self).selected_range.start,
                old(self).selected_range.end,
                old(self).selection_reversed,
                offset,
            ) == (
                final(self).selected_range.start,
                final(self).selected_range.end,
                final(self).selection_reversed,
            ),
            final(self).content == old(self).content,
            final(self).placeholder == old(self).placeholder,
            final(self).marked_range == old(self).marked_range,
    {
        if self.selection_reversed {
            self.selected_range.start = offset;
        } else {
            self.selected_range.end = offset;
        }
        if self.selected_range.end < self.selected_range.start {
            self.selection_reversed = !self.selection_reversed;
            self.selected_range = self.selected_range.end..self.selected_range.start;
        }
    }

    /// Takes the content out and leaves the input empty, with no selection
    /// and nothing marked.
    pub fn take_content(&mut self) -> (r: String)
        ensures
            r@ == old(self).content@,
            final(self).content@ == Seq::<char>::empty(),
            final(self).selected_range.start == 0,
            final(self).selected_range.end == 0,
            !final(self).selection_reversed,
            final(self).marked_range is None,
            final(self).placeholder == old(self).placeholder,
    {
        let mut value = String::new();
        std::mem::swap(&mut value, &mut self.content);
        self.selected_range = 0..0;
        self.selection_reversed = false;
        self.marked_range = None;
        value
    }

    /// The byte offset at UTF-16 offset `offset`.
    pub fn offset_from_utf16(&self, offset: usize) -> (r: usize)
        ensures
            r == utf16_to_byte(self.content@, offset as int),
            is_boundary(self.content@, r as int),
            r <= utf8_len(self.content@),
    {
        let ghost s = self.content@;
        let total = text_len(self.content.as_str());
        let mut utf8_offset: usize = 0;
        let mut utf16_count: usize = 0;
        let ghost mut i: int = 0;
        proof {
            assert(s.skip(0) =~= s);
            assert(s.skip(s.len() as int).len() == 0);
            lemma_offset_zero_and_end(s);
        }
        for ch in it: self.content.chars()
            invariant_except_break
                i == it.index(),
                chars_reaching_utf16(s, offset as int) == i + chars_reaching_utf16(
                    s.skip(i),
                    offset - utf16_count,
                ),
            invariant
                it.seq() == s,
                0 <= i <= s.len(),
                s.skip(s.len() as int).len() == 0,
                utf8_offset == byte_offset(s, i),
                utf16_count == utf16_offset(s, i),
                total == utf8_len(s),
                total <= isize::MAX,
                utf16_len(s) <= total,
            ensures
                utf8_offset == byte_offset(s, chars_reaching_utf16(s, offset as int) as int),
                chars_reaching_utf16(s, offset as int) <= s.len(),
        {
            if utf16_count >= offset {
                break;
            }
            proof {
                assert(ch == s[i]);
                lemma_offset_step(s, i);
                lemma_offset_monotone(s, i + 1, s.len() as int);
                lemma_offset_zero_and_end(s);
                let t = s.skip(i);
                assert(t.drop_first() =~= s.skip(i + 1));
                assert(t[0] == s[i]);
            }
            utf16_count = utf16_count + char_utf16_width(ch);
            utf8_offset = utf8_offset + char_utf8_width(ch);
            proof {
                i = i + 1;
            }
        }
        proof {
            lemma_chars_reaching_bound(s, offset as int);
            let k = chars_reaching_utf16(s, offset as int) as int;
            assert(byte_offset(s, k) == utf8_offset);
            lemma_offset_monotone(s, k, s.len() as int);
            lemma_offset_zero_and_end(s);
        }
        utf8_offset
    }

    /// The UTF-16 offset at byte offset `offset`.
    pub fn offset_to_utf16(&self, offset: usize) -> (r: usize)
        ensures
            r == byte_to_utf16(self.content@, offset as int),
            r <= utf16_len(self.content@),
    {
        let ghost s = self.content@;
        let total = text_len(self.content.as_str());
        let mut utf16_offset_count: usize = 0;
        let mut utf8_count: usize = 0;
        let ghost mut i: int = 0;
        proof {
            assert(s.skip(0) =~= s);
            assert(s.skip(s.len() as int).len() == 0);
            lemma_offset_zero_and_end(s);
        }
        for ch in it: self.content.chars()
            invariant_except_break
                i == it.index(),
                chars_reaching_utf8(s, offset as int) == i + chars_reaching_utf8(
                    s.skip(i),
                    offset - utf8_count,
                ),
            invariant
                it.seq() == s,
                0 <= i <= s.len(),
                s.skip(s.len() as int).len() == 0,
                utf8_count == byte_offset(s, i),
                utf16_offset_count == utf16_offset(s, i),
                total == utf8_len(s),
                total <= isize::MAX,
                utf16_len(s) <= total,
            ensures
                utf16_offset_count == utf16_offset(s, chars_reaching_utf8(s, offset as int) as int),
        {
            if utf8_count >= offset {
                break;
            }
            proof {
                assert(ch == s[i]);
                lemma_offset_step(s, i);
                lemma_offset_monotone(s, i + 1, s.len() as int);
                lemma_offset_zero_and_end(s);
                let t = s.skip(i);
                assert(t.drop_first() =~= s.skip(i + 1));
                assert(t[0] == s[i]);
            }
            utf8_count = utf8_count + char_utf8_width(ch);
            utf16_offset_count = utf16_offset_count + char_utf16_width(ch);
            proof {
                i = i + 1;
            }
        }
        proof {
            lemma_chars_reaching_bound(s, offset as int);
            let k = chars_reaching_utf8(s, offset as int) as int;
            lemma_offset_monotone(s, k, s.len() as int);
            lemma_offset_zero_and_end(s);
        }
        utf16_offset_count
    }

    /// A byte range in UTF-16 offsets.
    pub fn range_to_utf16(&self, range: &Range<usize>) -> (r: Range<usize>)
        ensures
            r.start == byte_to_utf16(self.content@, range.start as int),
            r.end == byte_to_utf16(self.content@, range.end as int),
    {
        self.offset_to_utf16(range.start)..self.offset_to_utf16(range.end)
    }

    /// A UTF-16 range in byte offsets.
    pub fn range_from_utf16(&self, range_utf16: &Range<usize>) -> (r: Range<usize>)
        ensures
            r.start == utf16_to_byte(self.content@, range_utf16.start as int),
            r.end == utf16_to_byte(self.content@, range_utf16.end as int),
            is_boundary(self.content@, r.start as int),
            is_boundary(self.content@, r.end as int),
    {
        self.offset_from_utf16(range_utf16.start)..self.offset_from_utf16(range_utf16.end)
    }

    /// The start of the grapheme cluster before byte `offset`; 0 when none
    /// starts before it.
    pub fn previous_boundary(&self, offset: usize) -> (r: usize)
        ensures
            r == self.prev_grapheme(offset as int),
            r < offset || r == 0,
    {
        let starts = grapheme_starts(self.content.as_str(), true);
        previous_start(starts.as_slice(), offset)
    }

    /// The start of the grapheme cluster after byte `offset`; the content's
    /// length when none starts after it.
    pub fn next_boundary(&self, offset: usize) -> (r: usize)
        ensures
            r == self.next_grapheme(offset as int),
            r > offset || r == utf8_len(self.content@),
    {
        let starts = grapheme_starts(self.content.as_str(), true);
        let len = text_len(self.content.as_str());
        next_start(starts.as_slice(), offset, len)
    }

    /// `range` cut to the content's length, put in order and moved back to
    /// character boundaries, so that it can be sliced.
    pub fn clamp_range(&self, range: Range<usize>) -> (r: Range<usize>)
        ensures
            (r.start as nat, r.end as nat) == clamped(
                self.content@,
                range.start as int,
                range.end as int,
            ),
            r.start <= r.end <= utf8_len(self.content@),
            is_boundary(self.content@, r.start as int),
            is_boundary(self.content@, r.end as int),
    {
        let ghost s = self.content@;
        let len = text_len(self.content.as_str());
        let mut start = if range.start < len {
            range.start
        } else {
            len
        };
        let mut end = if range.end < len {
            range.end
        } else {
            len
        };
        if start > end {
            std::mem::swap(&mut start, &mut end);
        }
        let ghost a0 = start;
        let ghost b0 = end;
        proof {
            lemma_floor_boundary(s, a0 as int, 0);
            lemma_floor_boundary(s, b0 as int, 0);
        }
        while !self.content.as_str().is_char_boundary(start)
            invariant
                s == self.content@,
                floor_boundary(s, a0 as int) <= start <= a0,
                is_boundary(s, floor_boundary(s, a0 as int) as int),
            decreases start,
        {
            proof {
                lemma_char_boundary(s, start as int);
            }
            start = start - 1;
        }
        proof {
            lemma_char_boundary(s, start as int);
            lemma_floor_boundary(s, a0 as int, start as int);
        }
        while !self.content.as_str().is_char_boundary(end)
            invariant
                s == self.content@,
                floor_boundary(s, b0 as int) <= end <= b0,
                is_boundary(s, floor_boundary(s, b0 as int) as int),
            decreases end,
        {
            proof {
                lemma_char_boundary(s, end as int);
            }
            end = end - 1;
        }
        proof {
            lemma_char_boundary(s, end as int);
            lemma_floor_boundary(s, b0 as int, end as int);
            lemma_floor_monotone(s, a0 as int, b0 as int);
        }
        start..end
    }

    /// Moves left: to the previous grapheme boundary when nothing is
    /// selected, else to the selection's start.
    pub fn left(&mut self)
        ensures
            old(self).selection_empty() ==> old(self).moved_to(
                &*final(self),
                old(self).prev_grapheme(old(self).cursor() as int) as int,
            ),
            !old(self).selection_empty() ==> old(self).moved_to(
                &*final(self),
                old(self).selected_range.start as int,
            ),
    {
        if self.selected_range.start >= self.selected_range.end {
            let prev = self.previous_boundary(self.cursor_offset());
            self.move_to(prev);
        } else {
            let start = self.selected_range.start;
            self.move_to(start);
        }
    }

    /// Moves right: to the next grapheme boundary when nothing is selected,
    /// else to the selection's end.
    pub fn right(&mut self)
        ensures
            old(self).selection_empty() ==> old(self).moved_to(
                &*final(self),
                old(self).next_grapheme(old(self).cursor() as int) as int,
            ),
            !old(self).selection_empty() ==> old(self).moved_to(
                &*final(self),
                old(self).selected_range.end as int,
            ),
    {
        if self.selected_range.start >= self.selected_range.end {
            let next = self.next_boundary(self.cursor_offset());
            self.move_to(next);
        } else {
            let end = self.selected_range.end;
            self.move_to(end);
        }
    }

    /// Moves to the start of the content.
    pub fn home(&mut self)
        ensures
            old(self).moved_to(&*final(self), 0),
    {
        self.move_to(0);
    }

    /// Moves to the end of the content.
    pub fn end(&mut self)
        ensures
            old(self).moved_to(&*final(self), utf8_len(old(self).content@) as int),
    {
        let len = text_len(self.content.as_str());
        self.move_to(len);
    }

    /// Replaces the bytes that `range_utf16` names (else the marked range,
    /// else the selection), once clamped, by `new_text`; leaves the cursor
    /// just after the new text and nothing marked.
    pub fn replace_text_in_range(&mut self, range_utf16: Option<Range<usize>>, new_text: &str)
        ensures
            old(self).replaced_into(
                &*final(self),
                old(self).edit_range(range_utf16).0,
                old(self).edit_range(range_utf16).1,
                new_text@,
            ),
            final(self).selection_reversed == old(self).selection_reversed,
    {
        let range = match &range_utf16 {
            Some(r) => self.range_from_utf16(r),
            None => match &self.marked_range {
                Some(m) => m.start..m.end,
                None => self.selected_range.start..self.selected_range.end,
            },
        };
        let range = self.clamp_range(range);
        let old_len = text_len(self.content.as_str());
        let new_len = text_len(new_text);
        let mut content = split_at_boundary(self.content.as_str(), range.start).0.to_owned();
        content.append(new_text);
        content.append(split_at_boundary(self.content.as_str(), range.end).1);
        self.content = content;
        self.selected_range = range.start + new_len..range.start + new_len;
        self.marked_range = None;
    }

    /// Deletes the selection, or the grapheme cluster before the cursor when
    /// nothing is selected; a marked range is deleted in their place. Does
    /// nothing when the cursor is at the start with nothing selected.
    pub fn backspace(&mut self)
        ensures
            old(self).backspace_selection() is None ==> *final(self) == *old(self),
            old(self).backspace_selection() matches Some(sel) ==> {
                &&& old(self).replaced_into(
                    &*final(self),
                    old(self).deletion_range(sel).0,
                    old(self).deletion_range(sel).1,
                    Seq::<char>::empty(),
                )
                &&& final(self).selection_reversed == sel.2
            },
    {
        if self.selected_range.start >= self.selected_range.end {
            let prev = self.previous_boundary(self.cursor_offset());
            if self.cursor_offset() == prev {
                return;
            }
            self.select_to(prev);
        }
        proof {
            reveal_strlit("");
            assert(""@ =~= Seq::<char>::empty());
        }
        self.replace_text_in_range(None, "");
    }

    /// Deletes the selection, or the grapheme cluster after the cursor when
    /// nothing is selected; a marked range is deleted in their place. Does
    /// nothing when the cursor is at the end with nothing selected.
    pub fn delete(&mut self)
        ensures
            old(self).delete_selection() is None ==> *final(self) == *old(self),
            old(self).delete_selection() matches Some(sel) ==> {
                &&& old(self).replaced_into(
                    &*final(self),
                    old(self).deletion_range(sel).0,
                    old(self).deletion_range(sel).1,
                    Seq::<char>::empty(),
                )
                &&& final(self).selection_reversed == sel.2
            },
    {
        if self.selected_range.start >= self.selected_range.end {
            let next = self.next_boundary(self.cursor_offset());
            if self.cursor_offset() == next {
                return;
            }
            self.select_to(next);
        }
        proof {
            reveal_strlit("");
            assert(""@ =~= Seq::<char>::empty());
        }
        self.replace_text_in_range(None, "");
    }

    /// The text of the UTF-16 range `range_utf16`; stores in `actual_range`
    /// the UTF-16 range that the text spans.
    pub fn text_for_range(
        &self,
        range_utf16: Range<usize>,
        actual_range: &mut Option<Range<usize>>,
    ) -> (r: Option<String>)
        requires
            utf16_to_byte(self.content@, range_utf16.start as int) <= utf16_to_byte(
                self.content@,
                range_utf16.end as int,
            ),
        ensures
            *final(actual_range) matches Some(ar) && ar.start == byte_to_utf16(
                self.content@,
                utf16_to_byte(self.content@, range_utf16.start as int) as int,
            ) && ar.end == byte_to_utf16(
                self.content@,
                utf16_to_byte(self.content@, range_utf16.end as int) as int,
            ),
            r matches Some(text) && text@ == self.content@.subrange(
                chars_reaching_utf16(self.content@, range_utf16.start as int) as int,
                chars_reaching_utf16(self.content@, range_utf16.end as int) as int,
            ),
    {
        let range = self.range_from_utf16(&range_utf16);
        *actual_range = Some(self.range_to_utf16(&range));
        let text = slice_between(self.content.as_str(), range.start, range.end);
        proof {
            let c = self.content@;
            lemma_chars_reaching_bound(c, range_utf16.start as int);
            lemma_chars_reaching_bound(c, range_utf16.end as int);
            lemma_chars_within_offset(c, chars_reaching_utf16(c, range_utf16.start as int) as int);
            lemma_chars_within_offset(c, chars_reaching_utf16(c, range_utf16.end as int) as int);
        }
        Some(text.to_string())
    }

    /// The selection in UTF-16 offsets.
    pub fn selected_text_range(&self) -> (r: Option<Utf16Selection>)
        ensures
            r matches Some(sel) && sel.range.start == byte_to_utf16(
                self.content@,
                self.selected_range.start as int,
            ) && sel.range.end == byte_to_utf16(self.content@, self.selected_range.end as int)
                && sel.reversed == self.selection_reversed,
    {
        Some(
            Utf16Selection {
                range: self.range_to_utf16(&self.selected_range),
                reversed: self.selection_reversed,
            },
        )
    }

    /// The marked range in UTF-16 offsets, when there is one.
    pub fn marked_text_range(&self) -> (r: Option<Range<usize>>)
        ensures
            self.marked_range is None ==> r is None,
            self.marked_range matches Some(m) ==> (r matches Some(u) && u.start == byte_to_utf16(
                self.content@,
                m.start as int,
            ) && u.end == byte_to_utf16(self.content@, m.end as int)),
    {
        match &self.marked_range {
            Some(range) => Some(self.range_to_utf16(range)),
            None => None,
        }
    }

    /// Forgets the marked range.
    pub fn unmark_text(&mut self)
        ensures
            final(self).marked_range is None,
            final(self).content == old(self).content,
            final(self).placeholder == old(self).placeholder,
            final(self).selected_range == old(self).selected_range,
            final(self).selection_reversed == old(self).selection_reversed,
    {
        self.marked_range = None;
    }

    /// Replaces the bytes that `range_utf16` names (else the marked range,
    /// else the selection), once clamped, by `new_text` and marks the new
    /// text (nothing when it is empty). The selection becomes
    /// `new_selected_range_utf16`, taken in the new content and shifted by
    /// the start of the replaced range, or else an empty one after the new
    /// text.
    pub fn replace_and_mark_text_in_range(
        &mut self,
        range_utf16: Option<Range<usize>>,
        new_text: &str,
        new_selected_range_utf16: Option<Range<usize>>,
    )
        ensures
            final(self).content@ == spliced(
                old(self).content@,
                old(self).edit_bounds(range_utf16).0 as int,
                old(self).edit_bounds(range_utf16).1 as int,
                new_text@,
            ),
            new_text@.len() == 0 ==> final(self).marked_range is None,
            new_text@.len() > 0 ==> (final(self).marked_range matches Some(m) && m.start
                == old(self).edit_bounds(range_utf16).0 && m.end == old(self).edit_bounds(
                range_utf16,
            ).0 + utf8_len(new_text@)),
            new_selected_range_utf16 matches Some(u) ==> final(self).selected_range.start
                == utf16_to_byte(final(self).content@, u.start as int) + old(self).edit_bounds(
                range_utf16,
            ).0 && final(self).selected_range.end == utf16_to_byte(
                final(self).content@,
                u.end as int,
            ) + old(self).edit_bounds(range_utf16).0,
            new_selected_range_utf16 is None ==> final(self).selected_range.start == old(
                self,
            ).edit_bounds(range_utf16).0 + utf8_len(new_text@) && final(self).selected_range.end
                == old(self).edit_bounds(range_utf16).0 + utf8_len(new_text@),
            final(self).selection_reversed == old(self).selection_reversed,
            final(self).placeholder == old(self).placeholder,
    {
        let range = match &range_utf16 {
            Some(r) => self.range_from_utf16(r),
            None => match &self.marked_range {
                Some(m) => m.start..m.end,
                None => self.selected_range.start..self.selected_range.end,
            },
        };
        let range = self.clamp_range(range);
        let old_len = text_len(self.content.as_str());
        let new_len = text_len(new_text);
        let mut content = split_at_boundary(self.content.as_str(), range.start).0.to_owned();
        content.append(new_text);
        content.append(split_at_boundary(self.content.as_str(), range.end).1);
        self.content = content;
        if !new_text.is_empty() {
            self.marked_range = Some(range.start..range.start + new_len);
        } else {
            self.marked_range = None;
        }
        let total = text_len(self.content.as_str());
        self.selected_range = match &new_selected_range_utf16 {
            Some(r) => {
                let new_range = self.range_from_utf16(r);
                proof {
                    lemma_boundary_within(self.content@, new_range.start as int);
                    lemma_boundary_within(self.content@, new_range.end as int);
                }
                new_range.start + range.start..new_range.end + range.start
            },
            None => range.start + new_len..range.start + new_len,
        };
    }

    /// What the input shows: the placeholder while the content is empty
    /// (`true` beside it), else the content.
    pub fn display_text(&self) -> (r: (&str, bool))
        ensures
            r.1 == (self.content@.len() == 0),
            r.1 ==> r.0@ == self.placeholder@,
            !r.1 ==> r.0@ == self.content@,
    {
        if self.content.as_str().is_empty() {
            (self.placeholder.as_str(), true)
        } else {
            (self.content.as_str(), false)
        }
    }
}


/// For a character boundary, converting to UTF-16 and back gives it again.
pub proof fn lemma_utf16_round_trip(s: Seq<char>, b: int)
    requires
        is_boundary(s, b),
    ensures
        utf16_to_byte(s, byte_to_utf16(s, b) as int) == b,
{
    let k = choose|k: int| 0 <= k <= s.len() && #[trigger] byte_offset(s, k) == b;
    lemma_chars_reaching_offset(s, k);
}

/// A clamped range is ordered, lies within the text and has character
/// boundaries at both ends.
pub proof fn lemma_clamped_valid(s: Seq<char>, start: int, end: int)
    requires
        start >= 0,
        end >= 0,
    ensures
        clamped(s, start, end).0 <= clamped(s, start, end).1 <= utf8_len(s),
        is_boundary(s, clamped(s, start, end).0 as int),
        is_boundary(s, clamped(s, start, end).1 as int),
{
    let len = utf8_len(s) as int;
    let lo = if start < len {
        start
    } else {
        len
    };
    let hi = if end < len {
        end
    } else {
        len
    };
    lemma_floor_boundary(s, lo, 0);
    lemma_floor_boundary(s, hi, 0);
    if lo > hi {
        lemma_floor_monotone(s, hi, lo);
    } else {
        lemma_floor_monotone(s, lo, hi);
    }
}

/// Clamping a clamped range changes nothing.
pub proof fn lemma_clamp_idempotent(s: Seq<char>, start: int, end: int)
    requires
        start >= 0,
        end >= 0,
    ensures
        clamped(s, clamped(s, start, end).0 as int, clamped(s, start, end).1 as int) == clamped(
            s,
            start,
            end,
        ),
{
    let (a, b) = clamped(s, start, end);
    lemma_clamped_valid(s, start, end);
    lemma_floor_of_boundary(s, a as int);
    lemma_floor_of_boundary(s, b as int);
}

/// Moving the cursor end of a selection always leaves its ends in order.
pub proof fn lemma_selected_to_ordered(start: usize, end: usize, reversed: bool, offset: usize)
    ensures
        selected_to(start, end, reversed, offset).0 <= selected_to(start, end, reversed, offset).1,
{
}

/// Replacing the text between two boundaries: the text before and after is
/// kept, the length changes by the difference, and the position just after
/// the new text is a character boundary of the result.
pub proof fn lemma_splice(s: Seq<char>, a: int, b: int, text: Seq<char>)
    requires
        is_boundary(s, a),
        is_boundary(s, b),
        a <= b,
    ensures
        is_boundary(spliced(s, a, b, text), a + utf8_len(text)),
        utf8_len(spliced(s, a, b, text)) == utf8_len(s) - (b - a) + utf8_len(text),
        exists|i: int, j: int|
            0 <= i <= j <= s.len() && #[trigger] byte_offset(s, i) == a && #[trigger] byte_offset(
                s,
                j,
            ) == b && spliced(s, a, b, text) == s.take(i) + text + s.skip(j),
{
    let ka = choose|k: int| 0 <= k <= s.len() && #[trigger] byte_offset(s, k) == a;
    let kb = choose|k: int| 0 <= k <= s.len() && #[trigger] byte_offset(s, k) == b;
    lemma_chars_within_offset(s, ka);
    lemma_chars_within_offset(s, kb);
    let r = spliced(s, a, b, text);
    let head = s.take(ka) + text;
    assert(r.take(head.len() as int) =~= head);
    lemma_utf8_len_concat(s.take(ka), text);
    assert(byte_offset(r, head.len() as int) == a + utf8_len(text));
    lemma_utf8_len_concat(head, s.skip(kb));
    assert(r =~= head + s.skip(kb));
    assert(s =~= s.take(kb) + s.skip(kb));
    lemma_utf8_len_concat(s.take(kb), s.skip(kb));
    if ka > kb {
        lemma_offset_strictly_increasing(s, kb, ka);
    }
    assert(byte_offset(s, ka) == a && byte_offset(s, kb) == b && spliced(s, a, b, text) == s.take(
        ka,
    ) + text + s.skip(kb));
}
/// `b` is the byte offset of UTF-16 position `u`: a character boundary such
/// that the characters starting before `b` are exactly those whose UTF-16
/// start lies before `u`.
pub open spec fn byte_position_of_utf16(s: Seq<char>, u: int, b: int) -> bool {
    &&& is_boundary(s, b)
    &&& forall|k: int|
        0 <= k < s.len() ==> (#[trigger] byte_offset(s, k) < b <==> utf16_offset(s, k) < u)
}

/// `u` is the UTF-16 offset of byte position `b`: the UTF-16 start of a
/// character (or the UTF-16 length) such that the characters starting before
/// `u` in UTF-16 are exactly those whose byte start lies before `b`.
pub open spec fn utf16_position_of_byte(s: Seq<char>, b: int, u: int) -> bool {
    &&& exists|k: int| 0 <= k <= s.len() && #[trigger] utf16_offset(s, k) == u
    &&& forall|k: int|
        0 <= k < s.len() ==> (#[trigger] utf16_offset(s, k) < u <==> byte_offset(s, k) < b)
}

/// `utf16_to_byte` gives the byte position of a UTF-16 position, and it is the
/// only one.
pub proof fn lemma_utf16_to_byte_position(s: Seq<char>, u: int, b: int)
    ensures
        byte_position_of_utf16(s, u, utf16_to_byte(s, u) as int),
        byte_position_of_utf16(s, u, b) ==> b == utf16_to_byte(s, u),
{
    let kk = chars_reaching_utf16(s, u) as int;
    lemma_chars_reaching_bound(s, u);
    assert(byte_offset(s, kk) == utf16_to_byte(s, u));
    assert forall|k: int| 0 <= k < s.len() implies (#[trigger] byte_offset(s, k) < utf16_to_byte(
        s,
        u,
    ) <==> utf16_offset(s, k) < u) by {
        lemma_chars_reaching_utf16_order(s, u, k);
        if k < kk {
            lemma_offset_strictly_increasing(s, k, kk);
        } else {
            lemma_offset_monotone(s, kk, k);
        }
    }
    if byte_position_of_utf16(s, u, b) {
        let k2 = choose|k: int| 0 <= k <= s.len() && #[trigger] byte_offset(s, k) == b;
        if k2 < kk {
            lemma_chars_reaching_utf16_order(s, u, k2);
        } else if k2 > kk {
            lemma_chars_reaching_utf16_order(s, u, kk);
            lemma_offset_strictly_increasing(s, kk, k2);
        }
    }
}

/// `byte_to_utf16` gives the UTF-16 position of a byte position, and it is
/// the only one.
pub proof fn lemma_byte_to_utf16_position(s: Seq<char>, b: int, u: int)
    ensures
        utf16_position_of_byte(s, b, byte_to_utf16(s, b) as int),
        utf16_position_of_byte(s, b, u) ==> u == byte_to_utf16(s, b),
{
    let kk = chars_reaching_utf8(s, b) as int;
    lemma_chars_reaching_bound(s, b);
    assert(utf16_offset(s, kk) == byte_to_utf16(s, b));
    assert forall|k: int| 0 <= k < s.len() implies (#[trigger] utf16_offset(s, k) < byte_to_utf16(
        s,
        b,
    ) <==> byte_offset(s, k) < b) by {
        lemma_chars_reaching_utf8_order(s, b, k);
        if k < kk {
            lemma_offset_strictly_increasing(s, k, kk);
        } else {
            lemma_offset_monotone(s, kk, k);
        }
    }
    if utf16_position_of_byte(s, b, u) {
        let k2 = choose|k: int| 0 <= k <= s.len() && #[trigger] utf16_offset(s, k) == u;
        if k2 < kk {
            lemma_chars_reaching_utf8_order(s, b, k2);
        } else if k2 > kk {
            lemma_chars_reaching_utf8_order(s, b, kk);
            lemma_offset_strictly_increasing(s, kk, k2);
        }
    }
}

/// Converting UTF-16 offsets to bytes keeps their order.
pub proof fn lemma_utf16_to_byte_monotone(s: Seq<char>, u1: int, u2: int)
    requires
        u1 <= u2,
    ensures
        utf16_to_byte(s, u1) <= utf16_to_byte(s, u2),
{
    let k1 = chars_reaching_utf16(s, u1) as int;
    let k2 = chars_reaching_utf16(s, u2) as int;
    lemma_chars_reaching_bound(s, u1);
    lemma_chars_reaching_bound(s, u2);
    if k2 < k1 {
        lemma_chars_reaching_utf16_order(s, u1, k2);
        lemma_chars_reaching_utf16_order(s, u2, k2);
    }
    lemma_offset_monotone(s, k1, k2);
}

/// An edit given a UTF-16 range works on the byte positions of its two ends.
pub proof fn lemma_edit_range_utf16(input: &TextInput, r: Range<usize>)
    ensures
        byte_position_of_utf16(input.content@, r.start as int, input.edit_range(Some(r)).0),
        byte_position_of_utf16(input.content@, r.end as int, input.edit_range(Some(r)).1),
{
    lemma_utf16_to_byte_position(input.content@, r.start as int, 0);
    lemma_utf16_to_byte_position(input.content@, r.end as int, 0);
}

/// An edit given a UTF-16 range replaces the bytes from the byte position of
/// its lower end to that of its upper end.
pub proof fn lemma_edit_bounds_utf16(input: &TextInput, r: Range<usize>)
    ensures
        input.edit_bounds(Some(r)).0 <= input.edit_bounds(Some(r)).1,
        byte_position_of_utf16(
            input.content@,
            if r.start <= r.end {
                r.start as int
            } else {
                r.end as int
            },
            input.edit_bounds(Some(r)).0 as int,
        ),
        byte_position_of_utf16(
            input.content@,
            if r.start <= r.end {
                r.end as int
            } else {
                r.start as int
            },
            input.edit_bounds(Some(r)).1 as int,
        ),
{
    let c = input.content@;
    let b1 = utf16_to_byte(c, r.start as int);
    let b2 = utf16_to_byte(c, r.end as int);
    lemma_utf16_to_byte_position(c, r.start as int, 0);
    lemma_utf16_to_byte_position(c, r.end as int, 0);
    lemma_boundary_within(c, b1 as int);
    lemma_boundary_within(c, b2 as int);
    lemma_floor_of_boundary(c, b1 as int);
    lemma_floor_of_boundary(c, b2 as int);
    if r.start <= r.end {
        lemma_utf16_to_byte_monotone(c, r.start as int, r.end as int);
    } else {
        lemma_utf16_to_byte_monotone(c, r.end as int, r.start as int);
    }
}

/// The grapheme boundary before an offset is the last cluster start (in the
/// order found) that lies before it: a cluster start below the offset with
/// every later start at or past the offset, or 0 when no start lies before
/// it. With ascending starts it is the greatest start before the offset, so
/// backspace at a cluster boundary removes exactly one cluster.
pub proof fn lemma_prev_grapheme(input: &TextInput, offset: int)
    ensures
        ({
            let st = grapheme_starts_of(input.content@, true);
            let p = input.prev_grapheme(offset);
            &&& (forall|i: int| 0 <= i < st.len() ==> #[trigger] st[i] >= offset) ==> p == 0
            &&& (exists|i: int| 0 <= i < st.len() && #[trigger] st[i] < offset) ==> exists|i: int|
                0 <= i < st.len() && #[trigger] st[i] == p && p < offset && forall|j: int|
                    i < j < st.len() ==> #[trigger] st[j] >= offset
            &&& (forall|i: int, j: int| 0 <= i < j < st.len() ==> #[trigger] st[i] < #[trigger] st[j])
                ==> forall|i: int| 0 <= i < st.len() && #[trigger] st[i] < offset ==> st[i] <= p
        }),
{
    lemma_last_start_before(grapheme_starts_of(input.content@, true), offset);
}

/// The grapheme boundary after an offset is the first cluster start (in the
/// order found) that lies after it, or the content's end when none does.
/// With ascending starts it is the least start after the offset.
pub proof fn lemma_next_grapheme(input: &TextInput, offset: int)
    ensures
        ({
            let st = grapheme_starts_of(input.content@, true);
            let n = input.next_grapheme(offset);
            &&& (forall|i: int| 0 <= i < st.len() ==> #[trigger] st[i] <= offset) ==> n == utf8_len(
                input.content@,
            ) as usize
            &&& (exists|i: int| 0 <= i < st.len() && #[trigger] st[i] > offset) ==> exists|i: int|
                0 <= i < st.len() && #[trigger] st[i] == n && n > offset && forall|j: int|
                    0 <= j < i ==> #[trigger] st[j] <= offset
            &&& (forall|i: int, j: int| 0 <= i < j < st.len() ==> #[trigger] st[i] < #[trigger] st[j])
                ==> forall|i: int| 0 <= i < st.len() && #[trigger] st[i] > offset ==> n <= st[i]
        }),
{
    lemma_first_start_after(
        grapheme_starts_of(input.content@, true),
        offset,
        utf8_len(input.content@) as usize,
    );
}

/// With text selected, delete and backspace remove the selection itself (or
/// the marked text), exactly as replacing the selection by nothing does, and
/// keep its direction.
pub proof fn lemma_delete_selected_text(input: &TextInput)
    requires
        input.selected_range.start < input.selected_range.end,
    ensures
        input.delete_selection() == Some(
            (input.selected_range.start, input.selected_range.end, input.selection_reversed),
        ),
        input.backspace_selection() == Some(
            (input.selected_range.start, input.selected_range.end, input.selection_reversed),
        ),
        input.deletion_range(
            (input.selected_range.start, input.selected_range.end, input.selection_reversed),
        ) == input.edit_range(None),
{
}

/// With nothing selected, backspace removes the text from the previous
/// grapheme boundary to the cursor, and delete the text from the cursor to
/// the next grapheme boundary.
pub proof fn lemma_delete_one_cluster(input: &TextInput)
    requires
        input.selected_range.start == input.selected_range.end,
    ensures
        input.backspace_selection() matches Some(sel) ==> sel.0 == input.prev_grapheme(
            input.cursor() as int,
        ) && sel.1 == input.cursor(),
        input.delete_selection() matches Some(sel) ==> sel.0 == input.cursor() && sel.1
            == input.next_grapheme(input.cursor() as int) || sel.0 == input.next_grapheme(
            input.cursor() as int,
        ) && sel.1 == input.cursor(),
        input.backspace_selection() is None <==> input.prev_grapheme(input.cursor() as int)
            == input.cursor(),
        input.delete_selection() is None <==> input.next_grapheme(input.cursor() as int)
            == input.cursor(),
{
    lemma_last_start_before(grapheme_starts_of(input.content@, true), input.cursor() as int);
    lemma_start_searches(grapheme_starts_of(input.content@, true), input.cursor() as int, 0);
}

/// A clamped range ends at the greatest character boundaries not past its
/// two ends, each first cut to the text's length and then put in order.
pub proof fn lemma_clamped_floors(s: Seq<char>, start: int, end: int, x: int)
    requires
        start >= 0,
        end >= 0,
    ensures
        ({
            let len = utf8_len(s) as int;
            let lo = if start < len {
                start
            } else {
                len
            };
            let hi = if end < len {
                end
            } else {
                len
            };
            let m = if lo <= hi {
                lo
            } else {
                hi
            };
            let mm = if lo <= hi {
                hi
            } else {
                lo
            };
            &&& clamped(s, start, end).0 <= m
            &&& clamped(s, start, end).1 <= mm
            &&& is_boundary(s, x) && x <= m ==> x <= clamped(s, start, end).0
            &&& is_boundary(s, x) && x <= mm ==> x <= clamped(s, start, end).1
        }),
{
    let len = utf8_len(s) as int;
    let lo = if start < len {
        start
    } else {
        len
    };
    let hi = if end < len {
        end
    } else {
        len
    };
    lemma_floor_boundary(s, lo, x);
    lemma_floor_boundary(s, hi, x);
}

/// Moving the cursor end of a selection puts the cursor at `offset` and
/// keeps the other end where it was, with the ends in order.
pub proof fn lemma_selected_to_moves_cursor(start: usize, end: usize, reversed: bool, offset: usize)
    ensures
        ({
            let r = selected_to(start, end, reversed, offset);
            &&& r.0 <= r.1
            &&& (if r.2 {
                r.0
            } else {
                r.1
            }) == offset
            &&& (if r.2 {
                r.1
            } else {
                r.0
            }) == (if reversed {
                end
            } else {
                start
            })
        }),
{
}

} // verus!
