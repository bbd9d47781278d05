//! Selection and metrics: one logical selection described in both byte and
//! character coordinates, and the read-only display data derived from the
//! buffer and the selection.

use vstd::prelude::*;
use vstd::utf8::*;
use vstd::string::StrSliceExecFns;
use crate::position::{
    byte_len, char_index_of, char_to_byte, column_count, column_from_bytes, count_chars,
    lemma_char_index_of_prefix, lemma_prefix_bytes_bounds, lemma_prefix_is_boundary,
    line_from_bytes, newline_count, prefix_bytes,
};

verus! {

/// The editor's font family choices.
#[derive(Clone, Copy, Debug, PartialEq, Eq, Structural)]
pub enum FontChoice {
    Consolas,
    Courier,
    Arial,
    Times,
}

/// A half-open span of byte offsets into the buffer, both ends on UTF-8
/// character boundaries.
#[derive(Clone, Copy, Debug, Default, PartialEq, Eq, Structural)]
pub struct ByteRange {
    pub start: usize,
    pub end: usize,
}

/// A half-open span of character offsets into the buffer.
#[derive(Clone, Copy, Debug, Default, PartialEq, Eq, Structural)]
pub struct CharRange {
    pub start: usize,
    pub end: usize,
}

impl CharRange {
    /// Selection length in characters; 0 for a backwards pair of offsets.
    pub fn len(&self) -> (n: usize)
        ensures
            n == if self.start <= self.end {
                self.end - self.start
            } else {
                0
            },
    {
        if self.start <= self.end {
            self.end - self.start
        } else {
            0
        }
    }
}

/// The same logical selection in both coordinate systems. The byte range
/// must always be the byte-offset image of the character range for the
/// current buffer ([`SelectionState::consistent_with`]); the two are only
/// ever recomputed together.
#[derive(Clone, Copy, Debug, Default, PartialEq, Eq, Structural)]
pub struct SelectionState {
    pub char_range: CharRange,
    pub byte_range: ByteRange,
}

impl SelectionState {
    /// The invariant tying the two coordinate systems together: the byte
    /// range is exactly the byte-offset image of the character range in the
    /// buffer `t`.
    pub open spec fn consistent_with(self, t: Seq<char>) -> bool {
        &&& self.char_range.start <= self.char_range.end <= t.len()
        &&& self.byte_range.start as int == prefix_bytes(t, self.char_range.start as int)
        &&& self.byte_range.end as int == prefix_bytes(t, self.char_range.end as int)
    }
}

/// Read-only display data recomputed after every buffer or selection
/// change: 1-based line and column of the selection start, total character
/// count, and selection length in characters.
#[derive(Clone, Copy, Debug, Default, PartialEq, Eq, Structural)]
pub struct EditorMetrics {
    pub line: usize,
    pub column: usize,
    pub chars: usize,
    pub selection: usize,
}

/// Rebuild the selection from the raw byte offsets reported by the editing
/// surface, recomputing the character range so that the pair stays
/// consistent.
pub fn selection_from_bytes(text: &str, byte_start: usize, byte_end: usize) -> (sel:
    SelectionState)
    requires
        byte_start <= byte_end <= byte_len(text@),
        (byte_start as int) < byte_len(text@) ==> is_char_boundary(
            encode_utf8(text@),
            byte_start as int,
        ),
        (byte_end as int) < byte_len(text@) ==> is_char_boundary(
            encode_utf8(text@),
            byte_end as int,
        ),
    ensures
        sel.byte_range.start == byte_start,
        sel.byte_range.end == byte_end,
        sel.char_range.start as nat == char_index_of(text@, byte_start as int),
        sel.char_range.end as nat == char_index_of(text@, byte_end as int),
        sel.consistent_with(text@),
{
    let cs = count_chars(text, byte_start);
    let ce = count_chars(text, byte_end);
    proof {
        if cs > ce {
            lemma_prefix_bytes_bounds(text@, ce as int, cs as int);
        }
    }
    SelectionState {
        char_range: CharRange { start: cs, end: ce },
        byte_range: ByteRange { start: byte_start, end: byte_end },
    }
}

/// The selection covering a found character range, with its byte-offset
/// image derived through the position mapper so that the pair is
/// consistent.
pub fn selection_for_char_range(text: &str, range: &CharRange) -> (sel: SelectionState)
    requires
        range.start <= range.end <= text@.len(),
    ensures
        sel.char_range == *range,
        sel.consistent_with(text@),
{
    let bs = char_to_byte(text, range.start);
    let be = char_to_byte(text, range.end);
    SelectionState { char_range: *range, byte_range: ByteRange { start: bs, end: be } }
}

/// Derive the display metrics for a buffer and a consistent selection.
pub fn compute_metrics(text: &str, sel: &SelectionState) -> (m: EditorMetrics)
    requires
        text@.len() < usize::MAX,
        sel.consistent_with(text@),
    ensures
        m.line as int == 1 + newline_count(text@.subrange(0, sel.char_range.start as int)),
        m.column as int == 1 + column_count(text@.subrange(0, sel.char_range.start as int)),
        m.chars == text@.len(),
        m.selection == sel.char_range.end - sel.char_range.start,
{
    proof {
        lemma_prefix_is_boundary(text@, sel.char_range.start as int);
        lemma_char_index_of_prefix(text@, sel.char_range.start as int);
        lemma_prefix_bytes_bounds(text@, sel.char_range.start as int, text@.len() as int);
        crate::position::lemma_prefix_bytes_full(text@);
    }
    let line = line_from_bytes(text, sel.byte_range.start);
    let column = column_from_bytes(text, sel.byte_range.start);
    let chars = text.unicode_len();
    let selection = sel.char_range.len();
    EditorMetrics { line, column, chars, selection }
}

} // verus!
