//! Choosing the occurrence to bump: in the whole text or on one line.

use crate::replace::{outcome, replace, replace_by_line, replaced, replaced_by_line, Outcome, Replaced};
use crate::segment::Segment;
use vstd::prelude::*;
use vstd::utf8::*;

verus! {

/// Which version pattern of a text is meant. Indices count from zero.
#[derive(Debug, Clone, Copy, PartialEq, Eq, Structural)]
pub enum Selection {
    /// The occurrence of index `index` in the whole text, counted from left
    /// to right across lines.
    InText { index: u16 },
    /// The occurrence of index `index` on the line of index `line_index`.
    OnLine { line_index: u16, index: u16 },
}

impl Selection {
    /// The selection that a person names by numbers counted from one: an
    /// occurrence number and, for a search on one line, a line number. A
    /// number below one names nothing.
    pub open spec fn numbered(occurrence: u16, line: Option<u16>) -> Option<Selection> {
        match line {
            None => if occurrence >= 1 {
                Some(Selection::InText { index: (occurrence - 1) as u16 })
            } else {
                None
            },
            Some(line) => if occurrence >= 1 && line >= 1 {
                Some(
                    Selection::OnLine {
                        line_index: (line - 1) as u16,
                        index: (occurrence - 1) as u16,
                    },
                )
            } else {
                None
            },
        }
    }

    /// Checks numbers counted from one and turns them into a selection.
    pub fn from_numbers(occurrence: u16, line: Option<u16>) -> (r: Option<Selection>)
        ensures
            r == Selection::numbered(occurrence, line),
    {
        if occurrence < 1 {
            return None;
        }
        match line {
            None => Some(Selection::InText { index: occurrence - 1 }),
            Some(line) => {
                if line < 1 {
                    None
                } else {
                    Some(Selection::OnLine { line_index: line - 1, index: occurrence - 1 })
                }
            },
        }
    }
}

/// What bumping the selected version pattern of `text` gives.
pub open spec fn selected(text: Seq<u8>, segment: Segment, selection: Selection) -> Outcome {
    match selection {
        Selection::InText { index } => replaced(text, segment, index as int),
        Selection::OnLine { line_index, index } => replaced_by_line(
            text,
            segment,
            index as int,
            line_index as int,
        ),
    }
}

/// Bumps `segment` of the selected version pattern of `input` and returns
/// the new text, the version found and the version written.
pub fn bump_selected(input: &String, segment: Segment, selection: Selection) -> (r: Replaced)
    ensures
        outcome(r) == selected(encode_utf8(input@), segment, selection),
{
    match selection {
        Selection::InText { index } => replace(input, segment, index),
        Selection::OnLine { line_index, index } => replace_by_line(
            input,
            segment,
            index,
            line_index,
        ),
    }
}

} // verus!
