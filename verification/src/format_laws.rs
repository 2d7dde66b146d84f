//! What formatting does to a document.

use vstd::prelude::*;

use crate::formatting::{format_finished_step, EditView, FormatActionView, FormatStage, FormatView};
use crate::text::Position;

verus! {

/// A text in which an edit has put its own text in place of a range. `offset` says where in
/// the text a position lies.
pub open spec fn edited(
    text: Seq<char>,
    edit: EditView,
    offset: spec_fn(Position) -> int,
) -> Seq<char> {
    text.take(offset(edit.range.start)) + edit.new_text + text.skip(offset(edit.range.end))
}

/// What formatting leaves of a document is the text that the formatter gave. Where an edit
/// comes back, applying it to the text of the document gives that text, whatever tells the
/// offset of a position, as long as the text begins at the first character of the first line
/// and ends at `end`. Where none comes back, the text is that of the document. Formatting fails
/// at this step only where the text has to change and its end is not known.
pub proof fn law_formatting_leaves_what_the_formatter_gave(
    run: FormatView,
    text: Seq<char>,
    formatted: Seq<char>,
    end: Option<Position>,
    offset: spec_fn(Position) -> int,
)
    requires
        run.text == Some(text),
        offset(Position { line: 0, character: 0 }) == 0,
        end is Some ==> offset(end->0) == text.len(),
    ensures
        format_finished_step(run, formatted, end).0.stage == FormatStage::Done,
        match format_finished_step(run, formatted, end).1 {
            FormatActionView::Finish(Some(edit)) => {
                &&& edited(text, edit, offset) == formatted
                &&& edit.range.start == (Position { line: 0, character: 0 })
                &&& end == Some(edit.range.end)
                &&& text != formatted
            },
            FormatActionView::Finish(None) => text == formatted,
            FormatActionView::Fail(_) => text != formatted && end is None,
            _ => false,
        },
{
    assert(text.take(0) + formatted + text.skip(text.len() as int) =~= formatted);
}

} // verus!
