//! From the edits of a stream to replacements in the document.

use crate::messages::RangeToReplace;
use crate::multidiff;
use crate::multidiff::{cursor_local_multidiff_edits, MultidiffError, TextEdit};
use crate::snapshot;
use crate::snapshot::{Bias, PointUtf16, Snapshot};
use crate::stream::{CursorTabCompletion, CursorTabStream};
use crate::text;
use vstd::prelude::*;
use vstd::slice::slice_subrange;

verus! {

/// A replacement of the text between two positions.
#[derive(Debug, PartialEq)]
pub struct PreparedEdit {
    pub start: PointUtf16,
    pub end: PointUtf16,
    pub text: String,
}

/// A replacement, with its text as characters.
pub struct Replacement {
    pub start: PointUtf16,
    pub end: PointUtf16,
    pub text: Seq<char>,
}

/// Why the edits of a stream cannot be turned into replacements.
#[derive(Clone, Copy, Debug, PartialEq, Eq)]
pub enum ReplacementError {
    /// An edit names a negative row or column.
    NegativeCoordinate,
    /// A multidiff edit does not fit the document.
    Multidiff(MultidiffError),
}

impl View for PreparedEdit {
    type V = Replacement;

    open spec fn view(&self) -> Replacement {
        Replacement { start: self.start, end: self.end, text: self.text@ }
    }
}

// ---------------------------------------------------------------------------
// Echoes of the document
// ---------------------------------------------------------------------------

/// Whether a range ends before it starts.
pub open spec fn reversed(range: Option<RangeToReplace>) -> bool {
    match range {
        Some(range) => range.end_line < range.start_line || (range.end_line == range.start_line
            && range.end_column < range.start_column),
        None => false,
    }
}

/// Whether a row of a text starts at the given index.
pub open spec fn starts_row(contents: Seq<char>, i: int) -> bool {
    i == 0 || (0 < i <= contents.len() && contents[i - 1] == '\n')
}

/// The first row start, from `i` on, such that the text begins with all of the document
/// from there.
pub open spec fn echo_from(contents: Seq<char>, echo: Seq<char>, i: int) -> Option<int>
    decreases contents.len() - i,
{
    if i < 0 || i >= contents.len() {
        None
    } else if starts_row(contents, i) && text::has_prefix(echo, contents.skip(i)) {
        Some(i)
    } else {
        echo_from(contents, echo, i + 1)
    }
}

/// The text of an edit without the part of the document that it repeats. An edit at the
/// end of the document with a reversed range may begin with the document's last rows;
/// when nothing new follows them, nothing is left.
pub open spec fn normalized(
    echo: Seq<char>,
    range: Option<RangeToReplace>,
    contents: Seq<char>,
    cursor_at_end: bool,
) -> Seq<char> {
    if !cursor_at_end || !reversed(range) {
        echo
    } else {
        match echo_from(contents, echo, 0) {
            None => echo,
            Some(i) => {
                let remaining = echo.skip(contents.len() - i);
                if text::trimmed(remaining).len() == 0 || text::trimmed(remaining)
                    == text::trimmed(contents) {
                    Seq::empty()
                } else {
                    remaining
                }
            },
        }
    }
}

/// A normalized text is an end of the given one.
pub proof fn lemma_normalized_suffix(
    echo: Seq<char>,
    range: Option<RangeToReplace>,
    contents: Seq<char>,
    cursor_at_end: bool,
)
    ensures
        text::has_suffix(echo, normalized(echo, range, contents, cursor_at_end)),
{
    assert(echo.skip(0) =~= echo);
    assert(echo.skip(echo.len() as int) =~= Seq::<char>::empty());
    lemma_echo_from(contents, echo, 0);
}

proof fn lemma_echo_from(contents: Seq<char>, echo: Seq<char>, i: int)
    requires
        0 <= i,
    ensures
        match echo_from(contents, echo, i) {
            Some(j) => i <= j < contents.len() && contents.len() - j <= echo.len(),
            None => true,
        },
    decreases contents.len() - i,
{
    if i < contents.len() {
        lemma_echo_from(contents, echo, i + 1);
    }
}

/// The first row start such that the text begins with all of the document from there.
fn find_echo(contents: &Vec<char>, echo: &Vec<char>) -> (r: Option<usize>)
    ensures
        match r {
            Some(i) => echo_from(contents@, echo@, 0) == Some(i as int),
            None => echo_from(contents@, echo@, 0) is None,
        },
{
    let mut i: usize = 0;
    while i < contents.len()
        invariant
            i <= contents@.len(),
            echo_from(contents@, echo@, 0) == echo_from(contents@, echo@, i as int),
        decreases contents@.len() - i,
    {
        if i == 0 || contents[i - 1] == '\n' {
            assert(contents@.subrange(i as int, contents@.len() as int) =~= contents@.skip(
                i as int,
            ));
            if text::starts_with(
                echo.as_slice(),
                slice_subrange(contents.as_slice(), i, contents.len()),
            ) {
                return Some(i);
            }
        }
        i += 1;
    }
    None
}

// ---------------------------------------------------------------------------
// Replacements
// ---------------------------------------------------------------------------

/// A text without the given start, if it has it and it is not empty.
pub open spec fn stripped(s: Seq<char>, start: Seq<char>) -> Seq<char> {
    if start.len() > 0 && text::has_prefix(s, start) {
        s.skip(start.len() as int)
    } else {
        s
    }
}

/// What an edit replaces, and by which text; `None` when it names a negative coordinate.
///
/// A range with a positive start row counts rows from one and includes its last row.
/// Any other range counts from zero; a reversed one means the cursor. Without a range,
/// an edit that repeats the line in front of the cursor continues it, and one that names
/// a start row replaces from there to the cursor.
pub open spec fn replaced(
    edit_text: Seq<char>,
    range: Option<RangeToReplace>,
    suggestion_start_line: Option<i32>,
    cursor: PointUtf16,
    current_line_prefix: Seq<char>,
) -> Option<Replacement> {
    match range {
        Some(range) => if range.start_line > 0 && range.end_line >= range.start_line {
            Some(
                Replacement {
                    start: PointUtf16 { row: (range.start_line - 1) as u32, column: 0 },
                    end: PointUtf16 { row: (range.end_line - 1) as u32, column: u32::MAX },
                    text: edit_text,
                },
            )
        } else if range.start_line < 0 || range.start_column < 0 || range.end_line < 0
            || range.end_column < 0 {
            None
        } else if reversed(Some(range)) {
            Some(
                Replacement {
                    start: cursor,
                    end: cursor,
                    text: stripped(edit_text, current_line_prefix),
                },
            )
        } else {
            Some(
                Replacement {
                    start: PointUtf16 {
                        row: range.start_line as u32,
                        column: range.start_column as u32,
                    },
                    end: PointUtf16 {
                        row: range.end_line as u32,
                        column: range.end_column as u32,
                    },
                    text: edit_text,
                },
            )
        },
        None => if current_line_prefix.len() > 0 && text::has_prefix(
            edit_text,
            current_line_prefix,
        ) {
            Some(
                Replacement {
                    start: cursor,
                    end: cursor,
                    text: stripped(edit_text, current_line_prefix),
                },
            )
        } else {
            match suggestion_start_line {
                Some(line) if line < 0 => None,
                Some(line) if line <= cursor.row => Some(
                    Replacement {
                        start: PointUtf16 { row: line as u32, column: 0 },
                        end: cursor,
                        text: edit_text,
                    },
                ),
                _ => Some(Replacement { start: cursor, end: cursor, text: edit_text }),
            }
        },
    }
}

/// The string without the given start, if it has it and it is not empty.
fn strip(s: &str, start: &str) -> (r: (bool, String))
    ensures
        r.0 == (start@.len() > 0 && text::has_prefix(s@, start@)),
        r.1@ == stripped(s@, start@),
{
    let chars: Vec<char> = text::chars_of(s);
    let prefix: Vec<char> = text::chars_of(start);
    if prefix.len() > 0 && text::starts_with(chars.as_slice(), prefix.as_slice()) {
        assert(chars@.subrange(prefix@.len() as int, chars@.len() as int) =~= chars@.skip(
            prefix@.len() as int,
        ));
        (
            true,
            text::string_of(slice_subrange(chars.as_slice(), prefix.len(), chars.len())),
        )
    } else {
        (false, s.to_owned())
    }
}

impl CursorTabCompletion {
    /// Takes out of the edit's text what it repeats of the document.
    pub fn normalize_document_echo(&mut self, contents: &str, cursor_at_end: bool)
        ensures
            final(self).text@ == normalized(
                old(self).text@,
                old(self).range,
                contents@,
                cursor_at_end,
            ),
            final(self).range == old(self).range,
            final(self).suggestion_start_line == old(self).suggestion_start_line,
            final(self).cursor_prediction_target == old(self).cursor_prediction_target,
            final(self).binding_id == old(self).binding_id,
    {
        let is_reversed: bool = match self.range {
            Some(range) => range.end_line < range.start_line || (range.end_line
                == range.start_line && range.end_column < range.start_column),
            None => false,
        };
        if !cursor_at_end || !is_reversed {
            return ;
        }
        let document: Vec<char> = text::chars_of(contents);
        let echo: Vec<char> = text::chars_of(self.text.as_str());
        if let Some(i) = find_echo(&document, &echo) {
            proof {
                lemma_echo_from(contents@, self.text@, 0);
            }
            let skipped: usize = document.len() - i;
            assert(echo@.subrange(skipped as int, echo@.len() as int) =~= echo@.skip(
                skipped as int,
            ));
            let remaining: &[char] = slice_subrange(echo.as_slice(), skipped, echo.len());
            let rest: &[char] = text::trim(remaining);
            if rest.len() == 0 || text::same_chars(rest, text::trim(document.as_slice())) {
                self.text = String::new();
            } else {
                self.text = text::string_of(remaining);
            }
        }
    }

    /// What the edit replaces, and by which text.
    pub fn replacement(&self, cursor: PointUtf16, current_line_prefix: &str) -> (r: Result<
        PreparedEdit,
        ReplacementError,
    >)
        ensures
            ({
                let expected = replaced(
                    self.text@,
                    self.range,
                    self.suggestion_start_line,
                    cursor,
                    current_line_prefix@,
                );
                match r {
                    Ok(edit) => expected == Some(edit@) && snapshot::not_behind(
                        edit.start,
                        edit.end,
                    ),
                    Err(error) => expected is None && error
                        == ReplacementError::NegativeCoordinate,
                }
            }),
    {
        if let Some(range) = self.range {
            if range.start_line > 0 && range.end_line >= range.start_line {
                // The rows are counted from one and the final line feed is not replaced:
                // the column is clipped to the end of the row.
                return Ok(
                    PreparedEdit {
                        start: PointUtf16 { row: (range.start_line - 1) as u32, column: 0 },
                        end: PointUtf16 { row: (range.end_line - 1) as u32, column: u32::MAX },
                        text: self.text.clone(),
                    },
                );
            }
            if range.start_line < 0 || range.start_column < 0 || range.end_line < 0
                || range.end_column < 0 {
                return Err(ReplacementError::NegativeCoordinate);
            }
            let start: PointUtf16 = PointUtf16 {
                row: range.start_line as u32,
                column: range.start_column as u32,
            };
            let end: PointUtf16 = PointUtf16 {
                row: range.end_line as u32,
                column: range.end_column as u32,
            };
            if !snapshot::is_not_behind(start, end) {
                let (_, rest): (bool, String) = strip(self.text.as_str(), current_line_prefix);
                return Ok(PreparedEdit { start: cursor, end: cursor, text: rest });
            }
            return Ok(PreparedEdit { start, end, text: self.text.clone() });
        }
        let (continues, rest): (bool, String) = strip(self.text.as_str(), current_line_prefix);
        if continues {
            return Ok(PreparedEdit { start: cursor, end: cursor, text: rest });
        }
        if let Some(line) = self.suggestion_start_line {
            if line < 0 {
                return Err(ReplacementError::NegativeCoordinate);
            }
            if line as u32 <= cursor.row {
                return Ok(
                    PreparedEdit {
                        start: PointUtf16 { row: line as u32, column: 0 },
                        end: cursor,
                        text: self.text.clone(),
                    },
                );
            }
        }
        Ok(PreparedEdit { start: cursor, end: cursor, text: self.text.clone() })
    }
}

// ---------------------------------------------------------------------------
// Narrowing and suppressing
// ---------------------------------------------------------------------------

/// A replacement up to the cursor without the part that repeats the replaced text.
pub open spec fn minimized(
    replacement: Replacement,
    cursor: PointUtf16,
    existing_text: Seq<char>,
) -> Replacement {
    if replacement.end == cursor && existing_text.len() > 0 && text::has_prefix(
        replacement.text,
        existing_text,
    ) {
        Replacement {
            start: cursor,
            end: cursor,
            text: replacement.text.skip(existing_text.len() as int),
        }
    } else {
        replacement
    }
}

/// A document after a replacement.
pub open spec fn after_replacement(rows: Seq<Seq<char>>, replacement: Replacement) -> Seq<char> {
    snapshot::before_point(rows, replacement.start) + replacement.text + text::join(
        rows,
        seq!['\n'],
    ).skip(snapshot::before_point(rows, replacement.end).len() as int)
}

/// Minimizing a replacement does not change what it makes of the document.
pub proof fn lemma_minimized_same_result(
    rows: Seq<Seq<char>>,
    replacement: Replacement,
    cursor: PointUtf16,
)
    requires
        snapshot::document_rows(rows),
        snapshot::valid_point(rows, replacement.start),
        snapshot::valid_point(rows, replacement.end),
        snapshot::not_behind(replacement.start, replacement.end),
    ensures
        after_replacement(
            rows,
            minimized(
                replacement,
                cursor,
                snapshot::text_between(rows, replacement.start, replacement.end),
            ),
        ) == after_replacement(rows, replacement),
{
    let existing = snapshot::text_between(rows, replacement.start, replacement.end);
    snapshot::lemma_text_between(rows, replacement.start, replacement.end);
    if text::has_prefix(replacement.text, existing) {
        assert(existing + replacement.text.skip(existing.len() as int) =~= replacement.text);
        let head = snapshot::before_point(rows, replacement.start);
        let tail = replacement.text.skip(existing.len() as int);
        assert((head + existing) + tail =~= head + replacement.text);
    }
}

/// Narrows a replacement that ends at the cursor and begins with the text it replaces.
pub fn minimize_replacement(
    replacement: PreparedEdit,
    cursor: PointUtf16,
    existing_text: &str,
) -> (r: PreparedEdit)
    ensures
        r@ == minimized(replacement@, cursor, existing_text@),
{
    if replacement.end == cursor {
        let (repeats, rest): (bool, String) = strip(replacement.text.as_str(), existing_text);
        if repeats {
            return PreparedEdit { start: cursor, end: cursor, text: rest };
        }
    }
    replacement
}

/// Whether a line holds nothing but white space.
pub open spec fn blank(line: Seq<char>) -> bool {
    text::trimmed(line).len() == 0
}

/// Whether a text has lines that are not blank and all of those equal the given one.
pub open spec fn repeats_line(replacement: Seq<char>, line: Seq<char>) -> bool {
    let lines = text::text_lines(replacement);
    &&& line.len() > 0
    &&& exists|i: int| 0 <= i < lines.len() && !blank(#[trigger] lines[i])
    &&& forall|i: int| 0 <= i < lines.len() && !blank(#[trigger] lines[i]) ==> lines[i] == line
}

/// Whether a replacement only repeats the line in front of the cursor.
pub fn repeats_current_line(replacement_text: &str, current_line_prefix: &str) -> (r: bool)
    ensures
        r == repeats_line(replacement_text@, current_line_prefix@),
{
    let prefix: Vec<char> = text::chars_of(current_line_prefix);
    if prefix.len() == 0 {
        return false;
    }
    let chars: Vec<char> = text::chars_of(replacement_text);
    let lines: Vec<Vec<char>> = text::split_lines(chars.as_slice());
    let ghost all = text::text_lines(replacement_text@);
    let mut found: bool = false;
    let mut i: usize = 0;
    while i < lines.len()
        invariant
            i <= lines@.len(),
            all == text::text_lines(replacement_text@),
            text::views(lines@) == all,
            prefix@ == current_line_prefix@,
            prefix@.len() > 0,
            found == exists|j: int| 0 <= j < i && !blank(#[trigger] all[j]),
            forall|j: int| 0 <= j < i && !blank(#[trigger] all[j]) ==> all[j] == prefix@,
        decreases lines@.len() - i,
    {
        let line: &[char] = lines[i].as_slice();
        assert(line@ == all[i as int]);
        if text::trim(line).len() > 0 {
            assert(!blank(all[i as int]));
            if !text::same_chars(line, prefix.as_slice()) {
                return false;
            }
            found = true;
        }
        i += 1;
    }
    found
}

/// Whether a text breaks lines and otherwise holds only white space.
pub open spec fn only_breaks_and_indentation(s: Seq<char>) -> bool {
    &&& s.contains('\n') || s.contains('\r')
    &&& forall|i: int| 0 <= i < s.len() ==> text::white_space(#[trigger] s[i])
}

/// Whether a text breaks lines and otherwise holds only white space.
pub fn contains_only_line_breaks_and_indentation(s: &str) -> (r: bool)
    ensures
        r == only_breaks_and_indentation(s@),
{
    let chars: Vec<char> = text::chars_of(s);
    if !text::contains_char(chars.as_slice(), '\n') && !text::contains_char(
        chars.as_slice(),
        '\r',
    ) {
        return false;
    }
    let mut i: usize = 0;
    while i < chars.len()
        invariant
            i <= chars@.len(),
            chars@ == s@,
            forall|j: int| 0 <= j < i ==> text::white_space(#[trigger] s@[j]),
        decreases chars@.len() - i,
    {
        if !text::is_white_space(chars[i]) {
            assert(!text::white_space(s@[i as int]));
            return false;
        }
        i += 1;
    }
    true
}

// ---------------------------------------------------------------------------
// Ordering
// ---------------------------------------------------------------------------

/// Whether one replacement may stand in front of another: by start, then by end.
pub open spec fn ordered(a: Replacement, b: Replacement) -> bool {
    &&& snapshot::not_behind(a.start, b.start)
    &&& a.start == b.start ==> snapshot::not_behind(a.end, b.end)
}

/// A list with one more replacement, put behind all those that may stand in front of it.
pub open spec fn inserted(sorted: Seq<Replacement>, edit: Replacement) -> Seq<Replacement>
    decreases sorted.len(),
{
    if sorted.len() == 0 || ordered(sorted.last(), edit) {
        sorted.push(edit)
    } else {
        inserted(sorted.drop_last(), edit).push(sorted.last())
    }
}

/// The replacements in order; those with the same range stay in the order they had.
pub open spec fn in_document_order(edits: Seq<Replacement>) -> Seq<Replacement>
    decreases edits.len(),
{
    if edits.len() == 0 {
        Seq::empty()
    } else {
        inserted(in_document_order(edits.drop_last()), edits.last())
    }
}

/// Whether each replacement may stand in front of those behind it.
pub open spec fn is_ordered(edits: Seq<Replacement>) -> bool {
    forall|i: int, j: int| 0 <= i < j < edits.len() ==> ordered(#[trigger] edits[i], #[trigger] edits[j])
}

/// The replacements of a list that have the given range.
pub open spec fn with_range(
    edits: Seq<Replacement>,
    start: PointUtf16,
    end: PointUtf16,
) -> Seq<Replacement>
    decreases edits.len(),
{
    if edits.len() == 0 {
        Seq::empty()
    } else {
        let before = with_range(edits.drop_last(), start, end);
        if edits.last().start == start && edits.last().end == end {
            before.push(edits.last())
        } else {
            before
        }
    }
}

proof fn lemma_inserted(sorted: Seq<Replacement>, edit: Replacement)
    requires
        is_ordered(sorted),
    ensures
        inserted(sorted, edit).len() == sorted.len() + 1,
        is_ordered(inserted(sorted, edit)),
        inserted(sorted, edit).to_multiset() == sorted.to_multiset().insert(edit),
        forall|i: int|
            0 <= i <= sorted.len() ==> #[trigger] inserted(sorted, edit)[i] == edit || sorted.contains(
                inserted(sorted, edit)[i],
            ),
    decreases sorted.len(),
{
    broadcast use vstd::seq_lib::group_to_multiset_ensures;

    let all = inserted(sorted, edit);
    if sorted.len() == 0 || ordered(sorted.last(), edit) {
        assert forall|i: int, j: int| 0 <= i < j < all.len() implies ordered(
            #[trigger] all[i],
            #[trigger] all[j],
        ) by {
            if j == sorted.len() {
                assert(ordered(sorted[i], edit)) by {
                    if i < sorted.len() - 1 {
                        assert(ordered(sorted[i], sorted[sorted.len() - 1]));
                    }
                }
            }
        }
        assert forall|i: int| 0 <= i <= sorted.len() implies #[trigger] all[i] == edit
            || sorted.contains(all[i]) by {
            if i < sorted.len() {
                assert(sorted[i] == all[i]);
            }
        }
    } else {
        let head = sorted.drop_last();
        let last = sorted.last();
        let front = inserted(head, edit);
        assert(is_ordered(head)) by {
            assert forall|i: int, j: int| 0 <= i < j < head.len() implies ordered(
                #[trigger] head[i],
                #[trigger] head[j],
            ) by {
                assert(ordered(sorted[i], sorted[j]));
            }
        }
        lemma_inserted(head, edit);
        assert(head.push(last) =~= sorted);
        assert forall|i: int| 0 <= i < front.len() implies ordered(#[trigger] front[i], last) by {
            if front[i] != edit {
                let k = choose|k: int| 0 <= k < head.len() && head[k] == front[i];
                assert(sorted[k] == front[i]);
                assert(ordered(sorted[k], sorted[sorted.len() - 1]));
            }
        }
        assert(all =~= front.push(last));
        assert(all.to_multiset() =~= front.to_multiset().insert(last));
        assert(sorted.to_multiset() =~= head.to_multiset().insert(last));
        assert(all.to_multiset() =~= sorted.to_multiset().insert(edit));
        assert forall|i: int| 0 <= i <= sorted.len() implies #[trigger] all[i] == edit
            || sorted.contains(all[i]) by {
            if i < front.len() && front[i] != edit {
                assert(front[i] == all[i]);
                let k = choose|k: int| 0 <= k < head.len() && head[k] == front[i];
                assert(sorted[k] == all[i]);
            } else if i == front.len() {
                assert(sorted[sorted.len() - 1] == all[i]);
            }
        }
    }
}

proof fn lemma_inserted_stable(
    sorted: Seq<Replacement>,
    edit: Replacement,
    start: PointUtf16,
    end: PointUtf16,
)
    ensures
        with_range(inserted(sorted, edit), start, end) == if edit.start == start && edit.end
            == end {
            with_range(sorted, start, end).push(edit)
        } else {
            with_range(sorted, start, end)
        },
    decreases sorted.len(),
{
    if sorted.len() == 0 || ordered(sorted.last(), edit) {
        assert(sorted.push(edit).drop_last() =~= sorted);
    } else {
        let head = sorted.drop_last();
        lemma_inserted_stable(head, edit, start, end);
        assert(inserted(head, edit).push(sorted.last()).drop_last() =~= inserted(head, edit));
    }
}

/// Putting replacements in order keeps all of them, orders them, and leaves those with
/// the same range in the order they had.
pub proof fn lemma_in_document_order(edits: Seq<Replacement>)
    ensures
        is_ordered(in_document_order(edits)),
        in_document_order(edits).to_multiset() == edits.to_multiset(),
        forall|start: PointUtf16, end: PointUtf16| #[trigger]
            with_range(in_document_order(edits), start, end) == with_range(edits, start, end),
    decreases edits.len(),
{
    broadcast use vstd::seq_lib::group_to_multiset_ensures;

    if edits.len() > 0 {
        let head = edits.drop_last();
        lemma_in_document_order(head);
        lemma_inserted(in_document_order(head), edits.last());
        assert(head.push(edits.last()) =~= edits);
        assert(edits.to_multiset() =~= head.to_multiset().insert(edits.last()));
        assert forall|start: PointUtf16, end: PointUtf16| #[trigger]
            with_range(in_document_order(edits), start, end) == with_range(edits, start, end) by {
            lemma_inserted_stable(in_document_order(head), edits.last(), start, end);
            assert(with_range(in_document_order(head), start, end) == with_range(
                head,
                start,
                end,
            ));
        }
    } else {
        assert(in_document_order(edits) =~= edits);
    }
}

/// The replacements that prepared edits stand for.
pub open spec fn replacements(edits: Seq<PreparedEdit>) -> Seq<Replacement> {
    Seq::new(edits.len(), |i: int| edits[i]@)
}

/// Whether one edit may stand in front of another.
fn may_precede(a: &PreparedEdit, b: &PreparedEdit) -> (r: bool)
    ensures
        r == ordered(a@, b@),
{
    snapshot::is_not_behind(a.start, b.start) && (a.start != b.start || snapshot::is_not_behind(
        a.end,
        b.end,
    ))
}

proof fn lemma_inserted_at(sorted: Seq<Replacement>, edit: Replacement, at: int)
    requires
        0 <= at <= sorted.len(),
        at > 0 ==> ordered(sorted[at - 1], edit),
        forall|j: int| at <= j < sorted.len() ==> !ordered(#[trigger] sorted[j], edit),
    ensures
        inserted(sorted, edit) == sorted.insert(at, edit),
    decreases sorted.len(),
{
    if at == sorted.len() {
        assert(sorted.insert(at, edit) =~= sorted.push(edit));
        if sorted.len() > 0 {
            assert(sorted[at - 1] == sorted.last());
        }
    } else {
        assert(!ordered(sorted[sorted.len() - 1], edit));
        lemma_inserted_at(sorted.drop_last(), edit, at);
        assert(sorted.insert(at, edit) =~= sorted.drop_last().insert(at, edit).push(
            sorted.last(),
        ));
    }
}

/// Puts an edit into an ordered list, behind all those that may stand in front of it.
fn insert_edit(sorted: &mut Vec<PreparedEdit>, edit: PreparedEdit)
    ensures
        replacements(final(sorted)@) == inserted(replacements(old(sorted)@), edit@),
        forall|i: int|
            0 <= i < final(sorted)@.len() ==> #[trigger] final(sorted)@[i] == edit || old(
                sorted,
            )@.contains(final(sorted)@[i]),
{
    let ghost before = replacements(sorted@);
    let ghost given = sorted@;
    let mut at: usize = sorted.len();
    while at > 0 && !may_precede(&sorted[at - 1], &edit)
        invariant
            at <= sorted@.len(),
            before == replacements(sorted@),
            sorted@ == given,
            forall|j: int| at <= j < before.len() ==> !ordered(#[trigger] before[j], edit@),
        decreases at,
    {
        at -= 1;
    }
    proof {
        lemma_inserted_at(before, edit@, at as int);
    }
    sorted.insert(at, edit);
    assert(replacements(sorted@) =~= before.insert(at as int, edit@));
    assert forall|i: int| 0 <= i < sorted@.len() implies #[trigger] sorted@[i] == edit
        || given.contains(sorted@[i]) by {
        if i < at {
            assert(sorted@[i] == given[i]);
        } else if i > at {
            assert(sorted@[i] == given[i - 1]);
        }
    }
}

// ---------------------------------------------------------------------------
// Preparing the edits of a stream
// ---------------------------------------------------------------------------

/// Where the edits of a stream are to be made.
pub struct Surroundings {
    pub rows: Seq<Seq<char>>,
    pub cursor: PointUtf16,
    pub current_line_prefix: Seq<char>,
    pub contents: Seq<char>,
    pub cursor_at_end: bool,
}

/// The replacement that an edit with a normalized text makes, if it makes one.
pub open spec fn planned(
    at: Surroundings,
    edit_text: Seq<char>,
    range: Option<RangeToReplace>,
    suggestion_start_line: Option<i32>,
) -> Result<Option<Replacement>, ReplacementError> {
    if edit_text.len() == 0 && range is None && suggestion_start_line is None {
        Ok(None)
    } else {
        match replaced(
            edit_text,
            range,
            suggestion_start_line,
            at.cursor,
            at.current_line_prefix,
        ) {
            None => Err(ReplacementError::NegativeCoordinate),
            Some(wanted) => {
                let whole = Replacement {
                    start: snapshot::clipped(at.rows, wanted.start, Bias::Left),
                    end: snapshot::clipped(at.rows, wanted.end, Bias::Right),
                    text: wanted.text,
                };
                let at_cursor = snapshot::not_behind(whole.start, at.cursor)
                    && snapshot::not_behind(at.cursor, whole.end);
                let edit = if at_cursor {
                    minimized(
                        whole,
                        at.cursor,
                        snapshot::text_between(at.rows, whole.start, whole.end),
                    )
                } else {
                    whole
                };
                if edit.start == edit.end && edit.text.len() == 0 {
                    Ok(None)
                } else if only_breaks_and_indentation(edit.text) {
                    Ok(None)
                } else if at_cursor && repeats_line(edit.text, at.current_line_prefix) {
                    Ok(None)
                } else {
                    Ok(Some(edit))
                }
            },
        }
    }
}

/// The text of an edit, normalized where the edit is to be made.
pub open spec fn normalized_text(at: Surroundings, edit: CursorTabCompletion) -> Seq<char> {
    normalized(edit.text@, edit.range, at.contents, at.cursor_at_end)
}

/// The replacement that an edit of a stream makes, if it makes one.
pub open spec fn prepared(at: Surroundings, edit: CursorTabCompletion) -> Result<
    Option<Replacement>,
    ReplacementError,
> {
    planned(at, normalized_text(at, edit), edit.range, edit.suggestion_start_line)
}

/// The replacements that the edits of a stream make, in the order of the edits.
pub open spec fn all_prepared(at: Surroundings, edits: Seq<CursorTabCompletion>) -> Result<
    Seq<Replacement>,
    ReplacementError,
>
    decreases edits.len(),
{
    if edits.len() == 0 {
        Ok(Seq::empty())
    } else {
        match all_prepared(at, edits.drop_last()) {
            Err(error) => Err(error),
            Ok(before) => match prepared(at, edits.last()) {
                Err(error) => Err(error),
                Ok(None) => Ok(before),
                Ok(Some(edit)) => Ok(before.push(edit)),
            },
        }
    }
}

/// Whether an edit differs from another only in its text, which is the given one.
pub open spec fn retexted(
    new: CursorTabCompletion,
    old_edit: CursorTabCompletion,
    text: Seq<char>,
) -> bool {
    &&& new.text@ == text
    &&& new.range == old_edit.range
    &&& new.suggestion_start_line == old_edit.suggestion_start_line
    &&& new.cursor_prediction_target == old_edit.cursor_prediction_target
    &&& new.binding_id == old_edit.binding_id
}

/// Whether the first `count` edits were normalized and the others left alone.
pub open spec fn first_normalized(
    at: Surroundings,
    new: Seq<CursorTabCompletion>,
    old_edits: Seq<CursorTabCompletion>,
    count: int,
) -> bool {
    &&& new.len() == old_edits.len()
    &&& forall|i: int|
        0 <= i < count ==> retexted(
            #[trigger] new[i],
            old_edits[i],
            normalized_text(at, old_edits[i]),
        )
    &&& forall|i: int| count <= i < new.len() ==> #[trigger] new[i] == old_edits[i]
}

/// Whether a stream differs from another only in that no cursor target is left.
pub open spec fn without_targets(new: CursorTabStream, old_stream: CursorTabStream) -> bool {
    &&& new.is_multidiff_model == old_stream.is_multidiff_model
    &&& new.cursor_prediction_target is None
    &&& new.edits@.len() == old_stream.edits@.len()
    &&& forall|i: int|
        0 <= i < new.edits@.len() ==> {
            let edit = #[trigger] new.edits@[i];
            &&& edit.text == old_stream.edits@[i].text
            &&& edit.range == old_stream.edits@[i].range
            &&& edit.suggestion_start_line == old_stream.edits@[i].suggestion_start_line
            &&& edit.cursor_prediction_target is None
            &&& edit.binding_id == old_stream.edits@[i].binding_id
        }
}

/// The replacement that makes a change of a multidiff stream.
pub open spec fn change_replacement(
    rows: Seq<Seq<char>>,
    change: multidiff::LocalChange,
) -> Replacement {
    Replacement {
        start: snapshot::point_at(rows, change.start),
        end: snapshot::point_at(rows, change.end),
        text: change.text,
    }
}

/// Whether each replacement has valid ends in order.
pub open spec fn well_placed(rows: Seq<Seq<char>>, edits: Seq<PreparedEdit>) -> bool {
    forall|i: int|
        0 <= i < edits.len() ==> {
            let edit = #[trigger] edits[i];
            &&& snapshot::valid_point(rows, edit.start)
            &&& snapshot::valid_point(rows, edit.end)
            &&& snapshot::not_behind(edit.start, edit.end)
        }
}

/// Whether a result and a changed stream are those of preparing a multidiff stream: the
/// change nearest to the cursor, or the error of the edit that does not fit.
pub open spec fn is_multidiff_preparation<D: Fn(&str, &str) -> Vec<TextEdit>>(
    text_diff: D,
    rows: Seq<Seq<char>>,
    cursor: PointUtf16,
    contents: Seq<char>,
    old_stream: CursorTabStream,
    new_stream: CursorTabStream,
    result: Result<Vec<PreparedEdit>, ReplacementError>,
) -> bool {
    match result {
        Err(error) => {
            &&& new_stream == old_stream
            &&& error is Multidiff
            &&& multidiff::all_edited(contents, old_stream.edits@) == Err::<
                Seq<char>,
                MultidiffError,
            >(error->Multidiff_0)
        },
        Ok(edits) => {
            &&& multidiff::all_edited(contents, old_stream.edits@) is Ok
            &&& edits@.len() == 0 ==> new_stream == old_stream
            &&& edits@.len() > 0 ==> without_targets(new_stream, old_stream)
            &&& exists|batches: Seq<Seq<TextEdit>>|
                {
                    &&& #[trigger] multidiff::stream_batches(
                        text_diff,
                        contents,
                        old_stream.edits@,
                        batches,
                    )
                    &&& replacements(edits@) == match multidiff::nearest_change(
                        multidiff::local_changes(batches),
                        snapshot::offset_of(rows, cursor),
                    ) {
                        None => Seq::empty(),
                        Some(change) => seq![change_replacement(rows, change)],
                    }
                }
        },
    }
}

/// Whether a result and a changed stream are those of preparing a stream that is not a
/// multidiff stream: its replacements in order, or the error of the first edit that names
/// a negative coordinate.
pub open spec fn is_plain_preparation(
    at: Surroundings,
    old_stream: CursorTabStream,
    new_stream: CursorTabStream,
    result: Result<Vec<PreparedEdit>, ReplacementError>,
) -> bool {
    &&& new_stream.is_multidiff_model == old_stream.is_multidiff_model
    &&& new_stream.cursor_prediction_target == old_stream.cursor_prediction_target
    &&& match result {
        Err(error) => {
            &&& all_prepared(at, old_stream.edits@) == Err::<Seq<Replacement>, ReplacementError>(
                error,
            )
            &&& exists|count: int|
                {
                    &&& 0 < count <= old_stream.edits@.len()
                    &&& all_prepared(at, old_stream.edits@.take(count - 1)) is Ok
                    &&& #[trigger] first_normalized(
                        at,
                        new_stream.edits@,
                        old_stream.edits@,
                        count,
                    )
                }
        },
        Ok(edits) => {
            &&& all_prepared(at, old_stream.edits@) is Ok
            &&& replacements(edits@) == in_document_order(
                all_prepared(at, old_stream.edits@)->Ok_0,
            )
            &&& first_normalized(
                at,
                new_stream.edits@,
                old_stream.edits@,
                old_stream.edits@.len() as int,
            )
        },
    }
}

/// Whether a result and a changed stream are those of preparing a stream.
pub open spec fn is_preparation<D: Fn(&str, &str) -> Vec<TextEdit>>(
    text_diff: D,
    at: Surroundings,
    old_stream: CursorTabStream,
    new_stream: CursorTabStream,
    result: Result<Vec<PreparedEdit>, ReplacementError>,
) -> bool {
    if old_stream.is_multidiff_model {
        is_multidiff_preparation(
            text_diff,
            at.rows,
            at.cursor,
            at.contents,
            old_stream,
            new_stream,
            result,
        )
    } else {
        is_plain_preparation(at, old_stream, new_stream, result)
    }
}

/// Normalizes one edit and plans its replacement.
fn prepare_edit(
    edit: &mut CursorTabCompletion,
    snapshot: &Snapshot,
    cursor: PointUtf16,
    current_line_prefix: &str,
    contents: &str,
    cursor_at_end: bool,
) -> (r: Result<Option<PreparedEdit>, ReplacementError>)
    ensures
        ({
            let at = Surroundings {
                rows: snapshot@,
                cursor,
                current_line_prefix: current_line_prefix@,
                contents: contents@,
                cursor_at_end,
            };
            &&& retexted(*final(edit), *old(edit), normalized_text(at, *old(edit)))
            &&& match r {
                Err(error) => prepared(at, *old(edit)) == Err::<
                    Option<Replacement>,
                    ReplacementError,
                >(error),
                Ok(None) => prepared(at, *old(edit)) == Ok::<
                    Option<Replacement>,
                    ReplacementError,
                >(None),
                Ok(Some(plan)) => {
                    &&& prepared(at, *old(edit)) == Ok::<Option<Replacement>, ReplacementError>(
                        Some(plan@),
                    )
                    &&& snapshot::valid_point(snapshot@, plan.start)
                    &&& snapshot::valid_point(snapshot@, plan.end)
                    &&& snapshot::not_behind(plan.start, plan.end)
                },
            }
        }),
{
    edit.normalize_document_echo(contents, cursor_at_end);
    if edit.text.as_str().is_empty() && edit.range.is_none()
        && edit.suggestion_start_line.is_none() {
        return Ok(None);
    }
    let wanted: PreparedEdit = match edit.replacement(cursor, current_line_prefix) {
        Ok(wanted) => wanted,
        Err(error) => {
            return Err(error);
        },
    };
    let start: PointUtf16 = snapshot.clip_point_utf16(wanted.start, Bias::Left);
    let end: PointUtf16 = snapshot.clip_point_utf16(wanted.end, Bias::Right);
    proof {
        snapshot::lemma_clipped_ordered(snapshot@, wanted.start, wanted.end);
    }
    let existing: String = snapshot.text_for_range(start, end);
    let at_cursor: bool = snapshot::is_not_behind(start, cursor) && snapshot::is_not_behind(
        cursor,
        end,
    );
    let whole: PreparedEdit = PreparedEdit { start, end, text: wanted.text };
    let plan: PreparedEdit = if at_cursor {
        minimize_replacement(whole, cursor, existing.as_str())
    } else {
        whole
    };
    if plan.start == plan.end && plan.text.as_str().is_empty() {
        return Ok(None);
    }
    if contains_only_line_breaks_and_indentation(plan.text.as_str()) {
        return Ok(None);
    }
    if at_cursor && repeats_current_line(plan.text.as_str(), current_line_prefix) {
        return Ok(None);
    }
    Ok(Some(plan))
}

/// Takes all cursor targets out of a stream.
fn clear_targets(stream: &mut CursorTabStream)
    ensures
        without_targets(*final(stream), *old(stream)),
{
    let ghost given = *stream;
    stream.cursor_prediction_target = None;
    let mut i: usize = 0;
    while i < stream.edits.len()
        invariant
            i <= stream.edits@.len(),
            stream.edits@.len() == given.edits@.len(),
            stream.is_multidiff_model == given.is_multidiff_model,
            stream.cursor_prediction_target is None,
            forall|j: int|
                0 <= j < stream.edits@.len() ==> {
                    let edit = #[trigger] stream.edits@[j];
                    &&& edit.text == given.edits@[j].text
                    &&& edit.range == given.edits@[j].range
                    &&& edit.suggestion_start_line == given.edits@[j].suggestion_start_line
                    &&& edit.binding_id == given.edits@[j].binding_id
                },
            forall|j: int|
                0 <= j < i ==> (#[trigger] stream.edits@[j]).cursor_prediction_target is None,
        decreases stream.edits@.len() - i,
    {
        let ghost before = stream.edits@;
        assert(before[i as int].text == given.edits@[i as int].text);
        let edit: &mut CursorTabCompletion = &mut stream.edits[i];
        edit.cursor_prediction_target = None;
        i += 1;
    }
}

/// Once an edit cannot be prepared, the edits behind it change nothing of that.
proof fn lemma_preparation_fails(
    at: Surroundings,
    edits: Seq<CursorTabCompletion>,
    count: int,
    error: ReplacementError,
)
    requires
        0 <= count <= edits.len(),
        all_prepared(at, edits.take(count)) == Err::<Seq<Replacement>, ReplacementError>(error),
    ensures
        all_prepared(at, edits) == Err::<Seq<Replacement>, ReplacementError>(error),
    decreases edits.len() - count,
{
    if count == edits.len() {
        assert(edits.take(count) == edits);
    } else {
        assert(edits.take(count + 1).drop_last() == edits.take(count));
        lemma_preparation_fails(at, edits, count + 1, error);
    }
}

/// Turns the edits of a stream into replacements in the document.
///
/// A multidiff stream gives the change nearest to the cursor. When it gives one, the cursor
/// targets are dropped: they describe a document that all edits were made in. Another
/// stream gives a replacement for each of its edits that changes something, in the order
/// of the document; the texts of its edits are normalized on the way.
pub fn prepared_edits_from_stream<D: Fn(&str, &str) -> Vec<TextEdit>>(
    stream: &mut CursorTabStream,
    snapshot: &Snapshot,
    cursor: PointUtf16,
    current_line_prefix: &str,
    contents: &str,
    cursor_at_end: bool,
    text_diff: &D,
) -> (r: Result<Vec<PreparedEdit>, ReplacementError>)
    requires
        multidiff::sound_differ(*text_diff),
        old(stream).is_multidiff_model ==> snapshot@ == text::rows(contents@)
            && snapshot::valid_point(snapshot@, cursor),
    ensures
        is_preparation(
            *text_diff,
            Surroundings {
                rows: snapshot@,
                cursor,
                current_line_prefix: current_line_prefix@,
                contents: contents@,
                cursor_at_end,
            },
            *old(stream),
            *final(stream),
            r,
        ),
        match r {
            Ok(edits) => well_placed(snapshot@, edits@),
            Err(_) => true,
        },
{
    let ghost at = Surroundings {
        rows: snapshot@,
        cursor,
        current_line_prefix: current_line_prefix@,
        contents: contents@,
        cursor_at_end,
    };
    if stream.is_multidiff_model {
        return prepared_multidiff_edits(stream, snapshot, cursor, contents, text_diff);
    }
    let ghost given = *stream;
    let mut plans: Vec<PreparedEdit> = Vec::new();
    let mut i: usize = 0;
    assert(replacements(plans@) =~= Seq::empty());
    while i < stream.edits.len()
        invariant
            i <= stream.edits@.len() == given.edits@.len(),
            stream.is_multidiff_model == given.is_multidiff_model,
            stream.cursor_prediction_target == given.cursor_prediction_target,
            given == *old(stream),
            !given.is_multidiff_model,
            at == (Surroundings {
                rows: snapshot@,
                cursor,
                current_line_prefix: current_line_prefix@,
                contents: contents@,
                cursor_at_end,
            }),
            first_normalized(at, stream.edits@, given.edits@, i as int),
            all_prepared(at, given.edits@.take(i as int)) is Ok,
            replacements(plans@) == in_document_order(
                all_prepared(at, given.edits@.take(i as int))->Ok_0,
            ),
            well_placed(snapshot@, plans@),
        decreases stream.edits@.len() - i,
    {
        let ghost before = stream.edits@;
        let ghost done = all_prepared(at, given.edits@.take(i as int))->Ok_0;
        assert(before[i as int] == given.edits@[i as int]);
        assert(given.edits@.take(i + 1).drop_last() == given.edits@.take(i as int));
        let plan: Result<Option<PreparedEdit>, ReplacementError> = prepare_edit(
            &mut stream.edits[i],
            snapshot,
            cursor,
            current_line_prefix,
            contents,
            cursor_at_end,
        );
        assert(first_normalized(at, stream.edits@, given.edits@, i + 1)) by {
            assert(stream.edits@ =~= before.update(i as int, stream.edits@[i as int]));
        }
        match plan {
            Err(error) => {
                proof {
                    lemma_preparation_fails(at, given.edits@, i + 1, error);
                    assert(all_prepared(at, given.edits@.take((i + 1) - 1)) is Ok);
                }
                return Err(error);
            },
            Ok(None) => {},
            Ok(Some(plan)) => {
                let ghost held = plans@;
                assert(done.push(plan@).drop_last() =~= done);
                insert_edit(&mut plans, plan);
                assert forall|j: int| 0 <= j < plans@.len() implies {
                    let edit = #[trigger] plans@[j];
                    &&& snapshot::valid_point(snapshot@, edit.start)
                    &&& snapshot::valid_point(snapshot@, edit.end)
                    &&& snapshot::not_behind(edit.start, edit.end)
                } by {
                    if plans@[j] != plan {
                        let k = choose|k: int| 0 <= k < held.len() && held[k] == plans@[j];
                        assert(snapshot::valid_point(snapshot@, held[k].start));
                    }
                }
            },
        }
        i += 1;
    }
    assert(given.edits@.take(i as int) == given.edits@);
    Ok(plans)
}

/// The change of a multidiff stream that is nearest to the cursor, as a replacement.
fn prepared_multidiff_edits<D: Fn(&str, &str) -> Vec<TextEdit>>(
    stream: &mut CursorTabStream,
    snapshot: &Snapshot,
    cursor: PointUtf16,
    contents: &str,
    text_diff: &D,
) -> (r: Result<Vec<PreparedEdit>, ReplacementError>)
    requires
        multidiff::sound_differ(*text_diff),
        snapshot@ == text::rows(contents@),
        snapshot::valid_point(snapshot@, cursor),
    ensures
        is_multidiff_preparation(
            *text_diff,
            snapshot@,
            cursor,
            contents@,
            *old(stream),
            *final(stream),
            r,
        ),
        match r {
            Ok(edits) => well_placed(snapshot@, edits@),
            Err(_) => true,
        },
{
    let offset: usize = snapshot.point_utf16_to_offset(cursor);
    let mut edits: Vec<TextEdit> = match cursor_local_multidiff_edits(
        &*stream,
        contents,
        offset,
        text_diff,
    ) {
        Ok(edits) => edits,
        Err(error) => {
            return Err(ReplacementError::Multidiff(error));
        },
    };
    let ghost offered = edits@;
    let mut plans: Vec<PreparedEdit> = Vec::new();
    let ghost batches = choose|batches: Seq<Seq<TextEdit>>|
        {
            &&& #[trigger] multidiff::stream_batches(*text_diff, contents@, stream.edits@, batches)
            &&& multidiff::holds_change(
                offered,
                multidiff::nearest_change(multidiff::local_changes(batches), offset as int),
            )
        };
    if let Some(edit) = edits.pop() {
        assert(edit == offered[0]);
        proof {
            snapshot::lemma_point_at(snapshot@, edit.start as int, edit.end as int);
        }
        let ghost change = multidiff::nearest_change(
            multidiff::local_changes(batches),
            offset as int,
        )->0;
        let plan: PreparedEdit = PreparedEdit {
            start: snapshot.offset_to_point_utf16(edit.start),
            end: snapshot.offset_to_point_utf16(edit.end),
            text: edit.text,
        };
        plans.push(plan);
        clear_targets(stream);
        assert(replacements(plans@) =~= seq![change_replacement(snapshot@, change)]);
    } else {
        assert(replacements(plans@) =~= Seq::empty());
    }
    Ok(plans)
}

// ---------------------------------------------------------------------------
// What an edit is turned into
// ---------------------------------------------------------------------------

/// What an edit replaces, case by case.
///
/// Lines are counted from one and replaced up to and with the last, but for its line feed.
/// Other ranges count rows and columns from zero. A reversed range means the cursor; then,
/// and without a range, a text that begins with the line in front of the cursor continues it.
/// Without a range a text replaces from the start of the named row, if that is not below the
/// cursor, to the cursor, and else is inserted at the cursor. A negative coordinate that is
/// looked at is refused.
pub proof fn lemma_what_is_replaced(
    edit_text: Seq<char>,
    range: Option<RangeToReplace>,
    suggestion_start_line: Option<i32>,
    cursor: PointUtf16,
    prefix: Seq<char>,
)
    ensures
        ({
            let result = replaced(edit_text, range, suggestion_start_line, cursor, prefix);
            let continues = prefix.len() > 0 && prefix.len() <= edit_text.len()
                && edit_text.subrange(0, prefix.len() as int) == prefix;
            let continued = edit_text.subrange(prefix.len() as int, edit_text.len() as int);
            match range {
                Some(range) => {
                    let (a, b) = (range.start_line, range.end_line);
                    let (c, d) = (range.start_column, range.end_column);
                    if 1 <= a <= b {
                        match result {
                            Some(made) => {
                                &&& made.start.row == a - 1
                                &&& made.start.column == 0
                                &&& made.end.row == b - 1
                                &&& made.end.column == u32::MAX
                                &&& made.text == edit_text
                            },
                            None => false,
                        }
                    } else if a < 0 || b < 0 || c < 0 || d < 0 {
                        result is None
                    } else if b < a || (b == a && d < c) {
                        match result {
                            Some(made) => {
                                &&& made.start == cursor
                                &&& made.end == cursor
                                &&& made.text == if continues {
                                    continued
                                } else {
                                    edit_text
                                }
                            },
                            None => false,
                        }
                    } else {
                        match result {
                            Some(made) => {
                                &&& made.start.row == a
                                &&& made.start.column == c
                                &&& made.end.row == b
                                &&& made.end.column == d
                                &&& made.text == edit_text
                            },
                            None => false,
                        }
                    }
                },
                None => match result {
                    Some(made) => {
                        &&& made.end == cursor
                        &&& made.text == if continues {
                            continued
                        } else {
                            edit_text
                        }
                        &&& match suggestion_start_line {
                            Some(line) if !continues && 0 <= line <= cursor.row => {
                                made.start.row == line && made.start.column == 0
                            },
                            _ => made.start == cursor,
                        }
                    },
                    None => !continues && suggestion_start_line is Some
                        && suggestion_start_line->0 < 0,
                },
            }
        }),
        !(range is Some) && suggestion_start_line is Some && suggestion_start_line->0 < 0 && !(
        prefix.len() > 0 && text::has_prefix(edit_text, prefix)) ==> replaced(
            edit_text,
            range,
            suggestion_start_line,
            cursor,
            prefix,
        ) is None,
{
    if prefix.len() <= edit_text.len() {
        assert(edit_text.take(prefix.len() as int) =~= edit_text.subrange(0, prefix.len() as int));
        assert(edit_text.skip(prefix.len() as int) =~= edit_text.subrange(
            prefix.len() as int,
            edit_text.len() as int,
        ));
    }
}

/// Lines of the document are replaced from the start of the first to the end of the last.
pub proof fn lemma_lines_replaced(
    rows: Seq<Seq<char>>,
    edit_text: Seq<char>,
    range: RangeToReplace,
    suggestion_start_line: Option<i32>,
    cursor: PointUtf16,
    prefix: Seq<char>,
)
    requires
        snapshot::document_rows(rows),
        1 <= range.start_line <= range.end_line <= rows.len(),
    ensures
        ({
            let wanted = replaced(edit_text, Some(range), suggestion_start_line, cursor, prefix)->0;
            let start = snapshot::clipped(rows, wanted.start, Bias::Left);
            let end = snapshot::clipped(rows, wanted.end, Bias::Right);
            &&& start.row == range.start_line - 1
            &&& start.column == 0
            &&& end.row == range.end_line - 1
            &&& end.column == text::utf16_len(rows[range.end_line - 1])
            &&& wanted.text == edit_text
        }),
{
    let first = rows[range.start_line - 1];
    let last = rows[range.end_line - 1];
    let full = last.len() as int;
    assert(first.take(0) =~= Seq::<char>::empty());
    snapshot::lemma_column_index(first, 0);
    snapshot::lemma_units_index(last, u32::MAX as int);
    snapshot::lemma_take_bounds(last, full);
    assert(last.take(full) =~= last);
    let k = snapshot::units_index(last, u32::MAX as int);
    if k < full {
        snapshot::lemma_take_bounds(last, k + 1);
    }
}

/// A text is left as it is unless the cursor is at the end of a document and the range is
/// reversed, and unless it begins with all of the document from the start of a row on. Then
/// at least that much is taken off its start. What is left is what stands behind the last rows
/// of the document, unless that is blank or the document once more.
pub proof fn lemma_normalized(
    echo: Seq<char>,
    range: Option<RangeToReplace>,
    contents: Seq<char>,
    cursor_at_end: bool,
)
    ensures
        ({
            let left = normalized(echo, range, contents, cursor_at_end);
            let applies = cursor_at_end && match range {
                Some(range) => range.end_line < range.start_line || (range.end_line
                    == range.start_line && range.end_column < range.start_column),
                None => false,
            };
            &&& !applies ==> left == echo
            &&& left == echo || left.len() == 0 || exists|i: int|
                repeats_from(contents, echo, i) && #[trigger] contents.skip(i) + left == echo
            &&& forall|i: int| #[trigger]
                repeats_from(contents, echo, i) && applies ==> left.len() + contents.len() - i
                    <= echo.len()
            &&& (forall|i: int| !#[trigger] repeats_from(contents, echo, i)) ==> left == echo
            &&& applies && left.len() == 0 && echo.len() > 0 ==> exists|i: int|
                {
                    &&& #[trigger] repeats_from(contents, echo, i)
                    &&& {
                        let rest = text::trimmed(echo.skip(contents.len() - i));
                        rest.len() == 0 || rest == text::trimmed(contents)
                    }
                }
            &&& applies && left.len() > 0 && left.len() < echo.len() ==> text::trimmed(left).len()
                > 0 && text::trimmed(left) != text::trimmed(contents)
        }),
{
    lemma_first_echo(contents, echo, 0);
    if let Some(i) = echo_from(contents, echo, 0) {
        assert(repeats_from(contents, echo, i));
        let remaining = echo.skip(contents.len() - i);
        assert(echo.take(contents.len() - i) =~= contents.skip(i)) by {
            assert(contents.skip(i).len() == contents.len() - i);
        }
        assert(contents.skip(i) + remaining =~= echo);
    }
}

/// Whether a text begins with all of the document from the given index on, at which a row
/// starts.
pub open spec fn repeats_from(contents: Seq<char>, echo: Seq<char>, i: int) -> bool {
    &&& 0 <= i < contents.len()
    &&& i == 0 || contents[i - 1] == '\n'
    &&& contents.len() - i <= echo.len()
    &&& echo.subrange(0, contents.len() - i) == contents.subrange(i, contents.len() as int)
}

proof fn lemma_first_echo(contents: Seq<char>, echo: Seq<char>, from: int)
    requires
        0 <= from,
    ensures
        match echo_from(contents, echo, from) {
            Some(i) => from <= i && repeats_from(contents, echo, i) && forall|j: int|
                from <= j < i ==> !#[trigger] repeats_from(contents, echo, j),
            None => forall|j: int| from <= j ==> !#[trigger] repeats_from(contents, echo, j),
        },
    decreases contents.len() - from,
{
    if from < contents.len() {
        lemma_first_echo(contents, echo, from + 1);
        assert(contents.skip(from) =~= contents.subrange(from, contents.len() as int));
        if contents.len() - from <= echo.len() {
            assert(echo.take(contents.len() - from) =~= echo.subrange(0, contents.len() - from));
        }
        assert(repeats_from(contents, echo, from) <==> starts_row(contents, from)
            && text::has_prefix(echo, contents.skip(from)));
    }
}

/// A text breaks lines and otherwise holds only white space when it holds a line feed or a
/// carriage return and nothing that is not white space.
pub proof fn lemma_only_breaks(s: Seq<char>)
    ensures
        only_breaks_and_indentation(s) <==> (exists|i: int|
            0 <= i < s.len() && ((#[trigger] s[i]) == '\u{a}' || s[i] == '\u{d}')) && (forall|
            i: int,
        |
            0 <= i < s.len() ==> text::white_space(#[trigger] s[i])),
{
}

/// A text repeats a line when it has lines that are not blank, and each of them is that line.
/// An empty text repeats nothing, and nothing repeats an empty line.
pub proof fn lemma_repeats(s: Seq<char>, line: Seq<char>)
    ensures
        repeats_line(s, line) ==> line.len() > 0 && s.len() > 0,
        repeats_line(s, line) ==> forall|i: int|
            0 <= i < text::text_lines(s).len() ==> text::trimmed(
                #[trigger] text::text_lines(s)[i],
            ).len() == 0 || text::text_lines(s)[i] == line,
        line.len() > 0 && text::text_lines(s) == seq![line] && text::trimmed(line).len() > 0
            ==> repeats_line(s, line),
        line.len() > 0 && text::text_lines(s) == seq![line, line] && text::trimmed(line).len() > 0
            ==> repeats_line(s, line),
        (exists|i: int|
            0 <= i < text::text_lines(s).len() && text::trimmed(
                #[trigger] text::text_lines(s)[i],
            ).len() > 0 && text::text_lines(s)[i] != line) ==> !repeats_line(s, line),
{
    let lines = text::text_lines(s);
    if s.len() == 0 {
        assert(lines =~= Seq::empty());
    }
    if lines == seq![line] || lines == seq![line, line] {
        assert(lines[0] == line);
    }
}

/// A replacement that ends at the cursor and begins with the text it replaces becomes an
/// insertion of the rest at the cursor. Any other stays as it is.
pub proof fn lemma_minimized(replacement: Replacement, cursor: PointUtf16, existing: Seq<char>)
    ensures
        ({
            let made = minimized(replacement, cursor, existing);
            if replacement.end == cursor && 0 < existing.len() <= replacement.text.len()
                && replacement.text.subrange(0, existing.len() as int) == existing {
                &&& made.start == cursor
                &&& made.end == cursor
                &&& existing + made.text == replacement.text
            } else {
                made == replacement
            }
        }),
{
    if existing.len() <= replacement.text.len() {
        assert(replacement.text.take(existing.len() as int) =~= replacement.text.subrange(
            0,
            existing.len() as int,
        ));
        if replacement.text.take(existing.len() as int) == existing {
            assert(existing + replacement.text.skip(existing.len() as int) =~= replacement.text);
        }
    }
}

/// The range of the document that an edit means, and the text that it puts there.
pub open spec fn meant(
    at: Surroundings,
    edit_text: Seq<char>,
    range: Option<RangeToReplace>,
    suggestion_start_line: Option<i32>,
) -> Replacement {
    let wanted = replaced(
        edit_text,
        range,
        suggestion_start_line,
        at.cursor,
        at.current_line_prefix,
    )->0;
    Replacement {
        start: snapshot::clipped(at.rows, wanted.start, Bias::Left),
        end: snapshot::clipped(at.rows, wanted.end, Bias::Right),
        text: wanted.text,
    }
}

/// Whether the cursor is inside a range or at one of its ends.
pub open spec fn at_cursor(edit: Replacement, cursor: PointUtf16) -> bool {
    &&& edit.start.row < cursor.row || (edit.start.row == cursor.row && edit.start.column
        <= cursor.column)
    &&& cursor.row < edit.end.row || (cursor.row == edit.end.row && cursor.column
        <= edit.end.column)
}

/// An edit that says something is left out only when it puts back what it replaces, when what
/// it adds is only line breaks and indentation, or when at the cursor it only repeats the
/// current line.
pub proof fn lemma_left_out(
    at: Surroundings,
    edit_text: Seq<char>,
    range: Option<RangeToReplace>,
    suggestion_start_line: Option<i32>,
)
    requires
        snapshot::document_rows(at.rows),
        edit_text.len() > 0 || range is Some || suggestion_start_line is Some,
        planned(at, edit_text, range, suggestion_start_line) == Ok::<
            Option<Replacement>,
            ReplacementError,
        >(None),
    ensures
        ({
            let edit = meant(at, edit_text, range, suggestion_start_line);
            let existing = snapshot::text_between(at.rows, edit.start, edit.end);
            let rest = edit.text.skip(existing.len() as int);
            let begins = text::has_prefix(edit.text, existing);
            ||| edit.text == existing
            ||| only_breaks_and_indentation(edit.text)
            ||| begins && only_breaks_and_indentation(rest)
            ||| at_cursor(edit, at.cursor) && repeats_line(edit.text, at.current_line_prefix)
            ||| at_cursor(edit, at.cursor) && begins && repeats_line(rest, at.current_line_prefix)
        }),
{
    let edit = meant(at, edit_text, range, suggestion_start_line);
    let existing = snapshot::text_between(at.rows, edit.start, edit.end);
    lemma_clipped_pair(at, edit_text, range, suggestion_start_line);
    snapshot::lemma_text_between(at.rows, edit.start, edit.end);
    if edit.start == edit.end {
        assert(existing =~= Seq::<char>::empty());
        assert(edit.text.len() == 0 ==> edit.text =~= existing);
    }
    if text::has_prefix(edit.text, existing) && edit.text.skip(existing.len() as int).len() == 0 {
        assert(edit.text.take(existing.len() as int) =~= edit.text);
    }
}

proof fn lemma_clipped_pair(
    at: Surroundings,
    edit_text: Seq<char>,
    range: Option<RangeToReplace>,
    suggestion_start_line: Option<i32>,
)
    requires
        snapshot::document_rows(at.rows),
        replaced(
            edit_text,
            range,
            suggestion_start_line,
            at.cursor,
            at.current_line_prefix,
        ) is Some,
    ensures
        ({
            let edit = meant(at, edit_text, range, suggestion_start_line);
            &&& snapshot::valid_point(at.rows, edit.start)
            &&& snapshot::valid_point(at.rows, edit.end)
            &&& snapshot::not_behind(edit.start, edit.end)
        }),
{
    let wanted = replaced(
        edit_text,
        range,
        suggestion_start_line,
        at.cursor,
        at.current_line_prefix,
    )->0;
    snapshot::lemma_clipped(at.rows, wanted.start, Bias::Left);
    snapshot::lemma_clipped(at.rows, wanted.end, Bias::Right);
    snapshot::lemma_clipped_ordered(at.rows, wanted.start, wanted.end);
}

/// An edit that is kept makes of the document what it means to make of it. Away from the
/// cursor it is kept as it is, when it adds something that is not white space.
pub proof fn lemma_kept(
    at: Surroundings,
    edit_text: Seq<char>,
    range: Option<RangeToReplace>,
    suggestion_start_line: Option<i32>,
)
    requires
        snapshot::document_rows(at.rows),
        edit_text.len() > 0 || range is Some || suggestion_start_line is Some,
        planned(at, edit_text, range, suggestion_start_line) is Ok,
    ensures
        ({
            let edit = meant(at, edit_text, range, suggestion_start_line);
            let existing = snapshot::text_between(at.rows, edit.start, edit.end);
            let result = planned(at, edit_text, range, suggestion_start_line)->Ok_0;
            &&& match result {
                Some(made) => {
                    &&& after_replacement(at.rows, made) == after_replacement(at.rows, edit)
                    &&& if at_cursor(edit, at.cursor) && edit.end == at.cursor && existing.len()
                        > 0 && text::has_prefix(edit.text, existing) {
                        made.start == at.cursor && made.end == at.cursor && existing + made.text
                            == edit.text
                    } else {
                        made == edit
                    }
                    &&& made.start != made.end || made.text.len() > 0
                    &&& !only_breaks_and_indentation(made.text)
                    &&& at_cursor(edit, at.cursor) ==> !repeats_line(
                        made.text,
                        at.current_line_prefix,
                    )
                },
                None => true,
            }
            &&& !at_cursor(edit, at.cursor) && (exists|i: int|
                0 <= i < edit.text.len() && !text::white_space(#[trigger] edit.text[i]))
                ==> result == Some(edit)
        }),
{
    let edit = meant(at, edit_text, range, suggestion_start_line);
    lemma_clipped_pair(at, edit_text, range, suggestion_start_line);
    lemma_minimized_same_result(at.rows, edit, at.cursor);
    let existing = snapshot::text_between(at.rows, edit.start, edit.end);
    if text::has_prefix(edit.text, existing) {
        assert(existing + edit.text.skip(existing.len() as int) =~= edit.text);
    }
}

/// An edit that puts nothing in the place of a range that is not empty deletes the range: it
/// is kept, whatever stands there.
pub proof fn lemma_deletion_kept(
    at: Surroundings,
    edit_text: Seq<char>,
    range: Option<RangeToReplace>,
    suggestion_start_line: Option<i32>,
)
    requires
        snapshot::document_rows(at.rows),
        edit_text.len() > 0 || range is Some || suggestion_start_line is Some,
        planned(at, edit_text, range, suggestion_start_line) is Ok,
        meant(at, edit_text, range, suggestion_start_line).text.len() == 0,
        meant(at, edit_text, range, suggestion_start_line).start != meant(
            at,
            edit_text,
            range,
            suggestion_start_line,
        ).end,
    ensures
        planned(at, edit_text, range, suggestion_start_line)->Ok_0 == Some(
            meant(at, edit_text, range, suggestion_start_line),
        ),
{
    let edit = meant(at, edit_text, range, suggestion_start_line);
    lemma_repeats(edit.text, at.current_line_prefix);
}

/// An edit of a stream is planned with its text normalized, and cannot be planned exactly when
/// it names a negative coordinate that is looked at.
pub proof fn lemma_prepared_as_planned(at: Surroundings, edit: CursorTabCompletion)
    ensures
        ({
            let left = normalized(edit.text@, edit.range, at.contents, at.cursor_at_end);
            let says_nothing = left.len() == 0 && edit.range is None
                && edit.suggestion_start_line is None;
            &&& prepared(at, edit) == planned(at, left, edit.range, edit.suggestion_start_line)
            &&& says_nothing ==> prepared(at, edit) == Ok::<Option<Replacement>, ReplacementError>(
                None,
            )
            &&& !says_nothing ==> (prepared(at, edit) is Err <==> replaced(
                left,
                edit.range,
                edit.suggestion_start_line,
                at.cursor,
                at.current_line_prefix,
            ) is None)
            &&& prepared(at, edit) is Err ==> prepared(at, edit)->Err_0
                == ReplacementError::NegativeCoordinate
        }),
{
}

/// The replacements of two lists of edits in turn are those of their concatenation; the first
/// edit that cannot be prepared decides.
pub proof fn lemma_preparations_compose(
    at: Surroundings,
    first: Seq<CursorTabCompletion>,
    second: Seq<CursorTabCompletion>,
)
    ensures
        all_prepared(at, first + second) == match all_prepared(at, first) {
            Err(error) => Err(error),
            Ok(x) => match all_prepared(at, second) {
                Err(error) => Err(error),
                Ok(y) => Ok(x + y),
            },
        },
    decreases second.len(),
{
    if second.len() == 0 {
        assert(first + second =~= first);
        if let Ok(x) = all_prepared(at, first) {
            assert(x + Seq::<Replacement>::empty() =~= x);
        }
    } else {
        lemma_preparations_compose(at, first, second.drop_last());
        assert((first + second).drop_last() =~= first + second.drop_last());
        assert((first + second).last() == second.last());
        if let (Ok(x), Ok(y)) = (all_prepared(at, first), all_prepared(at, second.drop_last())) {
            if let Ok(Some(edit)) = prepared(at, second.last()) {
                assert((x + y).push(edit) =~= x + y.push(edit));
            }
        }
    }
}

/// A list of one edit gives the replacement of that edit, if it makes one.
pub proof fn lemma_one_preparation(at: Surroundings, edit: CursorTabCompletion)
    ensures
        all_prepared(at, seq![edit]) == match prepared(at, edit) {
            Err(error) => Err(error),
            Ok(Some(made)) => Ok(seq![made]),
            Ok(None) => Ok(Seq::empty()),
        },
{
    assert(seq![edit].drop_last() =~= Seq::<CursorTabCompletion>::empty());
    reveal_with_fuel(all_prepared, 2);
    if let Ok(Some(made)) = prepared(at, edit) {
        assert(Seq::<Replacement>::empty().push(made) =~= seq![made]);
    }
}

/// The replacements of a plain stream are those of its edits, each as often as edits make it,
/// in the order of where they start and, from the same start, of where they end.
pub proof fn lemma_plain_stream(
    at: Surroundings,
    old_stream: CursorTabStream,
    new_stream: CursorTabStream,
    edits: Vec<PreparedEdit>,
)
    requires
        is_plain_preparation(at, old_stream, new_stream, Ok(edits)),
    ensures
        forall|i: int|
            0 <= i < old_stream.edits@.len() ==> match prepared(
                at,
                #[trigger] old_stream.edits@[i],
            ) {
                Ok(Some(made)) => replacements(edits@).contains(made),
                Ok(None) => true,
                Err(_) => false,
            },
        all_prepared(at, old_stream.edits@) is Ok,
        replacements(edits@).to_multiset() == all_prepared(
            at,
            old_stream.edits@,
        )->Ok_0.to_multiset(),
        edits@.len() == all_prepared(at, old_stream.edits@)->Ok_0.len(),
        forall|i: int, j: int|
            0 <= i < j < edits@.len() ==> {
                let a = #[trigger] edits@[i];
                let b = #[trigger] edits@[j];
                ||| a.start.row < b.start.row
                ||| a.start.row == b.start.row && a.start.column < b.start.column
                ||| a.start == b.start && a.end.row < b.end.row
                ||| a.start == b.start && a.end.row == b.end.row && a.end.column <= b.end.column
            },
        forall|i: int|
            0 <= i < old_stream.edits@.len() ==> {
                let edit = #[trigger] new_stream.edits@[i];
                let given = old_stream.edits@[i];
                &&& edit.text@ == normalized(
                    given.text@,
                    given.range,
                    at.contents,
                    at.cursor_at_end,
                )
                &&& edit.range == given.range
                &&& edit.suggestion_start_line == given.suggestion_start_line
                &&& edit.cursor_prediction_target == given.cursor_prediction_target
            },
        new_stream.cursor_prediction_target == old_stream.cursor_prediction_target,
{
    broadcast use vstd::seq_lib::group_to_multiset_ensures;

    let made = all_prepared(at, old_stream.edits@)->Ok_0;
    let sorted = replacements(edits@);
    lemma_in_document_order(made);
    assert(sorted.to_multiset().len() == sorted.len());
    assert(made.to_multiset().len() == made.len());
    assert forall|i: int| 0 <= i < old_stream.edits@.len() implies match prepared(
        at,
        #[trigger] old_stream.edits@[i],
    ) {
        Ok(Some(edit)) => sorted.contains(edit),
        Ok(None) => true,
        Err(_) => false,
    } by {
        lemma_all_prepared_holds(at, old_stream.edits@, i);
        if let Ok(Some(edit)) = prepared(at, old_stream.edits@[i]) {
            assert(made.contains(edit));
            assert(made.to_multiset().count(edit) > 0);
            assert(sorted.to_multiset().count(edit) > 0);
        }
    }
    assert forall|i: int, j: int| 0 <= i < j < edits@.len() implies {
        let a = #[trigger] edits@[i];
        let b = #[trigger] edits@[j];
        ||| a.start.row < b.start.row
        ||| a.start.row == b.start.row && a.start.column < b.start.column
        ||| a.start == b.start && a.end.row < b.end.row
        ||| a.start == b.start && a.end.row == b.end.row && a.end.column <= b.end.column
    } by {
        assert(ordered(sorted[i], sorted[j]));
    }
    assert forall|i: int| 0 <= i < old_stream.edits@.len() implies {
        let edit = #[trigger] new_stream.edits@[i];
        let given = old_stream.edits@[i];
        &&& edit.text@ == normalized(given.text@, given.range, at.contents, at.cursor_at_end)
        &&& edit.range == given.range
        &&& edit.suggestion_start_line == given.suggestion_start_line
        &&& edit.cursor_prediction_target == given.cursor_prediction_target
    } by {
        assert(retexted(
            new_stream.edits@[i],
            old_stream.edits@[i],
            normalized_text(at, old_stream.edits@[i]),
        ));
    }
}

proof fn lemma_all_prepared_holds(at: Surroundings, edits: Seq<CursorTabCompletion>, i: int)
    requires
        0 <= i < edits.len(),
        all_prepared(at, edits) is Ok,
    ensures
        match prepared(at, edits[i]) {
            Ok(Some(made)) => all_prepared(at, edits)->Ok_0.contains(made),
            Ok(None) => true,
            Err(_) => false,
        },
    decreases edits.len(),
{
    let head = edits.drop_last();
    let before = all_prepared(at, head)->Ok_0;
    let all = all_prepared(at, edits)->Ok_0;
    if i < edits.len() - 1 {
        assert(head[i] == edits[i]);
        lemma_all_prepared_holds(at, head, i);
        if let Ok(Some(made)) = prepared(at, edits[i]) {
            let k = before.index_of(made);
            assert(all[k] == made);
        }
    } else {
        assert(edits[i] == edits.last());
        if let Ok(Some(made)) = prepared(at, edits[i]) {
            assert(all[before.len() as int] == made);
        }
    }
}

/// A multidiff stream gives at most one replacement. When it gives one, no cursor target is
/// left in the stream, and nothing else of it changes; otherwise the stream stays as it is.
pub proof fn lemma_multidiff_stream<D: Fn(&str, &str) -> Vec<TextEdit>>(
    text_diff: D,
    rows: Seq<Seq<char>>,
    cursor: PointUtf16,
    contents: Seq<char>,
    old_stream: CursorTabStream,
    new_stream: CursorTabStream,
    edits: Vec<PreparedEdit>,
)
    requires
        is_multidiff_preparation(
            text_diff,
            rows,
            cursor,
            contents,
            old_stream,
            new_stream,
            Ok(edits),
        ),
    ensures
        edits@.len() <= 1,
        edits@.len() == 0 ==> new_stream == old_stream,
        edits@.len() == 1 ==> {
            &&& new_stream.cursor_prediction_target is None
            &&& forall|i: int|
                0 <= i < new_stream.edits@.len() ==> (
                #[trigger] new_stream.edits@[i]).cursor_prediction_target is None
        },
        new_stream.edits@.len() == old_stream.edits@.len(),
        forall|i: int|
            0 <= i < new_stream.edits@.len() ==> {
                let edit = #[trigger] new_stream.edits@[i];
                &&& edit.text == old_stream.edits@[i].text
                &&& edit.range == old_stream.edits@[i].range
            },
        multidiff::all_edited(contents, old_stream.edits@) is Ok,
{
    assert(replacements(edits@).len() == edits@.len());
}

/// Whether an edit names a place with a negative number: in a range that is not one of whole
/// lines, or as the line at which a suggestion starts that does not continue the current one.
pub open spec fn names_negative(edit: CursorTabCompletion, prefix: Seq<char>) -> bool {
    match edit.range {
        Some(range) => {
            &&& range.start_line < 1 || range.end_line < range.start_line
            &&& range.start_line < 0 || range.start_column < 0 || range.end_line < 0
                || range.end_column < 0
        },
        None => {
            &&& edit.suggestion_start_line is Some
            &&& edit.suggestion_start_line->0 < 0
            &&& prefix.len() == 0 || prefix.len() > edit.text@.len() || edit.text@.subrange(
                0,
                prefix.len() as int,
            ) != prefix
        },
    }
}

/// An edit cannot be prepared exactly when it names a place with a negative number.
pub proof fn lemma_when_unprepared(at: Surroundings, edit: CursorTabCompletion)
    ensures
        prepared(at, edit) == Err::<Option<Replacement>, ReplacementError>(
            ReplacementError::NegativeCoordinate,
        ) <==> names_negative(edit, at.current_line_prefix),
        prepared(at, edit) is Err ==> prepared(at, edit)->Err_0
            == ReplacementError::NegativeCoordinate,
{
    let prefix = at.current_line_prefix;
    if prefix.len() <= edit.text@.len() {
        assert(edit.text@.take(prefix.len() as int) =~= edit.text@.subrange(
            0,
            prefix.len() as int,
        ));
    }
}

/// The edits of a stream can be prepared unless one of them names a place with a negative
/// number.
pub proof fn lemma_when_all_unprepared(at: Surroundings, edits: Seq<CursorTabCompletion>)
    ensures
        all_prepared(at, edits) is Err <==> exists|i: int|
            0 <= i < edits.len() && names_negative(#[trigger] edits[i], at.current_line_prefix),
        all_prepared(at, edits) is Err ==> all_prepared(at, edits)->Err_0
            == ReplacementError::NegativeCoordinate,
    decreases edits.len(),
{
    let prefix = at.current_line_prefix;
    if edits.len() > 0 {
        let head = edits.drop_last();
        lemma_when_all_unprepared(at, head);
        lemma_when_unprepared(at, edits.last());
        assert(edits[edits.len() - 1] == edits.last());
        if all_prepared(at, head) is Err {
            let i = choose|i: int|
                0 <= i < head.len() && names_negative(#[trigger] head[i], prefix);
            assert(names_negative(edits[i], prefix));
        } else if exists|i: int| 0 <= i < edits.len() && names_negative(#[trigger] edits[i], prefix) {
            let i = choose|i: int|
                0 <= i < edits.len() && names_negative(#[trigger] edits[i], prefix);
            if i < head.len() {
                assert(names_negative(head[i], prefix));
            }
        }
    }
}

} // verus!
