//! Where the cursor goes once a prediction is accepted.

use crate::messages::CursorPredictionTarget;
use crate::replacement::PreparedEdit;
use crate::snapshot;
use crate::snapshot::{Point, PointUtf16, Snapshot};
use crate::stream::{CursorTabCompletion, CursorTabStream};
use crate::text;
use vstd::prelude::*;
use vstd::slice::slice_subrange;

verus! {

/// How many rows around the named one are searched for the expected content.
pub const CURSOR_TARGET_SEARCH_RADIUS: u32 = 32;

/// Where the cursor is predicted to go.
#[derive(Clone, Copy, Debug, PartialEq, Eq)]
pub enum PredictedCursor {
    /// A number of bytes into the text of the edit that starts at the given position.
    InEdit { start: PointUtf16, offset: usize },
    /// A position in the document as it is.
    InSnapshot(Point),
}

// ---------------------------------------------------------------------------
// Matching lines
// ---------------------------------------------------------------------------

/// Whether the expected lines stand in `actual` from the given row on, but for white
/// space at their ends.
pub open spec fn lines_match(
    actual: Seq<Seq<char>>,
    row: int,
    expected: Seq<Seq<char>>,
) -> bool {
    &&& 0 <= row
    &&& row + expected.len() <= actual.len()
    &&& forall|j: int|
        0 <= j < expected.len() ==> text::trimmed(actual[row + j]) == text::trimmed(
            #[trigger] expected[j],
        )
}

/// The number of characters of a line up to the end of the given content.
pub open spec fn content_end(line: Seq<char>, content: Seq<char>) -> Option<int> {
    match text::find_from(line, text::trimmed(content), 0) {
        Some(i) => Some(i + text::trimmed(content).len()),
        None => None,
    }
}

/// A line that equals some content but for white space holds the content.
pub proof fn lemma_content_end(line: Seq<char>, content: Seq<char>)
    requires
        text::trimmed(line) == text::trimmed(content),
    ensures
        match content_end(line, content) {
            Some(end) => text::trimmed(content).len() <= end <= line.len(),
            None => false,
        },
{
    text::lemma_trimmed_occurs(line);
    let i = choose|i: int| text::occurs_at(line, text::trimmed(line), i);
    text::lemma_find(line, text::trimmed(content), 0, i);
}

/// Whether the expected lines stand in `actual` from the given row on.
fn do_lines_match(actual: &Vec<Vec<char>>, row: usize, expected: &Vec<Vec<char>>) -> (r: bool)
    ensures
        r == lines_match(text::views(actual@), row as int, text::views(expected@)),
{
    let ghost have = text::views(actual@);
    let ghost want = text::views(expected@);
    let count: usize = actual.len();
    if row > count || expected.len() > count - row {
        return false;
    }
    let mut j: usize = 0;
    while j < expected.len()
        invariant
            j <= expected@.len(),
            row + expected@.len() <= count,
            count == actual@.len(),
            have == text::views(actual@),
            want == text::views(expected@),
            forall|i: int|
                0 <= i < j ==> text::trimmed(have[row + i]) == text::trimmed(#[trigger] want[i]),
        decreases expected@.len() - j,
    {
        if !text::same_chars(
            text::trim(actual[row + j].as_slice()),
            text::trim(expected[j].as_slice()),
        ) {
            assert(text::trimmed(have[row + j]) != text::trimmed(want[j as int]));
            return false;
        }
        j += 1;
    }
    true
}

/// The number of characters of a line up to the end of the content that it holds.
fn find_content_end(line: &[char], content: &[char]) -> (end: usize)
    requires
        text::trimmed(line@) == text::trimmed(content@),
    ensures
        content_end(line@, content@) == Some(end as int),
        end <= line@.len(),
{
    proof {
        lemma_content_end(line@, content@);
    }
    let wanted: &[char] = text::trim(content);
    assert(line.len() == line@.len());
    match text::find(line, wanted) {
        Some(i) => i + wanted.len(),
        None => 0,
    }
}

// ---------------------------------------------------------------------------
// Targets in a replacement text
// ---------------------------------------------------------------------------

/// The bytes of a text up to the end of the expected lines, when those stand in it from
/// the given row on.
pub open spec fn expected_end(
    rows: Seq<Seq<char>>,
    row: int,
    expected: Seq<Seq<char>>,
) -> Option<int> {
    if expected.len() > 0 && lines_match(rows, row, expected) {
        let last = row + expected.len() - 1;
        match content_end(rows[last], expected.last()) {
            Some(k) => Some(text::byte_len(snapshot::text_before(rows, last, k)) as int),
            None => None,
        }
    } else {
        None
    }
}

/// What `expected_end` gives for the first row, from the given one on, where it gives
/// something.
pub open spec fn first_expected_end(
    rows: Seq<Seq<char>>,
    row: int,
    expected: Seq<Seq<char>>,
) -> Option<int>
    decreases rows.len() - row,
{
    if row < 0 || row >= rows.len() {
        None
    } else {
        match expected_end(rows, row, expected) {
            Some(end) => Some(end),
            None => first_expected_end(rows, row + 1, expected),
        }
    }
}

/// The row of a target relative to the given one, when it does not stand above it.
pub open spec fn relative_row(target: CursorPredictionTarget, start_row: u32) -> Option<int> {
    if target.line_number_one_indexed - 1 >= start_row {
        Some(target.line_number_one_indexed - 1 - start_row)
    } else {
        None
    }
}

/// Where a target stands in a replacement text, in bytes: behind the expected content, at
/// the row that the target names or else at the first row where the content stands.
pub open spec fn target_offset(
    replacement_start_row: u32,
    replacement_text: Seq<char>,
    current_file_path: Seq<char>,
    target: CursorPredictionTarget,
) -> Option<int> {
    let expected = text::text_lines(target.expected_content@);
    let rows = text::rows(replacement_text);
    if target.relative_path@ != current_file_path || expected.len() == 0 {
        None
    } else {
        let named = match relative_row(target, replacement_start_row) {
            Some(row) => expected_end(rows, row, expected),
            None => None,
        };
        match named {
            Some(end) => Some(end),
            None => first_expected_end(rows, 0, expected),
        }
    }
}

/// A target stands inside the replacement text.
pub proof fn lemma_expected_end(rows: Seq<Seq<char>>, row: int, expected: Seq<Seq<char>>)
    requires
        lines_match(rows, row, expected),
        expected.len() > 0,
    ensures
        match expected_end(rows, row, expected) {
            Some(end) => 0 <= end <= text::byte_len(text::join(rows, seq!['\n'])),
            None => false,
        },
{
    let last = row + expected.len() - 1;
    assert(text::trimmed(rows[row + (expected.len() - 1)]) == text::trimmed(
        expected[expected.len() - 1],
    ));
    lemma_content_end(rows[last], expected.last());
    let k = content_end(rows[last], expected.last())->0;
    snapshot::lemma_before_bounds(rows, last, k);
}

/// The bytes of a text up to the end of the expected lines at the given row.
pub fn offset_of_expected_lines(
    replacement_lines: &Vec<Vec<char>>,
    relative_row: usize,
    expected_lines: &Vec<Vec<char>>,
) -> (r: Option<usize>)
    requires
        expected_lines@.len() > 0,
        text::byte_len(text::join(text::views(replacement_lines@), seq!['\n'])) <= usize::MAX,
    ensures
        match r {
            Some(end) => expected_end(
                text::views(replacement_lines@),
                relative_row as int,
                text::views(expected_lines@),
            ) == Some(end as int),
            None => expected_end(
                text::views(replacement_lines@),
                relative_row as int,
                text::views(expected_lines@),
            ) is None,
        },
{
    let ghost rows = text::views(replacement_lines@);
    let ghost expected = text::views(expected_lines@);
    if !do_lines_match(replacement_lines, relative_row, expected_lines) {
        return None;
    }
    proof {
        lemma_expected_end(rows, relative_row as int, expected);
        assert(text::trimmed(rows[relative_row + (expected.len() - 1)]) == text::trimmed(
            expected[expected.len() - 1],
        ));
    }
    assert(replacement_lines.len() == rows.len());
    let last: usize = relative_row + (expected_lines.len() - 1);
    let end: usize = find_content_end(
        replacement_lines[last].as_slice(),
        expected_lines[expected_lines.len() - 1].as_slice(),
    );
    Some(snapshot::bytes_before(replacement_lines, last, end))
}

/// Where a target stands in a replacement text, in bytes.
pub fn cursor_target_offset(
    replacement_start_row: u32,
    replacement_text: &str,
    current_file_path: &str,
    target: &CursorPredictionTarget,
) -> (r: Option<usize>)
    ensures
        match r {
            Some(offset) => target_offset(
                replacement_start_row,
                replacement_text@,
                current_file_path@,
                *target,
            ) == Some(offset as int),
            None => target_offset(
                replacement_start_row,
                replacement_text@,
                current_file_path@,
                *target,
            ) is None,
        },
{
    if !text::same_str(target.relative_path.as_str(), current_file_path) {
        return None;
    }
    let content: Vec<char> = text::chars_of(target.expected_content.as_str());
    let expected: Vec<Vec<char>> = text::split_lines(content.as_slice());
    if expected.len() == 0 {
        return None;
    }
    let chars: Vec<char> = text::chars_of(replacement_text);
    let lines: Vec<Vec<char>> = text::split_rows(chars.as_slice());
    proof {
        text::lemma_join_split(replacement_text@, seq!['\n']);
    }
    let ghost rows = text::rows(replacement_text@);
    let ghost wanted = text::text_lines(target.expected_content@);
    if target.line_number_one_indexed >= 1 && (target.line_number_one_indexed - 1) as u32
        >= replacement_start_row {
        let named: usize = ((target.line_number_one_indexed - 1) as u32
            - replacement_start_row) as usize;
        if let Some(offset) = offset_of_expected_lines(&lines, named, &expected) {
            return Some(offset);
        }
    }
    let mut row: usize = 0;
    while row < lines.len()
        invariant
            row <= lines@.len(),
            rows == text::views(lines@),
            wanted == text::views(expected@),
            wanted.len() > 0,
            text::byte_len(text::join(rows, seq!['\n'])) <= usize::MAX,
            target_offset(
                replacement_start_row,
                replacement_text@,
                current_file_path@,
                *target,
            ) == first_expected_end(rows, row as int, wanted),
        decreases lines@.len() - row,
    {
        if let Some(offset) = offset_of_expected_lines(&lines, row, &expected) {
            return Some(offset);
        }
        row += 1;
    }
    None
}

// ---------------------------------------------------------------------------
// Targets in the document
// ---------------------------------------------------------------------------

/// Whether the expected lines stand in a document from the given row on. The row that the
/// last of them is compared with is not empty.
pub open spec fn rows_match(rows: Seq<Seq<char>>, row: int, expected: Seq<Seq<char>>) -> bool {
    &&& expected.len() > 0
    &&& lines_match(rows, row, expected)
    &&& rows[row + expected.len() - 1].len() > 0
}

/// The position behind the expected lines that stand in a document from the given row on.
pub open spec fn match_end(rows: Seq<Seq<char>>, row: int, expected: Seq<Seq<char>>) -> Point {
    let last = row + expected.len() - 1;
    let k = content_end(rows[last], expected.last())->0;
    Point { row: last as u32, column: text::byte_len(rows[last].take(k)) as u32 }
}

/// The expected lines stand in a document from a row on exactly when they are matched by
/// the lines of the text of as many rows from there.
pub proof fn lemma_rows_match(rows: Seq<Seq<char>>, row: int, expected: Seq<Seq<char>>)
    requires
        snapshot::document_rows(rows),
        0 <= row,
        expected.len() > 0,
        row + expected.len() <= rows.len(),
    ensures
        ({
            let lines = text::text_lines(
                text::join(rows.subrange(row, row + expected.len()), seq!['\n']),
            );
            rows_match(rows, row, expected) <==> lines.len() >= expected.len() && forall|j: int|
                0 <= j < expected.len() ==> text::trimmed(lines[j]) == text::trimmed(
                    #[trigger] expected[j],
                )
        }),
{
    let sep = seq!['\n'];
    let n = expected.len() as int;
    let part = rows.subrange(row, row + n);
    let joined = text::join(part, sep);
    assert forall|j: int| 0 <= j < part.len() implies text::free_of(#[trigger] part[j], sep) by {
        assert(part[j] == rows[row + j]);
        assert forall|i: int| !text::occurs_at(part[j], sep, i) by {
            if text::occurs_at(part[j], sep, i) {
                assert(part[j].subrange(i, i + 1)[0] == '\n');
                assert(rows[row + j][i] == '\n');
            }
        }
    }
    text::lemma_split_join(part, sep);
    let lines = text::text_lines(joined);
    assert(text::rows(joined) == part);
    assert(part.last() == rows[row + n - 1]);
    assert forall|j: int| 0 <= j < lines.len() implies text::trimmed(#[trigger] lines[j])
        == text::trimmed(rows[row + j]) by {
        assert(part[j] == rows[row + j]);
        if j < n - 1 {
            assert(lines[j] == text::without_return(part[j]));
            if part[j].len() > 0 && part[j].last() == '\r' {
                text::lemma_trim_last(part[j]);
            }
        }
    }
    assert(part.last().len() > 0 <==> lines.len() >= n);
    if rows_match(rows, row, expected) {
        assert forall|j: int| 0 <= j < n implies text::trimmed(lines[j]) == text::trimmed(
            #[trigger] expected[j],
        ) by {
            assert(text::trimmed(rows[row + j]) == text::trimmed(expected[j]));
        }
    }
    if lines.len() >= n && (forall|j: int|
        0 <= j < n ==> text::trimmed(lines[j]) == text::trimmed(#[trigger] expected[j])) {
        assert forall|j: int| 0 <= j < n implies text::trimmed(rows[row + j]) == text::trimmed(
            #[trigger] expected[j],
        ) by {
            assert(text::trimmed(lines[j]) == text::trimmed(rows[row + j]));
        }
    }
}

/// Whether a byte column of a line stands right behind some content, trimmed, where that
/// stands first in the line.
pub open spec fn stands_behind(line: Seq<char>, column: int, content: Seq<char>) -> bool {
    let n = text::trimmed(content).len() as int;
    exists|k: int|
        {
            &&& n <= k <= line.len()
            &&& text::byte_len(#[trigger] line.take(k)) == column
            &&& line.subrange(k - n, k) == text::trimmed(content)
            &&& forall|j: int| n <= j < k ==> #[trigger] line.subrange(j - n, j) != text::trimmed(
                content,
            )
        }
}

proof fn lemma_first_content(line: Seq<char>, content: Seq<char>)
    requires
        text::trimmed(line) == text::trimmed(content),
    ensures
        content_end(line, content) is Some,
        stands_behind(
            line,
            text::byte_len(line.take(content_end(line, content)->0)) as int,
            content,
        ),
{
    let n = text::trimmed(content).len() as int;
    lemma_content_end(line, content);
    let k = content_end(line, content)->0;
    text::lemma_trimmed_occurs(line);
    let at = choose|i: int| text::occurs_at(line, text::trimmed(line), i);
    text::lemma_find(line, text::trimmed(content), 0, at);
    assert forall|j: int| n <= j < k implies #[trigger] line.subrange(j - n, j) != text::trimmed(
        content,
    ) by {
        if line.subrange(j - n, j) == text::trimmed(content) {
            assert(text::occurs_at(line, text::trimmed(content), j - n));
            text::lemma_find(line, text::trimmed(content), 0, j - n);
        }
    }
    assert(text::byte_len(line.take(k)) == text::byte_len(line.take(k)));
}

/// The position for expected lines that stand in a document from a row on lies on the last of
/// their rows, right behind the last of them.
pub proof fn lemma_match_end(rows: Seq<Seq<char>>, row: int, expected: Seq<Seq<char>>)
    requires
        snapshot::document_rows(rows),
        rows_match(rows, row, expected),
    ensures
        match_end(rows, row, expected).row == row + expected.len() - 1,
        stands_behind(
            rows[row + expected.len() - 1],
            match_end(rows, row, expected).column as int,
            expected.last(),
        ),
{
    let last = row + expected.len() - 1;
    let line = rows[last];
    assert(text::trimmed(rows[row + (expected.len() - 1)]) == text::trimmed(
        expected[expected.len() - 1],
    ));
    lemma_first_content(line, expected.last());
    lemma_content_end(line, expected.last());
    let k = content_end(line, expected.last())->0;
    assert(text::byte_len(rows[last]) <= u32::MAX);
    snapshot::lemma_take_bounds(line, k);
}

/// The position behind the expected lines, when they stand in the document from the given
/// row on.
pub fn snapshot_match_at_row(
    snapshot: &Snapshot,
    start_row: u32,
    expected_lines: &Vec<Vec<char>>,
) -> (r: Option<Point>)
    ensures
        match r {
            Some(point) => rows_match(
                snapshot@,
                start_row as int,
                text::views(expected_lines@),
            ) && point == match_end(snapshot@, start_row as int, text::views(expected_lines@)),
            None => !rows_match(snapshot@, start_row as int, text::views(expected_lines@)),
        },
        match r {
            Some(point) => {
                &&& point.row == start_row + expected_lines@.len() - 1
                &&& stands_behind(
                    snapshot@[start_row + expected_lines@.len() - 1],
                    point.column as int,
                    expected_lines@.last()@,
                )
            },
            None => true,
        },
{
    let ghost rows = snapshot@;
    let ghost expected = text::views(expected_lines@);
    let max_row: u32 = snapshot.max_row();
    let count: usize = expected_lines.len();
    if count == 0 || start_row > max_row || count - 1 > (max_row - start_row) as usize {
        return None;
    }
    let mut j: usize = 0;
    while j < count
        invariant
            j <= count == expected.len(),
            rows == snapshot@,
            snapshot::document_rows(rows),
            expected == text::views(expected_lines@),
            start_row + count <= rows.len(),
            count <= max_row + 1,
            max_row == rows.len() - 1,
            forall|i: int|
                0 <= i < j ==> text::trimmed(rows[start_row + i]) == text::trimmed(
                    #[trigger] expected[i],
                ),
        decreases count - j,
    {
        let line: &[char] = snapshot.line(start_row + j as u32);
        if !text::same_chars(text::trim(line), text::trim(expected_lines[j].as_slice())) {
            assert(text::trimmed(rows[start_row + j]) != text::trimmed(expected[j as int]));
            return None;
        }
        j += 1;
    }
    let last_row: u32 = start_row + (count - 1) as u32;
    let line: &[char] = snapshot.line(last_row);
    if line.len() == 0 {
        return None;
    }
    assert(text::trimmed(rows[start_row + (count - 1)]) == text::trimmed(expected[count - 1]));
    let end: usize = find_content_end(line, expected_lines[count - 1].as_slice());
    proof {
        assert(text::byte_len(rows[last_row as int]) <= u32::MAX);
        snapshot::lemma_take_bounds(line@, end as int);
        assert(line@.subrange(0, end as int) =~= line@.take(end as int));
    }
    let column: usize = text::chars_byte_len(slice_subrange(line, 0, end));
    proof {
        assert(rows_match(rows, start_row as int, expected));
        lemma_match_end(rows, start_row as int, expected);
    }
    Some(Point { row: last_row, column: column as u32 })
}

/// Whether edits replace something of a row.
pub open spec fn covers_row(edits: Seq<PreparedEdit>, row: int) -> bool {
    exists|i: int| 0 <= i < edits.len() && edit_covers_row(#[trigger] edits[i], row)
}

/// Whether an edit replaces something of a row.
pub open spec fn edit_covers_row(edit: PreparedEdit, row: int) -> bool {
    row >= edit.start.row && (row < edit.end.row || (row == edit.end.row && edit.end.column > 0))
}

/// Whether edits replace something of a row.
fn is_row_covered(edits: &Vec<PreparedEdit>, row: u32) -> (r: bool)
    ensures
        r == covers_row(edits@, row as int),
{
    let mut i: usize = 0;
    while i < edits.len()
        invariant
            i <= edits@.len(),
            forall|j: int| 0 <= j < i ==> !edit_covers_row(#[trigger] edits@[j], row as int),
        decreases edits@.len() - i,
    {
        let edit: &PreparedEdit = &edits[i];
        if row >= edit.start.row && (row < edit.end.row || (row == edit.end.row && edit.end.column
            > 0)) {
            assert(edit_covers_row(edits@[i as int], row as int));
            return true;
        }
        i += 1;
    }
    false
}

/// The distance between two rows.
pub open spec fn row_distance(a: int, b: int) -> int {
    if a >= b {
        a - b
    } else {
        b - a
    }
}

/// Whether a row can be the target: it is within reach of the named row, no edit touches
/// it, and the expected lines stand there.
pub open spec fn eligible_row(
    rows: Seq<Seq<char>>,
    edits: Seq<PreparedEdit>,
    expected: Seq<Seq<char>>,
    named: int,
    row: int,
) -> bool {
    &&& 0 <= row < rows.len()
    &&& row_distance(row, named) <= CURSOR_TARGET_SEARCH_RADIUS
    &&& !covers_row(edits, row)
    &&& rows_match(rows, row, expected)
}

/// Whether a row is the eligible one nearest to the named row, the upper one of two that
/// are equally near.
pub open spec fn nearest_row(
    rows: Seq<Seq<char>>,
    edits: Seq<PreparedEdit>,
    expected: Seq<Seq<char>>,
    named: int,
    row: int,
) -> bool {
    &&& eligible_row(rows, edits, expected, named, row)
    &&& forall|other: int| #[trigger]
        eligible_row(rows, edits, expected, named, other) ==> row_distance(row, named)
            < row_distance(other, named) || (row_distance(row, named) == row_distance(
            other,
            named,
        ) && row <= other)
}

/// Whether a target can be looked for in the given file.
pub open spec fn searchable(target: CursorPredictionTarget, current_file_path: Seq<char>) -> bool {
    &&& target.relative_path@ == current_file_path
    &&& target.line_number_one_indexed > 0
}

/// Whether a position is where a target stands in the document.
pub open spec fn target_in_rows(
    rows: Seq<Seq<char>>,
    edits: Seq<PreparedEdit>,
    current_file_path: Seq<char>,
    target: CursorPredictionTarget,
    found: Option<Point>,
) -> bool {
    let expected = text::text_lines(target.expected_content@);
    let named = target.line_number_one_indexed - 1;
    match found {
        Some(point) => {
            &&& searchable(target, current_file_path)
            &&& exists|row: int| #[trigger]
                nearest_row(rows, edits, expected, named, row) && point == match_end(
                    rows,
                    row,
                    expected,
                )
        },
        None => searchable(target, current_file_path) ==> forall|row: int|
            !#[trigger] eligible_row(rows, edits, expected, named, row),
    }
}

/// Where a target stands in the document, outside the rows that edits replace.
pub fn predicted_cursor_in_snapshot(
    snapshot: &Snapshot,
    current_file_path: &str,
    target: &CursorPredictionTarget,
    edits: &Vec<PreparedEdit>,
) -> (r: Option<Point>)
    ensures
        target_in_rows(snapshot@, edits@, current_file_path@, *target, r),
        r is Some ==> (r->0).row < snapshot@.len(),
{
    if !text::same_str(target.relative_path.as_str(), current_file_path)
        || target.line_number_one_indexed <= 0 {
        return None;
    }
    let content: Vec<char> = text::chars_of(target.expected_content.as_str());
    let expected_lines: Vec<Vec<char>> = text::split_lines(content.as_slice());
    let ghost rows = snapshot@;
    let ghost expected = text::text_lines(target.expected_content@);
    let max_row: u32 = snapshot.max_row();
    let target_row: u32 = (target.line_number_one_indexed - 1) as u32;
    let search_start: u32 = if target_row >= CURSOR_TARGET_SEARCH_RADIUS {
        target_row - CURSOR_TARGET_SEARCH_RADIUS
    } else {
        0
    };
    let search_end: u32 = if target_row + CURSOR_TARGET_SEARCH_RADIUS <= max_row {
        target_row + CURSOR_TARGET_SEARCH_RADIUS
    } else {
        max_row
    };
    let ghost named = target_row as int;
    let mut best: Option<(u32, u32, Point)> = None;
    let mut row: u64 = search_start as u64;
    while row <= search_end as u64
        invariant
            search_start <= row,
            row > search_end ==> row == search_end + 1 || row == search_start,
            search_end <= max_row,
            max_row == rows.len() - 1,
            rows == snapshot@,
            expected == text::views(expected_lines@),
            named == target_row,
            forall|other: int| #[trigger]
                eligible_row(rows, edits@, expected, named, other) ==> search_start <= other
                    <= search_end,
            match best {
                None => forall|other: int| #[trigger]
                    eligible_row(rows, edits@, expected, named, other) ==> other >= row,
                Some((distance, at, point)) => {
                    &&& eligible_row(rows, edits@, expected, named, at as int)
                    &&& at < row
                    &&& distance == row_distance(at as int, named)
                    &&& point == match_end(rows, at as int, expected)
                    &&& forall|other: int| #[trigger]
                        eligible_row(rows, edits@, expected, named, other) && other < row ==> {
                            ||| distance < row_distance(other, named)
                            ||| distance == row_distance(other, named) && at <= other
                        }
                },
            },
            search_start <= row <= search_end ==> row_distance(row as int, named)
                <= CURSOR_TARGET_SEARCH_RADIUS,
            search_start == if named >= CURSOR_TARGET_SEARCH_RADIUS {
                named - CURSOR_TARGET_SEARCH_RADIUS
            } else {
                0
            },
            search_end <= named + CURSOR_TARGET_SEARCH_RADIUS,
        decreases search_end + 1 - row,
    {
        let at: u32 = row as u32;
        if !is_row_covered(edits, at) {
            if let Some(point) = snapshot_match_at_row(snapshot, at, &expected_lines) {
                assert(eligible_row(rows, edits@, expected, named, at as int));
                let distance: u32 = if at >= target_row {
                    at - target_row
                } else {
                    target_row - at
                };
                let closer: bool = match best {
                    Some((nearest, _, _)) => distance < nearest,
                    None => true,
                };
                if closer {
                    best = Some((distance, at, point));
                }
            }
        }
        row += 1;
    }
    match best {
        Some((_, at, point)) => {
            assert(nearest_row(rows, edits@, expected, named, at as int));
            Some(point)
        },
        None => None,
    }
}

// ---------------------------------------------------------------------------
// The target of a stream
// ---------------------------------------------------------------------------

/// The target of the last edit that has one.
pub open spec fn last_target(edits: Seq<CursorTabCompletion>) -> Option<CursorPredictionTarget>
    decreases edits.len(),
{
    if edits.len() == 0 {
        None
    } else {
        match edits.last().cursor_prediction_target {
            Some(target) => Some(target),
            None => last_target(edits.drop_last()),
        }
    }
}

/// The last target is that of an edit behind which no edit has one; there is none when no
/// edit has one.
pub proof fn lemma_last_target(edits: Seq<CursorTabCompletion>, i: int)
    requires
        -1 <= i < edits.len(),
        forall|j: int|
            i < j < edits.len() ==> (#[trigger] edits[j]).cursor_prediction_target is None,
        i >= 0 ==> edits[i].cursor_prediction_target is Some,
    ensures
        last_target(edits) == if i >= 0 {
            edits[i].cursor_prediction_target
        } else {
            None
        },
    decreases edits.len(),
{
    if edits.len() > 0 {
        assert(edits.last() == edits[edits.len() - 1]);
        if i < edits.len() - 1 {
            assert(edits[edits.len() - 1].cursor_prediction_target is None);
            assert forall|j: int| i < j < edits.len() - 1 implies (
            #[trigger] edits.drop_last()[j]).cursor_prediction_target is None by {
                assert(edits[j].cursor_prediction_target is None);
            }
            lemma_last_target(edits.drop_last(), i);
        }
    }
}

/// The target of a stream: its own, or else that of the last edit that has one.
pub open spec fn stream_target(stream: CursorTabStream) -> Option<CursorPredictionTarget> {
    match stream.cursor_prediction_target {
        Some(target) => Some(target),
        None => last_target(stream.edits@),
    }
}

/// The target of a stream.
pub fn cursor_target_from_stream(stream: &CursorTabStream) -> (r: Option<&CursorPredictionTarget>)
    ensures
        match r {
            Some(target) => stream_target(*stream) == Some(*target),
            None => stream_target(*stream) is None,
        },
{
    if let Some(target) = &stream.cursor_prediction_target {
        return Some(target);
    }
    let mut i: usize = stream.edits.len();
    assert(stream.edits@.take(i as int) =~= stream.edits@);
    while i > 0
        invariant
            i <= stream.edits@.len(),
            stream_target(*stream) == last_target(stream.edits@.take(i as int)),
        decreases i,
    {
        i -= 1;
        assert(stream.edits@.take(i + 1).drop_last() =~= stream.edits@.take(i as int));
        if let Some(target) = &stream.edits[i].cursor_prediction_target {
            return Some(target);
        }
    }
    None
}

/// Where a target stands in the first edit, from the `i`-th on, whose text holds it.
pub open spec fn target_in_edits(
    edits: Seq<PreparedEdit>,
    i: int,
    current_file_path: Seq<char>,
    target: CursorPredictionTarget,
) -> Option<(PointUtf16, int)>
    decreases edits.len() - i,
{
    if i < 0 || i >= edits.len() {
        None
    } else {
        match target_offset(edits[i].start.row, edits[i].text@, current_file_path, target) {
            Some(offset) => Some((edits[i].start, offset)),
            None => target_in_edits(edits, i + 1, current_file_path, target),
        }
    }
}

/// Whether a predicted cursor is where a target stands: in the first edit that holds it,
/// or else in the document outside the edits.
pub open spec fn is_target_position(
    rows: Seq<Seq<char>>,
    edits: Seq<PreparedEdit>,
    current_file_path: Seq<char>,
    target: CursorPredictionTarget,
    found: Option<PredictedCursor>,
) -> bool {
    match target_in_edits(edits, 0, current_file_path, target) {
        Some((edit_start, bytes)) => match found {
            Some(PredictedCursor::InEdit { start, offset }) => start == edit_start && offset
                == bytes,
            _ => false,
        },
        None => match found {
            Some(PredictedCursor::InEdit { .. }) => false,
            Some(PredictedCursor::InSnapshot(point)) => target_in_rows(
                rows,
                edits,
                current_file_path,
                target,
                Some(point),
            ),
            None => target_in_rows(rows, edits, current_file_path, target, None),
        },
    }
}

/// Where a target stands, given the edits that are offered with it.
pub fn map_cursor_target(
    snapshot: &Snapshot,
    prepared_edits: &Vec<PreparedEdit>,
    current_file_path: &str,
    target: &CursorPredictionTarget,
) -> (r: Option<PredictedCursor>)
    ensures
        is_target_position(snapshot@, prepared_edits@, current_file_path@, *target, r),
{
    let mut i: usize = 0;
    while i < prepared_edits.len()
        invariant
            i <= prepared_edits@.len(),
            target_in_edits(prepared_edits@, 0, current_file_path@, *target) == target_in_edits(
                prepared_edits@,
                i as int,
                current_file_path@,
                *target,
            ),
        decreases prepared_edits@.len() - i,
    {
        let edit: &PreparedEdit = &prepared_edits[i];
        if let Some(offset) = cursor_target_offset(
            edit.start.row,
            edit.text.as_str(),
            current_file_path,
            target,
        ) {
            return Some(PredictedCursor::InEdit { start: edit.start, offset });
        }
        i += 1;
    }
    match predicted_cursor_in_snapshot(snapshot, current_file_path, target, prepared_edits) {
        Some(point) => Some(PredictedCursor::InSnapshot(point)),
        None => None,
    }
}

// ---------------------------------------------------------------------------
// Where a predicted cursor is
// ---------------------------------------------------------------------------

/// Whether lines are, but for white space at their ends, the rows from the given one on.
pub open spec fn stand_at(rows: Seq<Seq<char>>, row: int, lines: Seq<Seq<char>>) -> bool {
    &&& lines.len() > 0
    &&& 0 <= row
    &&& row + lines.len() <= rows.len()
    &&& forall|j: int|
        0 <= j < lines.len() ==> text::trimmed(rows[row + j]) == text::trimmed(#[trigger] lines[j])
}

/// Whether lines stand in a document from a row on that is at most 32 rows away from the
/// named one and is not inside the range of an edit, and the last of their rows is not empty.
pub open spec fn open_row(
    rows: Seq<Seq<char>>,
    edits: Seq<PreparedEdit>,
    lines: Seq<Seq<char>>,
    named: int,
    row: int,
) -> bool {
    &&& stand_at(rows, row, lines)
    &&& rows[row + lines.len() - 1].len() > 0
    &&& named - 32 <= row <= named + 32
    &&& forall|i: int|
        0 <= i < edits.len() ==> {
            let edit = #[trigger] edits[i];
            row < edit.start.row || edit.end.row < row || (edit.end.row == row && edit.end.column
                == 0)
        }
}

/// A target that is found in the document stands where its expected lines stand, nearest to
/// the row that it names and outside the edits, and the position is right behind the last of
/// those lines.
pub proof fn lemma_target_found(
    rows: Seq<Seq<char>>,
    edits: Seq<PreparedEdit>,
    current_file_path: Seq<char>,
    target: CursorPredictionTarget,
    point: Point,
)
    requires
        snapshot::document_rows(rows),
        target_in_rows(rows, edits, current_file_path, target, Some(point)),
    ensures
        target.relative_path@ == current_file_path,
        target.line_number_one_indexed >= 1,
        ({
            let lines = text::text_lines(target.expected_content@);
            let named = target.line_number_one_indexed - 1;
            let first = point.row - lines.len() + 1;
            &&& open_row(rows, edits, lines, named, first)
            &&& stands_behind(rows[point.row as int], point.column as int, lines.last())
            &&& forall|other: int| #[trigger]
                open_row(rows, edits, lines, named, other) ==> {
                    let near = if first < named {
                        named - first
                    } else {
                        first - named
                    };
                    &&& other <= named - near || named + near <= other
                    &&& other == named + near ==> first == other || first == named - near
                    &&& other == named - near ==> first == other
                }
        }),
{
    let lines = text::text_lines(target.expected_content@);
    let named = target.line_number_one_indexed - 1;
    let row = choose|row: int| #[trigger]
        nearest_row(rows, edits, lines, named, row) && point == match_end(rows, row, lines);
    lemma_match_end(rows, row, lines);
    lemma_eligible(rows, edits, lines, named, row);
    assert forall|other: int| #[trigger] open_row(
        rows,
        edits,
        lines,
        named,
        other,
    ) implies eligible_row(rows, edits, lines, named, other) by {
        lemma_eligible(rows, edits, lines, named, other);
    }
}

proof fn lemma_eligible(
    rows: Seq<Seq<char>>,
    edits: Seq<PreparedEdit>,
    lines: Seq<Seq<char>>,
    named: int,
    row: int,
)
    ensures
        eligible_row(rows, edits, lines, named, row) <==> open_row(rows, edits, lines, named, row),
{
    if eligible_row(rows, edits, lines, named, row) {
        assert forall|i: int| 0 <= i < edits.len() implies {
            let edit = #[trigger] edits[i];
            row < edit.start.row || edit.end.row < row || (edit.end.row == row && edit.end.column
                == 0)
        } by {
            assert(!edit_covers_row(edits[i], row));
        }
    }
}

/// A target of the current file that is not found stands nowhere near the row that it names.
pub proof fn lemma_target_not_found(
    rows: Seq<Seq<char>>,
    edits: Seq<PreparedEdit>,
    current_file_path: Seq<char>,
    target: CursorPredictionTarget,
    row: int,
)
    requires
        target_in_rows(rows, edits, current_file_path, target, None),
        target.relative_path@ == current_file_path,
        target.line_number_one_indexed >= 1,
    ensures
        !open_row(
            rows,
            edits,
            text::text_lines(target.expected_content@),
            target.line_number_one_indexed - 1,
            row,
        ),
{
    lemma_eligible(
        rows,
        edits,
        text::text_lines(target.expected_content@),
        target.line_number_one_indexed - 1,
        row,
    );
}

/// Whether the first `m` characters of a text end right behind lines that stand in it from
/// the given row on.
pub open spec fn ends_behind_lines(
    given: Seq<char>,
    row: int,
    lines: Seq<Seq<char>>,
    m: int,
) -> bool {
    let n = text::trimmed(lines.last()).len() as int;
    &&& stand_at(text::rows(given), row, lines)
    &&& n <= m <= given.len()
    &&& text::rows(given.take(m)).len() == row + lines.len()
    &&& given.subrange(m - n, m) == text::trimmed(lines.last())
}

/// A target that is found in a replacement text stands right behind its expected lines: at
/// the row that it names, when they stand there, and else where they stand first.
pub proof fn lemma_offset_found(
    replacement_start_row: u32,
    replacement_text: Seq<char>,
    current_file_path: Seq<char>,
    target: CursorPredictionTarget,
    offset: int,
)
    requires
        target_offset(replacement_start_row, replacement_text, current_file_path, target) == Some(
            offset,
        ),
    ensures
        target.relative_path@ == current_file_path,
        ({
            let lines = text::text_lines(target.expected_content@);
            let rows = text::rows(replacement_text);
            let named = target.line_number_one_indexed - 1 - replacement_start_row;
            exists|row: int, m: int|
                {
                    &&& #[trigger] ends_behind_lines(replacement_text, row, lines, m)
                    &&& offset == text::byte_len(replacement_text.take(m))
                    &&& stand_at(rows, named, lines) ==> row == named
                    &&& !stand_at(rows, named, lines) ==> forall|other: int|
                        other < row ==> !#[trigger] stand_at(rows, other, lines)
                }
        }),
{
    let lines = text::text_lines(target.expected_content@);
    let rows = text::rows(replacement_text);
    let named = target.line_number_one_indexed - 1 - replacement_start_row;
    let row = if stand_at(rows, named, lines) {
        lemma_expected_end(rows, named, lines);
        named
    } else {
        lemma_first_expected(rows, 0, lines);
        choose|row: int|
            {
                &&& #[trigger] stand_at(rows, row, lines)
                &&& expected_end(rows, row, lines) == Some(offset)
                &&& forall|other: int| 0 <= other < row ==> !#[trigger] stand_at(rows, other, lines)
            }
    };
    lemma_behind_lines(replacement_text, row, lines);
    let m = choose|m: int|
        {
            &&& #[trigger] ends_behind_lines(replacement_text, row, lines, m)
            &&& expected_end(rows, row, lines) == Some(
                text::byte_len(replacement_text.take(m)) as int,
            )
        };
    assert(ends_behind_lines(replacement_text, row, lines, m));
}

proof fn lemma_first_expected(rows: Seq<Seq<char>>, from: int, lines: Seq<Seq<char>>)
    requires
        0 <= from,
        lines.len() > 0,
    ensures
        match first_expected_end(rows, from, lines) {
            Some(end) => exists|row: int|
                {
                    &&& #[trigger] stand_at(rows, row, lines)
                    &&& from <= row
                    &&& expected_end(rows, row, lines) == Some(end)
                    &&& forall|other: int|
                        from <= other < row ==> !#[trigger] stand_at(rows, other, lines)
                },
            None => forall|other: int| from <= other ==> !#[trigger] stand_at(rows, other, lines),
        },
    decreases rows.len() - from,
{
    if from < rows.len() {
        if stand_at(rows, from, lines) {
            lemma_expected_end(rows, from, lines);
            assert(stand_at(rows, from, lines));
        } else {
            assert(!lines_match(rows, from, lines));
            lemma_first_expected(rows, from + 1, lines);
            if let Some(end) = first_expected_end(rows, from + 1, lines) {
                let row = choose|row: int|
                    {
                        &&& #[trigger] stand_at(rows, row, lines)
                        &&& from + 1 <= row
                        &&& expected_end(rows, row, lines) == Some(end)
                        &&& forall|other: int|
                            from + 1 <= other < row ==> !#[trigger] stand_at(rows, other, lines)
                    };
                assert(stand_at(rows, row, lines));
            }
        }
    }
}

proof fn lemma_behind_lines(given: Seq<char>, row: int, lines: Seq<Seq<char>>)
    requires
        stand_at(text::rows(given), row, lines),
    ensures
        exists|m: int|
            {
                &&& #[trigger] ends_behind_lines(given, row, lines, m)
                &&& expected_end(text::rows(given), row, lines) == Some(
                    text::byte_len(given.take(m)) as int,
                )
            },
{
    let sep = seq!['\n'];
    let rows = text::rows(given);
    let last = row + lines.len() - 1;
    let line = rows[last];
    let content = text::trimmed(lines.last());
    let n = content.len() as int;
    text::lemma_join_split(given, sep);
    text::lemma_split_free(given, sep);
    assert(text::trimmed(rows[row + (lines.len() - 1)]) == text::trimmed(lines[lines.len() - 1]));
    lemma_content_end(line, lines.last());
    text::lemma_trimmed_occurs(line);
    let at = choose|i: int| text::occurs_at(line, text::trimmed(line), i);
    text::lemma_find(line, content, 0, at);
    let k = content_end(line, lines.last())->0;
    assert(line.subrange(k - n, k) == content);
    let front = snapshot::text_before(rows, last, k);
    let m = front.len() as int;
    snapshot::lemma_before_bounds(rows, last, k);
    assert(given.take(m) == front);
    snapshot::lemma_text_before(rows, last, k);
    let start = snapshot::text_before(rows, last, 0);
    assert(front =~= start + line.take(k));
    assert(given.subrange(m - n, m) =~= given.take(m).subrange(m - n, m));
    assert(front.subrange(m - n, m) =~= line.take(k).subrange(k - n, k));
    assert(line.take(k).subrange(k - n, k) =~= line.subrange(k - n, k));
    let pieces = rows.take(last).push(line.take(k));
    assert forall|j: int| 0 <= j < pieces.len() implies text::free_of(#[trigger] pieces[j], sep) by {
        if j < last {
            assert(pieces[j] == rows[j]);
        } else {
            assert(text::free_of(rows[last], sep));
            assert forall|i: int| !text::occurs_at(pieces[j], sep, i) by {
                if text::occurs_at(pieces[j], sep, i) {
                    assert(pieces[j].subrange(i, i + 1) =~= line.subrange(i, i + 1));
                    assert(text::occurs_at(line, sep, i));
                }
            }
        }
    }
    text::lemma_split_join(pieces, sep);
    assert(ends_behind_lines(given, row, lines, m));
}

/// A target that is not found in a replacement text is one of another file, expects nothing,
/// or expects lines that stand nowhere in the text.
pub proof fn lemma_offset_not_found(
    replacement_start_row: u32,
    replacement_text: Seq<char>,
    current_file_path: Seq<char>,
    target: CursorPredictionTarget,
    row: int,
)
    requires
        target_offset(replacement_start_row, replacement_text, current_file_path, target) is None,
        target.relative_path@ == current_file_path,
    ensures
        !stand_at(
            text::rows(replacement_text),
            row,
            text::text_lines(target.expected_content@),
        ),
{
    let lines = text::text_lines(target.expected_content@);
    if lines.len() > 0 {
        lemma_first_expected(text::rows(replacement_text), 0, lines);
    }
}

/// A predicted cursor inside an edit is where the target stands in that edit's text, and in no
/// edit in front of it. One in the document is where the target stands outside the edits, and
/// then it stands in no edit.
pub proof fn lemma_target_position(
    rows: Seq<Seq<char>>,
    edits: Seq<PreparedEdit>,
    current_file_path: Seq<char>,
    target: CursorPredictionTarget,
    found: Option<PredictedCursor>,
)
    requires
        is_target_position(rows, edits, current_file_path, target, found),
    ensures
        match found {
            Some(PredictedCursor::InEdit { start, offset }) => exists|i: int|
                {
                    &&& 0 <= i < edits.len()
                    &&& (#[trigger] edits[i]).start == start
                    &&& target_offset(
                        edits[i].start.row,
                        edits[i].text@,
                        current_file_path,
                        target,
                    ) == Some(offset as int)
                    &&& forall|j: int|
                        0 <= j < i ==> target_offset(
                            (#[trigger] edits[j]).start.row,
                            edits[j].text@,
                            current_file_path,
                            target,
                        ) is None
                },
            Some(PredictedCursor::InSnapshot(point)) => {
                &&& target_in_rows(rows, edits, current_file_path, target, Some(point))
                &&& forall|j: int|
                    0 <= j < edits.len() ==> target_offset(
                        (#[trigger] edits[j]).start.row,
                        edits[j].text@,
                        current_file_path,
                        target,
                    ) is None
            },
            None => {
                &&& target_in_rows(rows, edits, current_file_path, target, None)
                &&& forall|j: int|
                    0 <= j < edits.len() ==> target_offset(
                        (#[trigger] edits[j]).start.row,
                        edits[j].text@,
                        current_file_path,
                        target,
                    ) is None
            },
        },
{
    lemma_target_in_edits(edits, 0, current_file_path, target);
}

proof fn lemma_target_in_edits(
    edits: Seq<PreparedEdit>,
    from: int,
    current_file_path: Seq<char>,
    target: CursorPredictionTarget,
)
    requires
        0 <= from,
    ensures
        match target_in_edits(edits, from, current_file_path, target) {
            Some((start, offset)) => exists|i: int|
                {
                    &&& from <= i < edits.len()
                    &&& (#[trigger] edits[i]).start == start
                    &&& target_offset(
                        edits[i].start.row,
                        edits[i].text@,
                        current_file_path,
                        target,
                    ) == Some(offset)
                    &&& forall|j: int|
                        from <= j < i ==> target_offset(
                            (#[trigger] edits[j]).start.row,
                            edits[j].text@,
                            current_file_path,
                            target,
                        ) is None
                },
            None => forall|j: int|
                from <= j < edits.len() ==> target_offset(
                    (#[trigger] edits[j]).start.row,
                    edits[j].text@,
                    current_file_path,
                    target,
                ) is None,
        },
    decreases edits.len() - from,
{
    if from < edits.len() {
        lemma_target_in_edits(edits, from + 1, current_file_path, target);
        let here = target_offset(
            edits[from].start.row,
            edits[from].text@,
            current_file_path,
            target,
        );
        if here is None {
            if let Some((start, offset)) = target_in_edits(
                edits,
                from + 1,
                current_file_path,
                target,
            ) {
                let i = choose|i: int|
                    {
                        &&& from + 1 <= i < edits.len()
                        &&& (#[trigger] edits[i]).start == start
                        &&& target_offset(
                            edits[i].start.row,
                            edits[i].text@,
                            current_file_path,
                            target,
                        ) == Some(offset)
                        &&& forall|j: int|
                            from + 1 <= j < i ==> target_offset(
                                (#[trigger] edits[j]).start.row,
                                edits[j].text@,
                                current_file_path,
                                target,
                            ) is None
                    };
                assert(edits[i].start == start);
            }
        }
    }
}

} // verus!
