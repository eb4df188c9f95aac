//! Documents as rows of characters, with positions in UTF-16 code units and in bytes.

use crate::text;
use vstd::prelude::*;
use vstd::slice::slice_subrange;
use vstd::utf8::*;

verus! {

/// A position by row and by UTF-16 code units in the row.
#[derive(Clone, Copy, Debug, Default, PartialEq, Eq, Structural)]
pub struct PointUtf16 {
    pub row: u32,
    pub column: u32,
}

/// A position by row and by bytes in the row.
#[derive(Clone, Copy, Debug, Default, PartialEq, Eq, Structural)]
pub struct Point {
    pub row: u32,
    pub column: u32,
}

/// To which side a position inside a character is moved.
#[derive(Clone, Copy, Debug, PartialEq, Eq, Structural)]
pub enum Bias {
    Left,
    Right,
}

impl PointUtf16 {
    /// The position at the given row and column.
    pub fn new(row: u32, column: u32) -> (point: Self)
        ensures
            point.row == row,
            point.column == column,
    {
        PointUtf16 { row, column }
    }
}

impl Point {
    /// The position at the given row and column.
    pub fn new(row: u32, column: u32) -> (point: Self)
        ensures
            point.row == row,
            point.column == column,
    {
        Point { row, column }
    }
}

// ---------------------------------------------------------------------------
// Positions
// ---------------------------------------------------------------------------

/// Whether one position is not behind another.
pub open spec fn not_behind(a: PointUtf16, b: PointUtf16) -> bool {
    a.row < b.row || (a.row == b.row && a.column <= b.column)
}

/// Whether one position is not behind another.
pub fn is_not_behind(a: PointUtf16, b: PointUtf16) -> (r: bool)
    ensures
        r == not_behind(a, b),
{
    a.row < b.row || (a.row == b.row && a.column <= b.column)
}

/// The number of characters, from the `k`-th on, that end within the given UTF-16 units.
pub open spec fn units_index_from(line: Seq<char>, k: int, units: int) -> int
    decreases line.len() - k,
{
    if 0 <= k < line.len() && text::utf16_len(line.take(k + 1)) <= units {
        units_index_from(line, k + 1, units)
    } else {
        k
    }
}

/// The number of characters of a line that end within the given UTF-16 units.
pub open spec fn units_index(line: Seq<char>, units: int) -> int {
    units_index_from(line, 0, units)
}

/// The number of characters, from the `k`-th on, that end within the given bytes.
pub open spec fn bytes_index_from(line: Seq<char>, k: int, bytes: int) -> int
    decreases line.len() - k,
{
    if 0 <= k < line.len() && text::byte_len(line.take(k + 1)) <= bytes {
        bytes_index_from(line, k + 1, bytes)
    } else {
        k
    }
}

/// The number of characters of a line that end within the given bytes.
pub open spec fn bytes_index(line: Seq<char>, bytes: int) -> int {
    bytes_index_from(line, 0, bytes)
}

/// The UTF-16 column in front of the `k`-th character of a line.
pub open spec fn units_column(line: Seq<char>, k: int) -> int {
    text::utf16_len(line.take(k)) as int
}

/// Whether rows make up a document whose positions can be counted.
pub open spec fn document_rows(rows: Seq<Seq<char>>) -> bool {
    &&& 1 <= rows.len() <= u32::MAX + 1
    &&& forall|i: int|
        0 <= i < rows.len() ==> text::byte_len(#[trigger] rows[i]) <= u32::MAX
            && !rows[i].contains('\n')
    &&& text::byte_len(text::join(rows, seq!['\n'])) <= usize::MAX
}

/// The position behind the last character.
pub open spec fn end_point(rows: Seq<Seq<char>>) -> PointUtf16 {
    PointUtf16 {
        row: (rows.len() - 1) as u32,
        column: text::utf16_len(rows.last()) as u32,
    }
}

/// Whether a position stands in front of a character or at the end of a row.
pub open spec fn valid_point(rows: Seq<Seq<char>>, point: PointUtf16) -> bool {
    &&& point.row < rows.len()
    &&& units_column(
        rows[point.row as int],
        units_index(rows[point.row as int], point.column as int),
    ) == point.column
}

/// The valid position nearest to a given one: behind the document it is the document's
/// end, behind a row the row's end, and inside a character the side that `bias` names.
pub open spec fn clipped(rows: Seq<Seq<char>>, point: PointUtf16, bias: Bias) -> PointUtf16 {
    if point.row >= rows.len() {
        end_point(rows)
    } else {
        let line = rows[point.row as int];
        let k = units_index(line, point.column as int);
        let inside = k < line.len() && units_column(line, k) < point.column;
        let column = if inside && bias == Bias::Right {
            units_column(line, k + 1)
        } else {
            units_column(line, k)
        };
        PointUtf16 { row: point.row, column: column as u32 }
    }
}

/// The text in front of the `k`-th character of a row.
pub open spec fn text_before(rows: Seq<Seq<char>>, row: int, k: int) -> Seq<char> {
    text::join(rows.take(row).push(rows[row].take(k)), seq!['\n'])
}

/// The text in front of a position.
pub open spec fn before_point(rows: Seq<Seq<char>>, point: PointUtf16) -> Seq<char> {
    text_before(
        rows,
        point.row as int,
        units_index(rows[point.row as int], point.column as int),
    )
}

/// The text between two positions.
pub open spec fn text_between(
    rows: Seq<Seq<char>>,
    start: PointUtf16,
    end: PointUtf16,
) -> Seq<char> {
    before_point(rows, end).skip(before_point(rows, start).len() as int)
}

/// The number of bytes in front of a position.
pub open spec fn offset_of(rows: Seq<Seq<char>>, point: PointUtf16) -> int {
    text::byte_len(before_point(rows, point)) as int
}

/// The number of bytes in front of a row.
pub open spec fn row_start(rows: Seq<Seq<char>>, row: int) -> int {
    text::byte_len(text_before(rows, row, 0)) as int
}

/// The last row, from the given one on, that starts at the given offset or before it.
pub open spec fn row_at_from(rows: Seq<Seq<char>>, row: int, offset: int) -> int
    decreases rows.len() - row,
{
    if 0 <= row && row + 1 < rows.len() && row_start(rows, row + 1) <= offset {
        row_at_from(rows, row + 1, offset)
    } else {
        row
    }
}

/// The row that holds the byte at the given offset.
pub open spec fn row_at(rows: Seq<Seq<char>>, offset: int) -> int {
    row_at_from(rows, 0, offset)
}

/// The last position at the given offset or before it.
pub open spec fn point_at(rows: Seq<Seq<char>>, offset: int) -> PointUtf16 {
    let row = row_at(rows, offset);
    let k = bytes_index(rows[row], offset - row_start(rows, row));
    PointUtf16 { row: row as u32, column: units_column(rows[row], k) as u32 }
}

/// The last UTF-16 position at the given byte position or before it in its row.
pub open spec fn utf16_point(rows: Seq<Seq<char>>, point: Point) -> PointUtf16 {
    let line = rows[point.row as int];
    PointUtf16 {
        row: point.row,
        column: units_column(line, bytes_index(line, point.column as int)) as u32,
    }
}

// ---------------------------------------------------------------------------
// Facts about positions
// ---------------------------------------------------------------------------

/// One character more adds its units and its bytes.
pub proof fn lemma_take_step(line: Seq<char>, k: int)
    requires
        0 <= k < line.len(),
    ensures
        text::utf16_len(line.take(k + 1)) == text::utf16_len(line.take(k)) + text::utf16_units(
            line[k],
        ),
        text::byte_len(line.take(k + 1)) == text::byte_len(line.take(k)) + encode_scalar(
            line[k] as u32,
        ).len(),
{
    assert(line.take(k + 1).drop_last() =~= line.take(k));
    assert(line.take(k + 1) =~= line.take(k).push(line[k]));
    text::lemma_byte_len_push(line.take(k), line[k]);
}

/// A longer prefix has more units and more bytes.
pub proof fn lemma_take_monotone(line: Seq<char>, i: int, j: int)
    requires
        0 <= i <= j <= line.len(),
    ensures
        text::utf16_len(line.take(i)) + (j - i) <= text::utf16_len(line.take(j)),
        text::byte_len(line.take(i)) + (j - i) <= text::byte_len(line.take(j)),
    decreases j - i,
{
    if i < j {
        lemma_take_monotone(line, i, j - 1);
        lemma_take_step(line, j - 1);
    }
}

/// A prefix of a line has at most the line's units and bytes.
pub proof fn lemma_take_bounds(line: Seq<char>, k: int)
    requires
        0 <= k <= line.len(),
    ensures
        text::utf16_len(line.take(k)) <= text::utf16_len(line),
        text::byte_len(line.take(k)) <= text::byte_len(line),
        text::utf16_len(line) <= text::byte_len(line),
{
    lemma_take_monotone(line, k, line.len() as int);
    assert(line.take(line.len() as int) =~= line);
    text::lemma_byte_len_bounds(line);
}

/// The index for a number of units is the last one in front of which no more stand.
pub proof fn lemma_units_index(line: Seq<char>, units: int)
    requires
        0 <= units,
    ensures
        0 <= units_index(line, units) <= line.len(),
        units_column(line, units_index(line, units)) <= units,
        units_index(line, units) < line.len() ==> units < units_column(
            line,
            units_index(line, units) + 1,
        ),
{
    assert(line.take(0) =~= Seq::<char>::empty());
    lemma_units_index_from(line, 0, units);
}

proof fn lemma_units_index_from(line: Seq<char>, k: int, units: int)
    requires
        0 <= k <= line.len(),
        units_column(line, k) <= units,
    ensures
        ({
            let n = units_index_from(line, k, units);
            &&& k <= n <= line.len()
            &&& units_column(line, n) <= units
            &&& n < line.len() ==> units < units_column(line, n + 1)
        }),
    decreases line.len() - k,
{
    if k < line.len() && text::utf16_len(line.take(k + 1)) <= units {
        lemma_units_index_from(line, k + 1, units);
    }
}

/// The index for a number of bytes is the last one in front of which no more stand.
pub proof fn lemma_bytes_index(line: Seq<char>, bytes: int)
    requires
        0 <= bytes,
    ensures
        0 <= bytes_index(line, bytes) <= line.len(),
        text::byte_len(line.take(bytes_index(line, bytes))) <= bytes,
        bytes_index(line, bytes) < line.len() ==> bytes < text::byte_len(
            line.take(bytes_index(line, bytes) + 1),
        ),
{
    assert(line.take(0) =~= Seq::<char>::empty());
    lemma_bytes_index_from(line, 0, bytes);
}

proof fn lemma_bytes_index_from(line: Seq<char>, k: int, bytes: int)
    requires
        0 <= k <= line.len(),
        text::byte_len(line.take(k)) <= bytes,
    ensures
        ({
            let n = bytes_index_from(line, k, bytes);
            &&& k <= n <= line.len()
            &&& text::byte_len(line.take(n)) <= bytes
            &&& n < line.len() ==> bytes < text::byte_len(line.take(n + 1))
        }),
    decreases line.len() - k,
{
    if k < line.len() && text::byte_len(line.take(k + 1)) <= bytes {
        lemma_bytes_index_from(line, k + 1, bytes);
    }
}

/// The index for the column in front of a character is the character's own.
pub proof fn lemma_column_index(line: Seq<char>, k: int)
    requires
        0 <= k <= line.len(),
    ensures
        units_index(line, units_column(line, k)) == k,
        bytes_index(line, text::byte_len(line.take(k)) as int) == k,
{
    let units = units_column(line, k);
    lemma_units_index(line, units);
    let n = units_index(line, units);
    if n < k {
        lemma_take_monotone(line, n + 1, k);
    } else if n > k {
        lemma_take_monotone(line, k, n);
    }
    let bytes = text::byte_len(line.take(k)) as int;
    lemma_bytes_index(line, bytes);
    let m = bytes_index(line, bytes);
    if m < k {
        lemma_take_monotone(line, m + 1, k);
    } else if m > k {
        lemma_take_monotone(line, k, m);
    }
}

/// A larger number of units does not lead to a smaller index.
pub proof fn lemma_units_index_monotone(line: Seq<char>, a: int, b: int)
    requires
        0 <= a <= b,
    ensures
        units_index(line, a) <= units_index(line, b),
{
    lemma_units_index(line, a);
    lemma_units_index(line, b);
    if units_index(line, b) < units_index(line, a) {
        lemma_take_monotone(line, units_index(line, b) + 1, units_index(line, a));
    }
}

/// The rows of a document's text are the document's rows.
pub proof fn lemma_rows_of_text(rows: Seq<Seq<char>>)
    requires
        document_rows(rows),
    ensures
        text::rows(text::join(rows, seq!['\n'])) == rows,
{
    let sep = seq!['\n'];
    assert forall|j: int| 0 <= j < rows.len() implies text::free_of(#[trigger] rows[j], sep) by {
        assert forall|i: int| !text::occurs_at(rows[j], sep, i) by {
            if text::occurs_at(rows[j], sep, i) {
                assert(rows[j].subrange(i, i + 1)[0] == '\n');
                assert(rows[j][i] == '\n');
            }
        }
    }
    text::lemma_split_join(rows, sep);
}

/// A line feed takes one byte.
pub proof fn lemma_line_feed()
    ensures
        text::byte_len(seq!['\n']) == 1,
{
    text::lemma_byte_len_push(Seq::<char>::empty(), '\n');
    assert(Seq::<char>::empty().push('\n') =~= seq!['\n']);
}

/// The text in front of a character is the text in front of its row and that in the row.
pub proof fn lemma_text_before(rows: Seq<Seq<char>>, row: int, k: int)
    requires
        0 <= row < rows.len(),
        0 <= k <= rows[row].len(),
    ensures
        text_before(rows, row, k) == text_before(rows, row, 0) + rows[row].take(k),
        row == 0 ==> text_before(rows, row, 0) == Seq::<char>::empty(),
        row > 0 ==> text_before(rows, row, 0) == text::join(rows.take(row), seq!['\n']) + seq![
            '\n',
        ],
{
    let sep = seq!['\n'];
    let head = rows.take(row);
    text::lemma_join_push(head, rows[row].take(k), sep);
    text::lemma_join_push(head, rows[row].take(0), sep);
    assert(rows[row].take(0) =~= Seq::<char>::empty());
    if row == 0 {
        assert(Seq::<char>::empty() + rows[row].take(k) =~= rows[row].take(k));
    } else {
        let start = text::join(head, sep) + sep;
        assert(start + Seq::<char>::empty() =~= start);
    }
}

/// The text in front of a row ends with the preceding row and a line feed.
pub proof fn lemma_next_row(rows: Seq<Seq<char>>, row: int)
    requires
        0 <= row,
        row + 1 < rows.len(),
    ensures
        text_before(rows, row + 1, 0) == text_before(rows, row, 0) + rows[row] + seq!['\n'],
        row_start(rows, row + 1) == row_start(rows, row) + text::byte_len(rows[row]) + 1,
{
    let full = rows[row].len() as int;
    lemma_text_before(rows, row, full);
    lemma_text_before(rows, row + 1, 0);
    assert(rows[row].take(full) =~= rows[row]);
    assert(rows.take(row).push(rows[row]) =~= rows.take(row + 1));
    lemma_line_feed();
    text::lemma_encode_concat(text_before(rows, row, 0), rows[row]);
    text::lemma_encode_concat(text_before(rows, row, 0) + rows[row], seq!['\n']);
}

/// The text in front of the document's end is the whole text.
pub proof fn lemma_text_before_end(rows: Seq<Seq<char>>)
    requires
        rows.len() > 0,
    ensures
        text_before(rows, rows.len() - 1, rows.last().len() as int) == text::join(
            rows,
            seq!['\n'],
        ),
{
    assert(rows.last().take(rows.last().len() as int) =~= rows.last());
    assert(rows.take(rows.len() - 1).push(rows.last()) =~= rows);
}

proof fn lemma_prefix_transitive(a: Seq<char>, b: Seq<char>, c: Seq<char>)
    requires
        text::has_prefix(b, a),
        text::has_prefix(c, b),
    ensures
        text::has_prefix(c, a),
{
    assert(c.take(a.len() as int) =~= c.take(b.len() as int).take(a.len() as int));
}

proof fn lemma_prefix_of_sum(a: Seq<char>, b: Seq<char>)
    ensures
        text::has_prefix(a + b, a),
{
    assert((a + b).take(a.len() as int) =~= a);
}

/// The text in front of a position begins with the text in front of any earlier one.
pub proof fn lemma_before_prefix(
    rows: Seq<Seq<char>>,
    row_a: int,
    k_a: int,
    row_b: int,
    k_b: int,
)
    requires
        0 <= row_a <= row_b < rows.len(),
        0 <= k_a <= rows[row_a].len(),
        0 <= k_b <= rows[row_b].len(),
        row_a < row_b || k_a <= k_b,
    ensures
        text::has_prefix(text_before(rows, row_b, k_b), text_before(rows, row_a, k_a)),
    decreases row_b - row_a,
{
    lemma_text_before(rows, row_a, k_a);
    lemma_text_before(rows, row_b, k_b);
    if row_a == row_b {
        let start = text_before(rows, row_a, 0);
        let line = rows[row_a];
        assert((start + line.take(k_b)).take((start + line.take(k_a)).len() as int) =~= start
            + line.take(k_a));
    } else {
        let full = rows[row_b - 1].len() as int;
        lemma_before_prefix(rows, row_a, k_a, row_b - 1, full);
        lemma_text_before(rows, row_b - 1, full);
        lemma_next_row(rows, row_b - 1);
        assert(rows[row_b - 1].take(full) =~= rows[row_b - 1]);
        lemma_prefix_of_sum(text_before(rows, row_b - 1, full), seq!['\n']);
        lemma_prefix_of_sum(text_before(rows, row_b, 0), rows[row_b].take(k_b));
        lemma_prefix_transitive(
            text_before(rows, row_a, k_a),
            text_before(rows, row_b - 1, full),
            text_before(rows, row_b, 0),
        );
        lemma_prefix_transitive(
            text_before(rows, row_a, k_a),
            text_before(rows, row_b, 0),
            text_before(rows, row_b, k_b),
        );
    }
}

/// The text in front of a character is no longer than the document.
pub proof fn lemma_before_bounds(rows: Seq<Seq<char>>, row: int, k: int)
    requires
        0 <= row < rows.len(),
        0 <= k <= rows[row].len(),
    ensures
        text::byte_len(text_before(rows, row, k)) <= text::byte_len(
            text::join(rows, seq!['\n']),
        ),
        text::has_prefix(text::join(rows, seq!['\n']), text_before(rows, row, k)),
{
    let last = rows.len() - 1;
    let full = rows[last].len() as int;
    lemma_text_before_end(rows);
    lemma_before_prefix(rows, row, k, row, rows[row].len() as int);
    lemma_before_prefix(rows, row, rows[row].len() as int, last, full);
    lemma_prefix_transitive(
        text_before(rows, row, k),
        text_before(rows, row, rows[row].len() as int),
        text_before(rows, last, full),
    );
    text::lemma_encode_cut(
        text::join(rows, seq!['\n']),
        text_before(rows, row, k).len() as int,
    );
}

/// A document is the text in front of two positions, that between them, and the rest.
pub proof fn lemma_text_between(rows: Seq<Seq<char>>, start: PointUtf16, end: PointUtf16)
    requires
        document_rows(rows),
        valid_point(rows, start),
        valid_point(rows, end),
        not_behind(start, end),
    ensures
        before_point(rows, end) == before_point(rows, start) + text_between(rows, start, end),
        text::has_prefix(text::join(rows, seq!['\n']), before_point(rows, end)),
        offset_of(rows, end) == offset_of(rows, start) + text::byte_len(
            text_between(rows, start, end),
        ),
        offset_of(rows, end) <= text::byte_len(text::join(rows, seq!['\n'])),
{
    let k_a = units_index(rows[start.row as int], start.column as int);
    let k_b = units_index(rows[end.row as int], end.column as int);
    lemma_units_index(rows[start.row as int], start.column as int);
    lemma_units_index(rows[end.row as int], end.column as int);
    if start.row == end.row {
        lemma_units_index_monotone(rows[start.row as int], start.column as int, end.column as int);
    }
    lemma_before_prefix(rows, start.row as int, k_a, end.row as int, k_b);
    lemma_before_bounds(rows, end.row as int, k_b);
    assert(before_point(rows, end) =~= before_point(rows, start) + text_between(rows, start, end));
    text::lemma_encode_concat(before_point(rows, start), text_between(rows, start, end));
}

/// A clipped position is valid, and a valid position is clipped to itself.
pub proof fn lemma_clipped(rows: Seq<Seq<char>>, point: PointUtf16, bias: Bias)
    requires
        document_rows(rows),
    ensures
        valid_point(rows, clipped(rows, point, bias)),
        valid_point(rows, point) ==> clipped(rows, point, bias) == point,
{
    if point.row >= rows.len() {
        let line = rows.last();
        let full = line.len() as int;
        assert(rows[rows.len() - 1] == line);
        assert(line.take(full) =~= line);
        lemma_take_bounds(line, full);
        lemma_column_index(line, full);
    } else {
        let line = rows[point.row as int];
        let k = units_index(line, point.column as int);
        lemma_units_index(line, point.column as int);
        lemma_take_bounds(line, k);
        lemma_column_index(line, k);
        if k < line.len() {
            lemma_take_bounds(line, k + 1);
            lemma_column_index(line, k + 1);
        }
    }
}

/// Clipping the ends of a range outwards keeps them in order.
pub proof fn lemma_clipped_ordered(rows: Seq<Seq<char>>, start: PointUtf16, end: PointUtf16)
    requires
        document_rows(rows),
        not_behind(start, end),
    ensures
        not_behind(clipped(rows, start, Bias::Left), clipped(rows, end, Bias::Right)),
{
    if end.row < rows.len() {
        let line = rows[end.row as int];
        lemma_units_index(line, end.column as int);
        let k_b = units_index(line, end.column as int);
        lemma_take_bounds(line, k_b);
        if k_b < line.len() {
            lemma_take_bounds(line, k_b + 1);
            lemma_take_monotone(line, k_b, k_b + 1);
        }
        if start.row == end.row {
            lemma_units_index_monotone(line, start.column as int, end.column as int);
            let k_a = units_index(line, start.column as int);
            lemma_units_index(line, start.column as int);
            lemma_take_monotone(line, k_a, k_b);
        }
    } else {
        let last = rows.last();
        assert(rows[rows.len() - 1] == last);
        lemma_take_bounds(last, last.len() as int);
        if start.row < rows.len() {
            let line = rows[start.row as int];
            lemma_units_index(line, start.column as int);
            lemma_take_bounds(line, units_index(line, start.column as int));
        }
    }
}

/// Later rows start later.
pub proof fn lemma_row_start_monotone(rows: Seq<Seq<char>>, a: int, b: int)
    requires
        0 <= a <= b < rows.len(),
    ensures
        row_start(rows, a) <= row_start(rows, b),
    decreases b - a,
{
    if a < b {
        lemma_row_start_monotone(rows, a, b - 1);
        lemma_next_row(rows, b - 1);
    }
}

/// The row of an offset starts at the offset or before it, and the next row behind it.
pub proof fn lemma_row_at(rows: Seq<Seq<char>>, offset: int)
    requires
        rows.len() > 0,
        0 <= offset,
    ensures
        0 <= row_at(rows, offset) < rows.len(),
        row_start(rows, row_at(rows, offset)) <= offset,
        row_at(rows, offset) + 1 < rows.len() ==> offset < row_start(
            rows,
            row_at(rows, offset) + 1,
        ),
{
    lemma_text_before(rows, 0, 0);
    lemma_row_at_from(rows, 0, offset);
}

proof fn lemma_row_at_from(rows: Seq<Seq<char>>, row: int, offset: int)
    requires
        0 <= row < rows.len(),
        row_start(rows, row) <= offset,
    ensures
        ({
            let r = row_at_from(rows, row, offset);
            &&& row <= r < rows.len()
            &&& row_start(rows, r) <= offset
            &&& r + 1 < rows.len() ==> offset < row_start(rows, r + 1)
        }),
    decreases rows.len() - row,
{
    if row + 1 < rows.len() && row_start(rows, row + 1) <= offset {
        lemma_row_at_from(rows, row + 1, offset);
    }
}

/// The position of an offset is valid, and not behind that of a later offset.
pub proof fn lemma_point_at(rows: Seq<Seq<char>>, offset: int, later: int)
    requires
        document_rows(rows),
        0 <= offset <= later,
    ensures
        valid_point(rows, point_at(rows, offset)),
        not_behind(point_at(rows, offset), point_at(rows, later)),
{
    lemma_row_at(rows, offset);
    lemma_row_at(rows, later);
    let row = row_at(rows, offset);
    let next = row_at(rows, later);
    let line = rows[row];
    let column = offset - row_start(rows, row);
    let k = bytes_index(line, column);
    lemma_bytes_index(line, column);
    lemma_take_bounds(line, k);
    lemma_column_index(line, k);
    if next < row {
        lemma_row_start_monotone(rows, next + 1, row);
    }
    if next == row {
        let m = bytes_index(line, later - row_start(rows, row));
        lemma_bytes_index(line, later - row_start(rows, row));
        if m < k {
            lemma_take_monotone(line, m + 1, k);
        }
        lemma_take_monotone(line, k, m);
        lemma_take_bounds(line, m);
    }
}

/// The position of a position's offset is the position.
pub proof fn lemma_offset_round_trip(rows: Seq<Seq<char>>, point: PointUtf16)
    requires
        document_rows(rows),
        valid_point(rows, point),
    ensures
        0 <= offset_of(rows, point) <= text::byte_len(text::join(rows, seq!['\n'])),
        point_at(rows, offset_of(rows, point)) == point,
{
    let row = point.row as int;
    let line = rows[row];
    let k = units_index(line, point.column as int);
    lemma_units_index(line, point.column as int);
    lemma_text_before(rows, row, k);
    text::lemma_encode_concat(text_before(rows, row, 0), line.take(k));
    lemma_before_bounds(rows, row, k);
    let offset = offset_of(rows, point);
    lemma_take_bounds(line, k);
    lemma_row_at(rows, offset);
    let found = row_at(rows, offset);
    if found < row {
        lemma_row_start_monotone(rows, found + 1, row);
    } else if row < found {
        lemma_next_row(rows, row);
        lemma_row_start_monotone(rows, row + 1, found);
    }
    lemma_column_index(line, k);
}

/// The number of bytes in front of the `k`-th character of a row.
pub fn bytes_before(lines: &Vec<Vec<char>>, row: usize, k: usize) -> (n: usize)
    requires
        row < lines@.len(),
        k <= lines@[row as int]@.len(),
        text::byte_len(text::join(text::views(lines@), seq!['\n'])) <= usize::MAX,
    ensures
        n == text::byte_len(text_before(text::views(lines@), row as int, k as int)),
{
    let ghost rows = text::views(lines@);
    let mut start: usize = 0;
    let mut r: usize = 0;
    proof {
        lemma_text_before(rows, 0, 0);
    }
    while r < row
        invariant
            r <= row < lines@.len(),
            rows == text::views(lines@),
            text::byte_len(text::join(rows, seq!['\n'])) <= usize::MAX,
            start == row_start(rows, r as int),
        decreases row - r,
    {
        proof {
            lemma_next_row(rows, r as int);
            lemma_before_bounds(rows, r + 1, 0);
        }
        start = start + text::chars_byte_len(lines[r].as_slice()) + 1;
        r += 1;
    }
    proof {
        lemma_text_before(rows, row as int, k as int);
        lemma_before_bounds(rows, row as int, k as int);
        let line = rows[row as int];
        text::lemma_encode_concat(text_before(rows, row as int, 0), line.take(k as int));
        assert(line.subrange(0, k as int) =~= line.take(k as int));
    }
    start + text::chars_byte_len(slice_subrange(lines[row].as_slice(), 0, k))
}

// ---------------------------------------------------------------------------
// Snapshots
// ---------------------------------------------------------------------------

/// A document at one moment.
pub struct Snapshot {
    lines: Vec<Vec<char>>,
}

impl View for Snapshot {
    type V = Seq<Seq<char>>;

    closed spec fn view(&self) -> Seq<Seq<char>> {
        text::views(self.lines@)
    }
}

impl Snapshot {
    #[verifier::type_invariant]
    spec fn well_formed(self) -> bool {
        document_rows(self@)
    }

    /// Reads a document. A document with a row of more than `u32::MAX` bytes, or with more
    /// rows than a position can name, cannot be held.
    pub fn new(contents: &str) -> (r: Option<Snapshot>)
        ensures
            match r {
                Some(snapshot) => snapshot@ == text::rows(contents@) && document_rows(snapshot@),
                None => !document_rows(text::rows(contents@)),
            },
    {
        let ghost sep = seq!['\n'];
        let ghost rows = text::rows(contents@);
        let chars: Vec<char> = text::chars_of(contents);
        let lines: Vec<Vec<char>> = text::split_rows(chars.as_slice());
        proof {
            text::lemma_join_split(contents@, sep);
            text::lemma_split_free(contents@, sep);
            assert forall|i: int| 0 <= i < rows.len() implies !(#[trigger] rows[i]).contains(
                '\n',
            ) by {
                if rows[i].contains('\n') {
                    let j = choose|j: int| 0 <= j < rows[i].len() && rows[i][j] == '\n';
                    assert(rows[i].subrange(j, j + 1) =~= sep);
                    assert(text::occurs_at(rows[i], sep, j));
                    assert(text::free_of(rows[i], sep));
                }
            }
        }
        if lines.len() - 1 > u32::MAX as usize {
            return None;
        }
        let mut i: usize = 0;
        while i < lines.len()
            invariant
                i <= lines@.len(),
                text::views(lines@) == rows,
                rows == text::rows(contents@),
                rows.len() > 0,
                text::byte_len(text::join(rows, seq!['\n'])) <= usize::MAX,
                forall|j: int|
                    0 <= j < i ==> text::byte_len(#[trigger] rows[j]) <= u32::MAX,
            decreases lines@.len() - i,
        {
            assert(rows[i as int] == lines@[i as int]@);
            proof {
                lemma_before_bounds(rows, i as int, rows[i as int].len() as int);
                lemma_text_before(rows, i as int, rows[i as int].len() as int);
                assert(rows[i as int].take(rows[i as int].len() as int) =~= rows[i as int]);
                text::lemma_encode_concat(text_before(rows, i as int, 0), rows[i as int]);
            }
            if text::chars_byte_len(lines[i].as_slice()) > u32::MAX as usize {
                return None;
            }
            i += 1;
        }
        assert(document_rows(rows));
        Some(Snapshot { lines })
    }

    /// The text of the document.
    pub fn text(&self) -> (contents: String)
        ensures
            contents@ == text::join(self@, seq!['\n']),
            text::rows(contents@) == self@,
            document_rows(self@),
    {
        proof {
            use_type_invariant(self);
            lemma_rows_of_text(self@);
        }
        let separator: Vec<char> = vec!['\n'];
        assert(separator@ =~= seq!['\n']);
        let joined: Vec<char> = text::join_pieces(&self.lines, separator.as_slice());
        text::string_of(joined.as_slice())
    }

    /// The last row.
    pub fn max_row(&self) -> (row: u32)
        ensures
            row == self@.len() - 1,
            document_rows(self@),
    {
        proof {
            use_type_invariant(self);
        }
        (self.lines.len() - 1) as u32
    }

    /// The characters of a row.
    pub fn line(&self, row: u32) -> (line: &[char])
        requires
            row < self@.len(),
        ensures
            line@ == self@[row as int],
    {
        self.lines[row as usize].as_slice()
    }

    /// The length of a row in bytes.
    pub fn line_len(&self, row: u32) -> (len: u32)
        requires
            row < self@.len(),
        ensures
            len == text::byte_len(self@[row as int]),
    {
        proof {
            use_type_invariant(self);
        }
        assert(text::byte_len(self@[row as int]) <= u32::MAX);
        text::chars_byte_len(self.line(row)) as u32
    }

    /// The position behind the last character.
    pub fn max_point(&self) -> (point: PointUtf16)
        ensures
            point == end_point(self@),
            valid_point(self@, point),
    {
        let row: u32 = self.max_row();
        let line: &[char] = self.line(row);
        proof {
            let full = line@.len() as int;
            assert(self@[row as int] == self@.last());
            assert(line@.take(full) =~= line@);
            lemma_take_bounds(line@, full);
            lemma_column_index(line@, full);
        }
        PointUtf16 { row, column: text::chars_utf16_len(line) as u32 }
    }

    /// The number of characters of a row that end within the given UTF-16 units, and the
    /// units that they take.
    fn index_of_units(&self, row: u32, units: u32) -> (r: (usize, u32))
        requires
            row < self@.len(),
        ensures
            r.0 == units_index(self@[row as int], units as int),
            r.1 == units_column(self@[row as int], r.0 as int),
            r.0 <= self@[row as int].len(),
    {
        proof {
            use_type_invariant(self);
        }
        let line: &[char] = self.line(row);
        assert(text::byte_len(self@[row as int]) <= u32::MAX);
        let mut k: usize = 0;
        let mut column: u32 = 0;
        assert(line@.take(0) =~= Seq::<char>::empty());
        while k < line.len()
            invariant
                k <= line@.len(),
                line@ == self@[row as int],
                text::byte_len(line@) <= u32::MAX,
                column == units_column(line@, k as int),
                units_index(line@, units as int) == units_index_from(
                    line@,
                    k as int,
                    units as int,
                ),
            decreases line@.len() - k,
        {
            proof {
                lemma_take_step(line@, k as int);
                lemma_take_bounds(line@, k + 1);
            }
            let width: u32 = if line[k] as u32 >= 0x10000 {
                2
            } else {
                1
            };
            if column + width > units {
                return (k, column);
            }
            column = column + width;
            k += 1;
        }
        (k, column)
    }

    /// The number of characters of a row that end within the given bytes.
    fn index_of_bytes(&self, row: u32, bytes: usize) -> (k: usize)
        requires
            row < self@.len(),
        ensures
            k == bytes_index(self@[row as int], bytes as int),
            k <= self@[row as int].len(),
    {
        proof {
            use_type_invariant(self);
        }
        let line: &[char] = self.line(row);
        assert(text::byte_len(self@[row as int]) <= u32::MAX);
        let mut k: usize = 0;
        let mut column: usize = 0;
        assert(line@.take(0) =~= Seq::<char>::empty());
        while k < line.len()
            invariant
                k <= line@.len(),
                line@ == self@[row as int],
                text::byte_len(line@) <= u32::MAX,
                column == text::byte_len(line@.take(k as int)),
                bytes_index(line@, bytes as int) == bytes_index_from(
                    line@,
                    k as int,
                    bytes as int,
                ),
            decreases line@.len() - k,
        {
            proof {
                lemma_take_step(line@, k as int);
                lemma_take_bounds(line@, k + 1);
            }
            let width: usize = text::char_width(line[k]);
            if column + width > bytes {
                return k;
            }
            column = column + width;
            k += 1;
        }
        k
    }

    /// The UTF-16 column in front of the `k`-th character of a row.
    fn column_of_index(&self, row: u32, k: usize) -> (column: u32)
        requires
            row < self@.len(),
            k <= self@[row as int].len(),
        ensures
            column == units_column(self@[row as int], k as int),
    {
        proof {
            use_type_invariant(self);
        }
        let line: &[char] = self.line(row);
        proof {
            assert(text::byte_len(self@[row as int]) <= u32::MAX);
            lemma_take_bounds(line@, k as int);
            assert(line@.subrange(0, k as int) =~= line@.take(k as int));
        }
        let prefix: &[char] = slice_subrange(line, 0, k);
        proof {
            text::lemma_byte_len_bounds(prefix@);
        }
        text::chars_utf16_len(prefix) as u32
    }

    /// The valid position nearest to the given one.
    pub fn clip_point_utf16(&self, point: PointUtf16, bias: Bias) -> (r: PointUtf16)
        ensures
            r == clipped(self@, point, bias),
            valid_point(self@, r),
            document_rows(self@),
    {
        let max_row: u32 = self.max_row();
        proof {
            lemma_clipped(self@, point, bias);
        }
        if point.row > max_row {
            return self.max_point();
        }
        let (k, column): (usize, u32) = self.index_of_units(point.row, point.column);
        if k < self.line(point.row).len() && column < point.column {
            match bias {
                Bias::Left => PointUtf16 { row: point.row, column },
                Bias::Right => PointUtf16 {
                    row: point.row,
                    column: self.column_of_index(point.row, k + 1),
                },
            }
        } else {
            PointUtf16 { row: point.row, column }
        }
    }

    /// The text between two positions.
    pub fn text_for_range(&self, start: PointUtf16, end: PointUtf16) -> (r: String)
        requires
            valid_point(self@, start),
            valid_point(self@, end),
            not_behind(start, end),
        ensures
            r@ == text_between(self@, start, end),
    {
        proof {
            use_type_invariant(self);
        }
        let ghost rows = self@;
        let (from, _): (usize, u32) = self.index_of_units(start.row, start.column);
        let (to, _): (usize, u32) = self.index_of_units(end.row, end.column);
        let ghost head = before_point(rows, start);
        proof {
            lemma_text_between(rows, start, end);
            lemma_text_before(rows, start.row as int, from as int);
            lemma_text_before(rows, end.row as int, to as int);
        }
        let mut out: Vec<char> = Vec::new();
        let mut skipped: usize = from;
        let mut row: u32 = start.row;
        assert(head + out@ =~= head);
        while row < end.row
            invariant
                start.row <= row <= end.row < rows.len(),
                rows == self@,
                document_rows(rows),
                skipped <= rows[row as int].len(),
                skipped == if row == start.row {
                    from
                } else {
                    0
                },
                head + out@ == text_before(rows, row as int, 0) + rows[row as int].take(
                    skipped as int,
                ),
            decreases end.row - row,
        {
            let line: &[char] = self.line(row);
            let ghost held = out@;
            let rest: &[char] = slice_subrange(line, skipped, line.len());
            out.extend_from_slice(rest);
            out.push('\n');
            proof {
                lemma_next_row(rows, row as int);
                assert(rows[row as int].take(skipped as int) + rest@ =~= rows[row as int]);
                assert(head + out@ =~= (head + held) + rest@ + seq!['\n']);
                assert(text_before(rows, row as int, 0) + rows[row as int] + seq!['\n'] =~= (
                text_before(rows, row as int, 0) + rows[row as int].take(skipped as int)) + rest@
                    + seq!['\n']);
                assert(rows[row + 1].take(0) =~= Seq::<char>::empty());
                assert(head + out@ =~= text_before(rows, row + 1, 0) + rows[row + 1].take(0));
            }
            skipped = 0;
            row += 1;
        }
        let line: &[char] = self.line(row);
        proof {
            if start.row == end.row {
                lemma_units_index_monotone(
                    rows[start.row as int],
                    start.column as int,
                    end.column as int,
                );
            }
        }
        let ghost held = out@;
        let rest: &[char] = slice_subrange(line, skipped, to);
        out.extend_from_slice(rest);
        proof {
            assert(rows[row as int].take(skipped as int) + rest@ =~= rows[row as int].take(
                to as int,
            ));
            assert(head + out@ =~= (head + held) + rest@);
            assert(head + out@ =~= before_point(rows, end));
            assert(out@ =~= text_between(rows, start, end));
        }
        text::string_of(out.as_slice())
    }

    /// The number of bytes in front of a position.
    pub fn point_utf16_to_offset(&self, point: PointUtf16) -> (offset: usize)
        requires
            valid_point(self@, point),
        ensures
            offset == offset_of(self@, point),
            document_rows(self@),
    {
        proof {
            use_type_invariant(self);
        }
        let (k, _): (usize, u32) = self.index_of_units(point.row, point.column);
        bytes_before(&self.lines, point.row as usize, k)
    }

    /// The row of an offset and the number of bytes in front of that row.
    fn locate(&self, offset: usize) -> (r: (u32, usize))
        ensures
            r.0 == row_at(self@, offset as int),
            r.0 < self@.len(),
            r.1 == row_start(self@, r.0 as int),
            r.1 <= offset,
    {
        let last: u32 = self.max_row();
        let ghost rows = self@;
        let mut start: usize = 0;
        let mut row: u32 = 0;
        proof {
            lemma_text_before(rows, 0, 0);
        }
        while row < last
            invariant
                row <= last,
                last == rows.len() - 1,
                rows == self@,
                document_rows(rows),
                start == row_start(rows, row as int),
                start <= offset,
                row_at(rows, offset as int) == row_at_from(rows, row as int, offset as int),
            decreases last - row,
        {
            proof {
                lemma_next_row(rows, row as int);
                lemma_before_bounds(rows, row + 1, 0);
            }
            let next: usize = start + self.line_len(row) as usize + 1;
            if next > offset {
                return (row, start);
            }
            start = next;
            row += 1;
        }
        (row, start)
    }

    /// The last position at the given offset or before it.
    pub fn offset_to_point_utf16(&self, offset: usize) -> (point: PointUtf16)
        ensures
            point == point_at(self@, offset as int),
            valid_point(self@, point),
    {
        proof {
            use_type_invariant(self);
        }
        let (row, start): (u32, usize) = self.locate(offset);
        let k: usize = self.index_of_bytes(row, offset - start);
        proof {
            lemma_point_at(self@, offset as int, offset as int);
        }
        PointUtf16 { row, column: self.column_of_index(row, k) }
    }

    /// The row that holds the byte at the given offset.
    pub fn offset_to_row(&self, offset: usize) -> (row: u32)
        ensures
            row == row_at(self@, offset as int),
            row < self@.len(),
    {
        let (row, _): (u32, usize) = self.locate(offset);
        row
    }

    /// The UTF-16 position of a position in bytes.
    pub fn point_to_point_utf16(&self, point: Point) -> (r: PointUtf16)
        requires
            point.row < self@.len(),
        ensures
            r == utf16_point(self@, point),
    {
        let k: usize = self.index_of_bytes(point.row, point.column as usize);
        PointUtf16 { row: point.row, column: self.column_of_index(point.row, k) }
    }

    /// The text of the rows from `start` to `end`, both included.
    pub fn text_of_rows(&self, start: u32, end: u32) -> (r: String)
        requires
            start <= end < self@.len(),
        ensures
            r@ == text::join(self@.subrange(start as int, end + 1), seq!['\n']),
    {
        let mut pieces: Vec<Vec<char>> = Vec::new();
        let ghost rows = self@;
        let mut row: u32 = start;
        let mut done: bool = false;
        while !done
            invariant
                start <= row <= end < rows.len(),
                rows == self@,
                text::views(pieces@) == rows.subrange(
                    start as int,
                    row + if done {
                        1int
                    } else {
                        0
                    },
                ),
                done ==> row == end,
            decreases end - row + if done {
                0int
            } else {
                1
            },
        {
            let line: Vec<char> = vstd::slice::slice_to_vec(self.line(row));
            let ghost held = text::views(pieces@);
            pieces.push(line);
            assert(text::views(pieces@) =~= held.push(rows[row as int]));
            assert(rows.subrange(start as int, row + 1) =~= rows.subrange(
                start as int,
                row as int,
            ).push(rows[row as int]));
            if row == end {
                done = true;
            } else {
                row += 1;
            }
        }
        let separator: Vec<char> = vec!['\n'];
        assert(separator@ =~= seq!['\n']);
        let joined: Vec<char> = text::join_pieces(&pieces, separator.as_slice());
        text::string_of(joined.as_slice())
    }
}

// ---------------------------------------------------------------------------
// What positions mean
// ---------------------------------------------------------------------------

/// Positions are ordered by row and then by column, as numbers of which the row is the higher
/// part.
pub proof fn lemma_position_order(a: PointUtf16, b: PointUtf16)
    ensures
        not_behind(a, b) <==> a.row * 0x1_0000_0000 + a.column <= b.row * 0x1_0000_0000 + b.column,
{
}

/// A position is valid when so many UTF-16 units make up a start of its row.
pub proof fn lemma_valid_point(rows: Seq<Seq<char>>, point: PointUtf16)
    ensures
        valid_point(rows, point) <==> point.row < rows.len() && exists|k: int|
            0 <= k <= rows[point.row as int].len() && text::utf16_len(
                #[trigger] rows[point.row as int].take(k),
            ) == point.column,
{
    if point.row < rows.len() {
        let line = rows[point.row as int];
        lemma_units_index(line, point.column as int);
        if valid_point(rows, point) {
            let k = units_index(line, point.column as int);
            assert(text::utf16_len(line.take(k)) == point.column);
        }
        if exists|k: int|
            0 <= k <= line.len() && text::utf16_len(#[trigger] line.take(k)) == point.column {
            let k = choose|k: int|
                0 <= k <= line.len() && text::utf16_len(#[trigger] line.take(k)) == point.column;
            lemma_column_index(line, k);
        }
    }
}

/// A position inside a character is moved to the side that is asked for, to the nearest
/// column there; one behind its row to the row's end; one below the document to its end.
pub proof fn lemma_clipped_side(rows: Seq<Seq<char>>, point: PointUtf16, bias: Bias)
    requires
        document_rows(rows),
    ensures
        ({
            let made = clipped(rows, point, bias);
            if point.row >= rows.len() {
                &&& made.row == rows.len() - 1
                &&& made.column == text::utf16_len(rows.last())
            } else {
                let line = rows[point.row as int];
                let full = text::utf16_len(line);
                &&& made.row == point.row
                &&& point.column >= full ==> made.column == full
                &&& point.column < full && bias == Bias::Left ==> {
                    &&& made.column <= point.column
                    &&& forall|k: int|
                        0 <= k <= line.len() && text::utf16_len(#[trigger] line.take(k))
                            <= point.column ==> text::utf16_len(line.take(k)) <= made.column
                }
                &&& point.column < full && bias == Bias::Right ==> {
                    &&& made.column >= point.column
                    &&& forall|k: int|
                        0 <= k <= line.len() && text::utf16_len(#[trigger] line.take(k))
                            >= point.column ==> text::utf16_len(line.take(k)) >= made.column
                }
            }
        }),
{
    if point.row >= rows.len() {
        assert(rows[rows.len() - 1] == rows.last());
        lemma_take_bounds(rows.last(), rows.last().len() as int);
    } else {
        let line = rows[point.row as int];
        let n = line.len() as int;
        let k = units_index(line, point.column as int);
        lemma_units_index(line, point.column as int);
        assert(line.take(n) =~= line);
        lemma_take_bounds(line, k);
        if k < n {
            lemma_take_bounds(line, k + 1);
            lemma_take_monotone(line, k, k + 1);
        }
        assert forall|j: int| 0 <= j <= n implies {
            &&& j <= k ==> text::utf16_len(#[trigger] line.take(j)) <= text::utf16_len(line.take(k))
            &&& j > k ==> text::utf16_len(line.take(j)) >= text::utf16_len(line.take(k + 1))
        } by {
            if j <= k {
                lemma_take_monotone(line, j, k);
            } else {
                lemma_take_monotone(line, k + 1, j);
            }
        }
        assert(text::utf16_len(line.take(n)) == text::utf16_len(line));
        if k < n {
            assert(text::utf16_len(line.take(n)) >= text::utf16_len(line.take(k + 1)));
        }
        if bias == Bias::Right && point.column < text::utf16_len(line) {
            let made = clipped(rows, point, bias);
            assert forall|j: int|
                0 <= j <= n && text::utf16_len(#[trigger] line.take(j))
                    >= point.column implies text::utf16_len(line.take(j)) >= made.column by {
                if j < k {
                    lemma_take_monotone(line, j, k);
                }
            }
        }
    }
}

/// All bytes of a document stand in front of its end.
pub proof fn lemma_end_offset(rows: Seq<Seq<char>>)
    requires
        document_rows(rows),
    ensures
        valid_point(rows, end_point(rows)),
        offset_of(rows, end_point(rows)) == text::byte_len(text::join(rows, seq!['\n'])),
        forall|point: PointUtf16| #[trigger]
            valid_point(rows, point) ==> not_behind(point, end_point(rows)),
{
    let last = rows.last();
    let full = last.len() as int;
    assert(rows[rows.len() - 1] == last);
    assert(last.take(full) =~= last);
    lemma_take_bounds(last, full);
    lemma_column_index(last, full);
    lemma_text_before_end(rows);
    assert forall|point: PointUtf16| #[trigger] valid_point(rows, point) implies not_behind(
        point,
        end_point(rows),
    ) by {
        if point.row == rows.len() - 1 {
            lemma_units_index(last, point.column as int);
            lemma_take_bounds(last, units_index(last, point.column as int));
        }
    }
}

/// The position of an offset stands at the offset or before it, and no valid position stands
/// between them.
pub proof fn lemma_offset_floor(rows: Seq<Seq<char>>, offset: int, point: PointUtf16)
    requires
        document_rows(rows),
        0 <= offset,
    ensures
        offset_of(rows, point_at(rows, offset)) <= offset,
        valid_point(rows, point) && offset_of(rows, point) <= offset ==> not_behind(
            point,
            point_at(rows, offset),
        ),
{
    lemma_point_at(rows, offset, offset);
    let row = row_at(rows, offset);
    lemma_row_at(rows, offset);
    let line = rows[row];
    let k = bytes_index(line, offset - row_start(rows, row));
    lemma_bytes_index(line, offset - row_start(rows, row));
    lemma_take_bounds(line, k);
    lemma_column_index(line, k);
    lemma_text_before(rows, row, k);
    text::lemma_encode_concat(text_before(rows, row, 0), line.take(k));
    if valid_point(rows, point) && offset_of(rows, point) <= offset {
        lemma_offset_round_trip(rows, point);
        lemma_point_at(rows, offset_of(rows, point), offset);
    }
}

/// A byte position in front of a character is, in UTF-16 units, in front of that character.
pub proof fn lemma_utf16_point(rows: Seq<Seq<char>>, row: u32, k: int)
    requires
        document_rows(rows),
        row < rows.len(),
        0 <= k <= rows[row as int].len(),
    ensures
        ({
            let line = rows[row as int];
            let point = Point { row, column: text::byte_len(line.take(k)) as u32 };
            &&& utf16_point(rows, point).row == row
            &&& utf16_point(rows, point).column == text::utf16_len(line.take(k))
        }),
{
    let line = rows[row as int];
    assert(text::byte_len(rows[row as int]) <= u32::MAX);
    lemma_take_bounds(line, k);
    lemma_column_index(line, k);
}

/// The text between two positions of one row is that part of the row.
pub proof fn lemma_text_in_row(rows: Seq<Seq<char>>, row: u32, i: int, j: int)
    requires
        document_rows(rows),
        row < rows.len(),
        0 <= i <= j <= rows[row as int].len(),
    ensures
        ({
            let line = rows[row as int];
            let start = PointUtf16 { row, column: text::utf16_len(line.take(i)) as u32 };
            let end = PointUtf16 { row, column: text::utf16_len(line.take(j)) as u32 };
            text_between(rows, start, end) == line.subrange(i, j)
        }),
{
    let line = rows[row as int];
    assert(text::byte_len(rows[row as int]) <= u32::MAX);
    lemma_take_bounds(line, i);
    lemma_take_bounds(line, j);
    lemma_column_index(line, i);
    lemma_column_index(line, j);
    lemma_text_before(rows, row as int, i);
    lemma_text_before(rows, row as int, j);
    let front = text_before(rows, row as int, 0);
    assert((front + line.take(j)).skip((front + line.take(i)).len() as int) =~= line.subrange(
        i,
        j,
    ));
}

} // verus!
