//! The completion request and how it is built.

use crate::file_sync::FilesyncUpdate;
use crate::text;
use vstd::prelude::*;
use vstd::slice::slice_to_vec;

verus! {

/// A double precision number by its IEEE 754 encoding.
#[derive(Clone, Copy, Debug, Default, PartialEq, Eq)]
pub struct Double {
    pub bits: u64,
}

/// A single precision number by its IEEE 754 encoding.
#[derive(Clone, Copy, Debug, Default, PartialEq, Eq)]
pub struct Single {
    pub bits: u32,
}

/// A completion request.
#[derive(Debug, Default, PartialEq)]
pub struct StreamCppRequest {
    pub current_file: Option<CurrentFileInfo>,
    pub diff_history: Vec<String>,
    pub model_name: Option<String>,
    pub linter_errors: Option<LinterErrors>,
    pub diff_history_keys: Vec<String>,
    pub give_debug_output: Option<bool>,
    pub file_diff_histories: Vec<FileDiffHistory>,
    pub merged_diff_histories: Vec<FileDiffHistory>,
    pub block_diff_patches: Vec<BlockDiffPatch>,
    pub is_nightly: Option<bool>,
    pub is_debug: Option<bool>,
    pub immediately_ack: Option<bool>,
    pub context_items: Vec<ContextItem>,
    pub parameter_hints: Vec<ParameterHint>,
    pub lsp_contexts: Vec<LspContext>,
    pub cpp_intent_info: Option<CppIntentInfo>,
    pub enable_more_context: Option<bool>,
    pub workspace_id: Option<String>,
    pub additional_files: Vec<AdditionalFile>,
    pub control_token: Option<i32>,
    pub client_time: Option<Double>,
    pub filesync_updates: Vec<FilesyncUpdate>,
    pub time_since_request_start: Double,
    pub time_at_request_send: Double,
    pub client_timezone_offset: Option<Double>,
    pub lsp_suggested_items: Option<LspSuggestedItems>,
    pub supports_cpt: Option<bool>,
    pub supports_crlf_cpt: Option<bool>,
    pub code_results: Vec<CodeResult>,
}

/// The file that the cursor is in.
#[derive(Debug, Default, PartialEq)]
pub struct CurrentFileInfo {
    pub relative_workspace_path: String,
    pub contents: String,
    pub cursor_position: Option<CursorPosition>,
    pub dataframes: Vec<DataFrame>,
    pub language_id: String,
    pub selection: Option<Selection>,
    pub diagnostics: Vec<Diagnostic>,
    pub total_number_of_lines: i32,
    pub contents_start_at_line: i32,
    pub top_chunks: Vec<TopChunk>,
    pub alternative_version_id: Option<i32>,
    pub file_version: Option<i32>,
    pub cell_start_lines: Vec<i32>,
    pub cells: Vec<Cell>,
    pub sha_256_hash: Option<String>,
    pub rely_on_filesync: bool,
    pub workspace_root_path: String,
    pub line_ending: Option<String>,
}

/// A position of the cursor.
#[derive(Clone, Copy, Debug, Default, PartialEq, Eq)]
pub struct CursorPosition {
    pub line: i32,
    pub column: i32,
}

/// A selected range.
#[derive(Clone, Copy, Debug, Default, PartialEq, Eq)]
pub struct Selection {
    pub start_line: i32,
    pub start_column: i32,
    pub end_line: i32,
    pub end_column: i32,
}

/// The diagnostics of a file.
#[derive(Debug, Default, PartialEq)]
pub struct LinterErrors {
    pub relative_workspace_path: String,
    pub errors: Vec<LinterError>,
    pub file_contents: String,
}

/// A diagnostic.
#[derive(Debug, Default, PartialEq)]
pub struct LinterError {
    pub message: String,
    pub range: Option<CodeRange>,
    pub source: Option<String>,
    pub related_information: Vec<RelatedInformation>,
    pub severity: Option<i32>,
    pub is_stale: Option<bool>,
}

/// What a diagnostic refers to besides its own place.
#[derive(Debug, Default, PartialEq)]
pub struct RelatedInformation {
    pub message: String,
    pub relative_workspace_path: String,
    pub relevant_lines: Vec<String>,
    pub start_line: i32,
    pub range: Option<CodeRange>,
}

/// The recent changes of a file.
#[derive(Debug, Default, PartialEq)]
pub struct FileDiffHistory {
    pub file_name: String,
    pub diff_history: Vec<String>,
    pub diff_history_timestamps: Vec<Double>,
}

/// Why a prediction is asked for.
#[derive(Debug, Default, PartialEq)]
pub struct CppIntentInfo {
    pub source: String,
}

/// Parts of a file other than the current one.
#[derive(Debug, Default, PartialEq)]
pub struct AdditionalFile {
    pub relative_workspace_path: String,
    pub is_open: bool,
    pub visible_range_content: Vec<String>,
    pub last_viewed_at: Option<Double>,
    pub start_line_number_one_indexed: Vec<i32>,
    pub visible_ranges: Vec<LineRange>,
}

/// A range of lines.
#[derive(Clone, Copy, Debug, Default, PartialEq, Eq)]
pub struct LineRange {
    pub start_line_number: i32,
    pub end_line_number_inclusive: i32,
}

/// What a language server suggests.
#[derive(Debug, Default, PartialEq)]
pub struct LspSuggestedItems {
    pub suggestions: Vec<LspSuggestion>,
}

/// A piece of code with its relevance.
#[derive(Debug, Default, PartialEq)]
pub struct CodeResult {
    pub code_block: Option<CodeBlock>,
    pub score: Single,
}

/// A piece of code.
#[derive(Debug, Default, PartialEq)]
pub struct CodeBlock {
    pub relative_workspace_path: String,
    pub file_contents: Option<String>,
    pub range: Option<CodeRange>,
    pub contents: String,
}

/// A range of a file.
#[derive(Clone, Copy, Debug, Default, PartialEq, Eq)]
pub struct CodeRange {
    pub start_position: Option<Position>,
    pub end_position: Option<Position>,
}

/// A position in a file.
#[derive(Clone, Copy, Debug, Default, PartialEq, Eq)]
pub struct Position {
    pub line: i32,
    pub column: i32,
}

/// A data frame of a notebook.
#[derive(Clone, Copy, Debug, Default, PartialEq, Eq)]
pub struct DataFrame {}

/// A diagnostic of the current file.
#[derive(Clone, Copy, Debug, Default, PartialEq, Eq)]
pub struct Diagnostic {}

/// A relevant chunk of the current file.
#[derive(Clone, Copy, Debug, Default, PartialEq, Eq)]
pub struct TopChunk {}

/// A cell of a notebook.
#[derive(Clone, Copy, Debug, Default, PartialEq, Eq)]
pub struct Cell {}

/// A patch of a block.
#[derive(Clone, Copy, Debug, Default, PartialEq, Eq)]
pub struct BlockDiffPatch {}

/// An item of context.
#[derive(Clone, Copy, Debug, Default, PartialEq, Eq)]
pub struct ContextItem {}

/// A hint on a parameter.
#[derive(Clone, Copy, Debug, Default, PartialEq, Eq)]
pub struct ParameterHint {}

/// Context from a language server.
#[derive(Clone, Copy, Debug, Default, PartialEq, Eq)]
pub struct LspContext {}

/// A suggestion of a language server.
#[derive(Clone, Copy, Debug, Default, PartialEq, Eq)]
pub struct LspSuggestion {}

/// How eagerly the service is to answer.
#[derive(Clone, Copy, Debug, PartialEq, Eq)]
pub enum ControlToken {
    Unspecified,
    Quiet,
    Loud,
    Op,
}

impl ControlToken {
    /// The number by which the service knows the token.
    pub open spec fn code(self) -> i32 {
        match self {
            ControlToken::Unspecified => 0,
            ControlToken::Quiet => 1,
            ControlToken::Loud => 2,
            ControlToken::Op => 3,
        }
    }

    /// The number by which the service knows the token.
    pub fn number(self) -> (n: i32)
        ensures
            n == self.code(),
    {
        match self {
            ControlToken::Unspecified => 0,
            ControlToken::Quiet => 1,
            ControlToken::Loud => 2,
            ControlToken::Op => 3,
        }
    }
}

/// How severe a diagnostic is.
#[derive(Clone, Copy, Debug, PartialEq, Eq)]
pub enum Severity {
    Unspecified,
}

/// What a completion request is built from.
pub struct StreamCppRequestInput {
    pub relative_workspace_path: String,
    pub workspace_root_path: String,
    pub contents: String,
    pub cursor_position: CursorPosition,
    pub selection: Option<Selection>,
    pub language_id: String,
    pub file_version: Option<i32>,
    pub sha_256_hash: Option<String>,
    pub linter_errors: Vec<LinterError>,
    pub file_diff_histories: Vec<FileDiffHistory>,
    pub merged_diff_histories: Vec<FileDiffHistory>,
    pub additional_files: Vec<AdditionalFile>,
    pub code_results: Vec<CodeResult>,
    pub model_name: Option<String>,
    pub intent_source: Option<String>,
    pub workspace_id: Option<String>,
    pub client_time: Double,
    pub time_since_request_start: Double,
    pub time_at_request_send: Double,
    pub client_timezone_offset: Option<Double>,
    pub supports_cpt: bool,
    pub supports_crlf_cpt: bool,
}

/// Why a request cannot be built.
#[derive(Clone, Copy, Debug, PartialEq, Eq, Structural)]
pub enum RequestError {
    /// The path of the current file is empty.
    EmptyPath,
    /// The language of the current file is empty.
    EmptyLanguage,
    /// A timing is infinite or not a number.
    TimingNotFinite,
    /// The time since the start of the request is negative.
    NegativeElapsedTime,
    /// The current file has more lines than can be counted.
    TooManyLines,
    /// The cursor is outside the current file.
    CursorOutside,
    /// The start of the selection is outside the current file.
    SelectionStartOutside,
    /// The end of the selection is outside the current file.
    SelectionEndOutside,
    /// The selection ends before it starts.
    SelectionReversed,
}

// ---------------------------------------------------------------------------
// Numbers
// ---------------------------------------------------------------------------

impl Double {
    /// The encoding without the sign.
    pub open spec fn magnitude(self) -> int {
        self.bits as int % 0x8000_0000_0000_0000
    }

    /// Whether the number is neither infinite nor undefined.
    pub open spec fn finite(self) -> bool {
        self.magnitude() < 0x7ff0_0000_0000_0000
    }

    /// Whether the number is defined and less than zero.
    pub open spec fn negative(self) -> bool {
        self.bits >= 0x8000_0000_0000_0000 && 0 < self.magnitude() <= 0x7ff0_0000_0000_0000
    }

    /// Whether the number is neither infinite nor undefined.
    pub fn is_finite(self) -> (r: bool)
        ensures
            r == self.finite(),
    {
        self.bits % 0x8000_0000_0000_0000 < 0x7ff0_0000_0000_0000
    }

    /// Whether the number is defined and less than zero.
    pub fn is_negative(self) -> (r: bool)
        ensures
            r == self.negative(),
    {
        let magnitude: u64 = self.bits % 0x8000_0000_0000_0000;
        self.bits >= 0x8000_0000_0000_0000 && 0 < magnitude && magnitude <= 0x7ff0_0000_0000_0000
    }
}

// ---------------------------------------------------------------------------
// Positions
// ---------------------------------------------------------------------------

/// Whether a position is inside a file with so many lines.
pub open spec fn position_inside(line: i32, column: i32, line_count: int) -> bool {
    0 <= line < line_count && 0 <= column
}

/// What is wrong with a selection, if anything.
pub open spec fn selection_fault(selection: Selection, line_count: int) -> Option<RequestError> {
    if !position_inside(selection.start_line, selection.start_column, line_count) {
        Some(RequestError::SelectionStartOutside)
    } else if !position_inside(selection.end_line, selection.end_column, line_count) {
        Some(RequestError::SelectionEndOutside)
    } else if selection.end_line < selection.start_line || (selection.end_line
        == selection.start_line && selection.end_column < selection.start_column) {
        Some(RequestError::SelectionReversed)
    } else {
        None
    }
}

/// Checks that a position is inside a file with so many lines.
pub fn validate_position(
    position: CursorPosition,
    line_count: i32,
    outside: RequestError,
) -> (r: Result<(), RequestError>)
    ensures
        match r {
            Ok(_) => position_inside(position.line, position.column, line_count as int),
            Err(error) => !position_inside(position.line, position.column, line_count as int)
                && error == outside,
        },
{
    if position.line < 0 || position.line >= line_count || position.column < 0 {
        Err(outside)
    } else {
        Ok(())
    }
}

/// Checks that a selection is inside a file with so many lines and not reversed.
pub fn validate_selection(selection: Selection, line_count: i32) -> (r: Result<(), RequestError>)
    ensures
        match r {
            Ok(_) => selection_fault(selection, line_count as int) is None,
            Err(error) => selection_fault(selection, line_count as int) == Some(error),
        },
{
    let start: CursorPosition = CursorPosition {
        line: selection.start_line,
        column: selection.start_column,
    };
    let end: CursorPosition = CursorPosition {
        line: selection.end_line,
        column: selection.end_column,
    };
    if let Err(error) = validate_position(start, line_count, RequestError::SelectionStartOutside) {
        return Err(error);
    }
    if let Err(error) = validate_position(end, line_count, RequestError::SelectionEndOutside) {
        return Err(error);
    }
    if selection.end_line < selection.start_line || (selection.end_line == selection.start_line
        && selection.end_column < selection.start_column) {
        return Err(RequestError::SelectionReversed);
    }
    Ok(())
}

// ---------------------------------------------------------------------------
// The window around the cursor
// ---------------------------------------------------------------------------

/// The UTF-16 length from which on a file is not sent whole.
pub const MIN_UTF16_LENGTH: usize = 50_000;

/// How many lines of a large file are sent.
pub const CONTEXT_LINE_COUNT: usize = 600;

/// The line ending of a file.
pub open spec fn line_ending_of(contents: Seq<char>) -> Seq<char> {
    if text::find_from(contents, seq!['\r', '\n'], 0) is Some {
        seq!['\r', '\n']
    } else {
        seq!['\n']
    }
}

/// The first line of the window, in a file with so many lines.
pub open spec fn window_start(cursor_line: int, count: int) -> int {
    let half = CONTEXT_LINE_COUNT as int / 2;
    let wanted = if cursor_line > half {
        cursor_line - half
    } else {
        0
    };
    let last = if count > CONTEXT_LINE_COUNT {
        count - CONTEXT_LINE_COUNT
    } else {
        0
    };
    if wanted <= last {
        wanted
    } else {
        last
    }
}

/// The line behind the window, in a file with so many lines.
pub open spec fn window_end(cursor_line: int, count: int) -> int {
    let end = window_start(cursor_line, count) + CONTEXT_LINE_COUNT;
    if end <= count {
        end
    } else {
        count
    }
}

/// Lines of which those outside a window are blank: of such a line only the line feeds are
/// left that stand inside it, as they do where a file mixes line endings.
pub open spec fn blanked(lines: Seq<Seq<char>>, start: int, end: int) -> Seq<Seq<char>> {
    Seq::new(
        lines.len(),
        |i: int|
            if start <= i < end {
                lines[i]
            } else {
                text::line_feeds(lines[i])
            },
    )
}

/// What is sent of a large file: all lines, but those far from the cursor blank, so that
/// every row keeps its number. `None` when the file is sent whole.
pub open spec fn windowed(
    contents: Seq<char>,
    cursor_line: int,
    line_ending: Seq<char>,
) -> Option<Seq<char>> {
    let lines = text::split_by(contents, line_ending);
    let count = lines.len() as int;
    let start = window_start(cursor_line, count);
    let end = window_end(cursor_line, count);
    if text::utf16_len(contents) < MIN_UTF16_LENGTH || (start == 0 && end == count) {
        None
    } else {
        Some(text::join(blanked(lines, start, end), line_ending))
    }
}

/// What is sent of a large file, when it is not sent whole.
pub fn window_current_file(contents: &str, cursor_line: usize, line_ending: &str) -> (r: Option<
    String,
>)
    requires
        line_ending@.len() > 0,
    ensures
        match r {
            Some(window) => windowed(contents@, cursor_line as int, line_ending@) == Some(window@),
            None => windowed(contents@, cursor_line as int, line_ending@) is None,
        },
{
    let chars: Vec<char> = text::chars_of(contents);
    if text::chars_utf16_len(chars.as_slice()) < MIN_UTF16_LENGTH {
        return None;
    }
    let ending: Vec<char> = text::chars_of(line_ending);
    let lines: Vec<Vec<char>> = text::split(chars.as_slice(), ending.as_slice());
    let count: usize = lines.len();
    let half: usize = CONTEXT_LINE_COUNT / 2;
    let wanted: usize = if cursor_line > half {
        cursor_line - half
    } else {
        0
    };
    let last: usize = if count > CONTEXT_LINE_COUNT {
        count - CONTEXT_LINE_COUNT
    } else {
        0
    };
    let start: usize = if wanted <= last {
        wanted
    } else {
        last
    };
    let end: usize = if count - start > CONTEXT_LINE_COUNT {
        start + CONTEXT_LINE_COUNT
    } else {
        count
    };
    if start == 0 && end == count {
        return None;
    }
    let ghost all = text::split_by(contents@, line_ending@);
    let mut sent: Vec<Vec<char>> = Vec::new();
    let mut i: usize = 0;
    while i < count
        invariant
            i <= count == lines@.len(),
            all == text::views(lines@),
            text::views(sent@) == blanked(all, start as int, end as int).take(i as int),
        decreases count - i,
    {
        let ghost target = blanked(all, start as int, end as int);
        let ghost held = text::views(sent@);
        let line: Vec<char> = if start <= i && i < end {
            slice_to_vec(lines[i].as_slice())
        } else {
            text::line_feeds_of(lines[i].as_slice())
        };
        assert(line@ =~= target[i as int]);
        sent.push(line);
        assert(text::views(sent@) =~= held.push(target[i as int]));
        assert(target.take(i + 1) =~= target.take(i as int).push(target[i as int]));
        i += 1;
    }
    assert(blanked(all, start as int, end as int).take(i as int) =~= blanked(
        all,
        start as int,
        end as int,
    ));
    let window: Vec<char> = text::join_pieces(&sent, ending.as_slice());
    Some(text::string_of(window.as_slice()))
}

/// The line of the cursor is in the window, and the window is inside the file.
pub proof fn lemma_window_holds_cursor(cursor_line: int, count: int)
    requires
        0 <= cursor_line < count,
    ensures
        0 <= window_start(cursor_line, count) <= cursor_line < window_end(cursor_line, count)
            <= count,
{
}

/// A window has the lines of the file: those around the cursor as they are, and of the
/// others the line feeds inside them.
pub proof fn lemma_windowed_lines(
    contents: Seq<char>,
    cursor_line: int,
    line_ending: Seq<char>,
)
    requires
        line_ending == seq!['\n'] || line_ending == seq!['\r', '\n'],
        0 <= cursor_line,
        windowed(contents, cursor_line, line_ending) is Some,
    ensures
        ({
            let lines = text::split_by(contents, line_ending);
            let count = lines.len() as int;
            text::split_by(windowed(contents, cursor_line, line_ending)->0, line_ending)
                == blanked(
                lines,
                window_start(cursor_line, count),
                window_end(cursor_line, count),
            )
        }),
{
    let lines = text::split_by(contents, line_ending);
    let count = lines.len() as int;
    let sent = blanked(
        lines,
        window_start(cursor_line, count),
        window_end(cursor_line, count),
    );
    text::lemma_split_nonempty(contents, line_ending);
    text::lemma_split_free(contents, line_ending);
    assert forall|j: int| 0 <= j < sent.len() implies text::free_of(
        #[trigger] sent[j],
        line_ending,
    ) by {
        let line = lines[j];
        let feeds = text::line_feeds(line);
        assert(text::free_of(line, line_ending));
        text::lemma_line_feeds(line);
        assert forall|i: int| !text::occurs_at(feeds, line_ending, i) by {
            if text::occurs_at(feeds, line_ending, i) {
                assert(feeds.subrange(i, i + line_ending.len())[0] == feeds[i]);
                assert(line_ending == seq!['\n']);
                if line.contains('\n') {
                    let at = line.index_of('\n');
                    assert(line.subrange(at, at + 1) =~= line_ending);
                    assert(text::occurs_at(line, line_ending, at));
                } else {
                    text::lemma_no_line_feeds(line);
                }
            }
        }
    }
    text::lemma_split_join(sent, line_ending);
}

/// The number of rows in front of the `j`-th line. A line that holds line feeds spans more
/// rows than one.
pub open spec fn first_row(lines: Seq<Seq<char>>, j: int) -> int
    decreases j,
{
    if j <= 0 {
        0
    } else {
        first_row(lines, j - 1) + text::rows(lines[j - 1]).len()
    }
}

proof fn lemma_first_row_monotone(lines: Seq<Seq<char>>, i: int, j: int)
    requires
        0 <= i <= j,
    ensures
        0 <= first_row(lines, i) <= first_row(lines, j),
    decreases j,
{
    if i < j {
        lemma_first_row_monotone(lines, i, j - 1);
    } else if j > 0 {
        lemma_first_row_monotone(lines, j - 1, j - 1);
    }
}

/// The rows of the first `n` lines, each with the start of the line ending behind it, the
/// last one with the given text behind it.
spec fn rows_of_lines(
    lines: Seq<Seq<char>>,
    n: int,
    line_ending: Seq<char>,
    behind: Seq<char>,
) -> Seq<Seq<char>>
    decreases n,
{
    if n <= 0 {
        Seq::empty()
    } else {
        rows_of_lines(lines, n - 1, line_ending, line_ending.drop_last()) + text::rows(
            lines[n - 1] + behind,
        )
    }
}

proof fn lemma_rows_of_lines(
    lines: Seq<Seq<char>>,
    n: int,
    line_ending: Seq<char>,
    behind: Seq<char>,
)
    requires
        0 < n <= lines.len(),
        line_ending == seq!['\n'] || line_ending == seq!['\r', '\n'],
    ensures
        text::rows(text::join(lines.take(n), line_ending) + behind) == rows_of_lines(
            lines,
            n,
            line_ending,
            behind,
        ),
    decreases n,
{
    let front = line_ending.drop_last();
    let last = lines[n - 1] + behind;
    if n == 1 {
        assert(rows_of_lines(lines, 0, line_ending, front) + text::rows(last) =~= text::rows(last));
    } else {
        lemma_rows_of_lines(lines, n - 1, line_ending, front);
        let head = text::join(lines.take(n - 1), line_ending);
        assert(lines.take(n).drop_last() =~= lines.take(n - 1));
        assert(front + seq!['\n'] =~= line_ending);
        assert(text::join(lines.take(n), line_ending) + behind =~= (head + front) + seq!['\n']
            + last);
        text::lemma_rows_append(head + front, last);
    }
}

/// Lines that span as many rows have them at the same numbers, and those that are equal have
/// equal rows.
proof fn lemma_equal_rows(
    lines: Seq<Seq<char>>,
    sent: Seq<Seq<char>>,
    n: int,
    line_ending: Seq<char>,
    behind: Seq<char>,
    start: int,
    end: int,
)
    requires
        0 <= n <= lines.len() == sent.len(),
        0 <= start <= end,
        line_ending == seq!['\n'] || line_ending == seq!['\r', '\n'],
        !behind.contains('\n'),
        forall|j: int|
            0 <= j < lines.len() ==> text::line_feeds(#[trigger] sent[j]).len()
                == text::line_feeds(lines[j]).len(),
        forall|j: int| start <= j < end && j < lines.len() ==> #[trigger] sent[j] == lines[j],
    ensures
        ({
            let a = rows_of_lines(lines, n, line_ending, behind);
            let b = rows_of_lines(sent, n, line_ending, behind);
            &&& a.len() == b.len() == first_row(lines, n)
            &&& forall|r: int|
                first_row(lines, start) <= r < first_row(lines, end) && r < first_row(lines, n)
                    ==> #[trigger] b[r] == a[r]
        }),
    decreases n,
{
    if n > 0 {
        let front = line_ending.drop_last();
        assert(!front.contains('\n'));
        lemma_equal_rows(lines, sent, n - 1, line_ending, front, start, end);
        lemma_rows_with(lines[n - 1], behind);
        lemma_rows_with(sent[n - 1], behind);
        text::lemma_row_count(lines[n - 1]);
        text::lemma_row_count(sent[n - 1]);
        let a = rows_of_lines(lines, n, line_ending, behind);
        let b = rows_of_lines(sent, n, line_ending, behind);
        lemma_first_row_monotone(lines, 0, start);
        assert forall|r: int|
            first_row(lines, start) <= r < first_row(lines, end) && r < first_row(
                lines,
                n,
            ) implies #[trigger] b[r] == a[r] by {
            if r < first_row(lines, n - 1) {
                let a_front = rows_of_lines(lines, n - 1, line_ending, front);
                let b_front = rows_of_lines(sent, n - 1, line_ending, front);
                assert(a[r] == a_front[r]);
                assert(b[r] == b_front[r]);
            } else {
                if n - 1 < start {
                    lemma_first_row_monotone(lines, n, start);
                }
                if n - 1 >= end {
                    lemma_first_row_monotone(lines, end, n - 1);
                }
                assert(sent[n - 1] == lines[n - 1]);
            }
        }
    }
}

/// A text without line feeds behind a line leaves the number of its rows as it is.
proof fn lemma_rows_with(line: Seq<char>, behind: Seq<char>)
    requires
        !behind.contains('\n'),
    ensures
        text::rows(line + behind).len() == text::rows(line).len(),
{
    text::lemma_row_count(line);
    text::lemma_row_count(line + behind);
    text::lemma_no_line_feeds(behind);
    Seq::filter_distributes_over_add(line, behind, |c: char| c == '\n');
}

/// A window leaves every coordinate where it was: it has as many rows as the file, and the
/// rows of the lines around the cursor are the file's own, at the same numbers.
pub proof fn lemma_windowed_rows(contents: Seq<char>, cursor_line: int)
    requires
        0 <= cursor_line,
        windowed(contents, cursor_line, line_ending_of(contents)) is Some,
    ensures
        ({
            let line_ending = line_ending_of(contents);
            let window = windowed(contents, cursor_line, line_ending)->0;
            let lines = text::split_by(contents, line_ending);
            let count = lines.len() as int;
            &&& text::rows(window).len() == text::rows(contents).len()
            &&& text::rows(contents).len() == first_row(lines, count)
            &&& forall|r: int|
                first_row(lines, window_start(cursor_line, count)) <= r < first_row(
                    lines,
                    window_end(cursor_line, count),
                ) ==> #[trigger] text::rows(window)[r] == text::rows(contents)[r]
        }),
{
    let line_ending = line_ending_of(contents);
    let window = windowed(contents, cursor_line, line_ending)->0;
    let lines = text::split_by(contents, line_ending);
    let count = lines.len() as int;
    let start = window_start(cursor_line, count);
    let end = window_end(cursor_line, count);
    let sent = blanked(lines, start, end);
    let none = Seq::<char>::empty();
    text::lemma_split_nonempty(contents, line_ending);
    text::lemma_join_split(contents, line_ending);
    assert forall|j: int| 0 <= j < lines.len() implies text::line_feeds(#[trigger] sent[j]).len()
        == text::line_feeds(lines[j]).len() by {
        text::lemma_line_feeds(lines[j]);
    }
    lemma_rows_of_lines(lines, count, line_ending, none);
    lemma_rows_of_lines(sent, count, line_ending, none);
    assert(lines.take(count) =~= lines);
    assert(sent.take(count) =~= sent);
    assert(contents + none =~= contents);
    assert(window + none =~= window);
    lemma_equal_rows(lines, sent, count, line_ending, none, start, end);
    lemma_first_row_monotone(lines, end, count);
}

/// Whether the lines of a file all have the given ending.
pub open spec fn uniform_endings(contents: Seq<char>, line_ending: Seq<char>) -> bool {
    forall|j: int|
        0 <= j < text::split_by(contents, line_ending).len() ==> !(
        #[trigger] text::split_by(contents, line_ending)[j]).contains('\n')
}

proof fn lemma_first_row_uniform(lines: Seq<Seq<char>>, j: int)
    requires
        0 <= j <= lines.len(),
        forall|i: int| 0 <= i < lines.len() ==> !(#[trigger] lines[i]).contains('\n'),
    ensures
        first_row(lines, j) == j,
    decreases j,
{
    if j > 0 {
        lemma_first_row_uniform(lines, j - 1);
        assert(!lines[j - 1].contains('\n'));
        text::lemma_no_line_feeds(lines[j - 1]);
        text::lemma_row_count(lines[j - 1]);
    }
}

/// In a file whose lines all have the same ending, the rows around the cursor are kept, and
/// with them the row of the cursor.
pub proof fn lemma_uniform_window(contents: Seq<char>, cursor_line: int)
    requires
        0 <= cursor_line < text::rows(contents).len(),
        uniform_endings(contents, line_ending_of(contents)),
        windowed(contents, cursor_line, line_ending_of(contents)) is Some,
    ensures
        ({
            let window = windowed(contents, cursor_line, line_ending_of(contents))->0;
            let count = text::rows(contents).len() as int;
            &&& text::rows(window).len() == count
            &&& window_start(cursor_line, count) <= cursor_line < window_end(cursor_line, count)
            &&& forall|i: int|
                window_start(cursor_line, count) <= i < window_end(cursor_line, count)
                    ==> #[trigger] text::rows(window)[i] == text::rows(contents)[i]
        }),
{
    let lines = text::split_by(contents, line_ending_of(contents));
    let count = lines.len() as int;
    lemma_windowed_rows(contents, cursor_line);
    lemma_first_row_uniform(lines, count);
    lemma_window_holds_cursor(cursor_line, count);
    lemma_first_row_uniform(lines, window_start(cursor_line, count));
    lemma_first_row_uniform(lines, window_end(cursor_line, count));
}

// ---------------------------------------------------------------------------
// Building a request
// ---------------------------------------------------------------------------

/// Why a request cannot be built from the given input, if it cannot.
pub open spec fn refusal(input: StreamCppRequestInput) -> Option<RequestError> {
    let count = text::rows(input.contents@).len() as int;
    if input.relative_workspace_path@.len() == 0 {
        Some(RequestError::EmptyPath)
    } else if input.language_id@.len() == 0 {
        Some(RequestError::EmptyLanguage)
    } else if !input.client_time.finite() || !input.time_since_request_start.finite()
        || !input.time_at_request_send.finite() {
        Some(RequestError::TimingNotFinite)
    } else if input.time_since_request_start.negative() {
        Some(RequestError::NegativeElapsedTime)
    } else if count > i32::MAX {
        Some(RequestError::TooManyLines)
    } else if !position_inside(input.cursor_position.line, input.cursor_position.column, count) {
        Some(RequestError::CursorOutside)
    } else {
        match input.selection {
            Some(selection) => selection_fault(selection, count),
            None => None,
        }
    }
}

/// Whether a request describes the current file of the given input. A large file is sent as
/// a window, which the hash of the whole file does not describe.
pub open spec fn describes_file(file: CurrentFileInfo, input: StreamCppRequestInput) -> bool {
    let line_ending = line_ending_of(input.contents@);
    let window = windowed(input.contents@, input.cursor_position.line as int, line_ending);
    &&& file.relative_workspace_path == input.relative_workspace_path
    &&& file.contents@ == match window {
        Some(window) => window,
        None => input.contents@,
    }
    &&& file.sha_256_hash == match window {
        Some(_) => None,
        None => input.sha_256_hash,
    }
    &&& file.cursor_position == Some(input.cursor_position)
    &&& file.dataframes@.len() == 0
    &&& file.language_id == input.language_id
    &&& file.selection == input.selection
    &&& file.diagnostics@.len() == 0
    &&& file.total_number_of_lines == text::rows(input.contents@).len()
    &&& file.contents_start_at_line == 0
    &&& file.top_chunks@.len() == 0
    &&& file.alternative_version_id is None
    &&& file.file_version == input.file_version
    &&& file.cell_start_lines@.len() == 0
    &&& file.cells@.len() == 0
    &&& !file.rely_on_filesync
    &&& file.workspace_root_path == input.workspace_root_path
    &&& file.line_ending is Some
    &&& file.line_ending->0@ == line_ending
}

/// Whether a request carries the diagnostics of the given input, if there are any.
pub open spec fn carries_diagnostics(
    errors: Option<LinterErrors>,
    input: StreamCppRequestInput,
) -> bool {
    match errors {
        None => input.linter_errors@.len() == 0,
        Some(errors) => {
            &&& input.linter_errors@.len() > 0
            &&& errors.relative_workspace_path@ == input.relative_workspace_path@
            &&& errors.errors == input.linter_errors
            &&& errors.file_contents@ == Seq::<char>::empty()
        },
    }
}

/// Whether a request is the one for the given input.
pub open spec fn is_request(request: StreamCppRequest, input: StreamCppRequestInput) -> bool {
    &&& request.current_file is Some
    &&& describes_file(request.current_file->0, input)
    &&& carries_diagnostics(request.linter_errors, input)
    &&& request.model_name == input.model_name
    &&& request.file_diff_histories == input.file_diff_histories
    &&& request.merged_diff_histories == input.merged_diff_histories
    &&& request.additional_files == input.additional_files
    &&& request.code_results == input.code_results
    &&& request.workspace_id == input.workspace_id
    &&& request.client_time == Some(input.client_time)
    &&& request.time_since_request_start == input.time_since_request_start
    &&& request.time_at_request_send == input.time_at_request_send
    &&& request.client_timezone_offset == input.client_timezone_offset
    &&& request.supports_cpt == Some(input.supports_cpt)
    &&& request.supports_crlf_cpt == Some(input.supports_crlf_cpt)
    &&& match input.intent_source {
        Some(source) => {
            &&& request.cpp_intent_info == Some(CppIntentInfo { source })
            &&& request.control_token == if source@ == "manual_trigger"@ {
                Some(ControlToken::Op.code())
            } else {
                None
            }
        },
        None => request.cpp_intent_info is None && request.control_token is None,
    }
    &&& request.diff_history@.len() == 0
    &&& request.diff_history_keys@.len() == 0
    &&& request.give_debug_output is None
    &&& request.block_diff_patches@.len() == 0
    &&& request.is_nightly is None
    &&& request.is_debug is None
    &&& request.immediately_ack is None
    &&& request.context_items@.len() == 0
    &&& request.parameter_hints@.len() == 0
    &&& request.lsp_contexts@.len() == 0
    &&& request.enable_more_context is None
    &&& request.filesync_updates@.len() == 0
    &&& request.lsp_suggested_items is None
}

impl StreamCppRequestInput {
    /// Why the request cannot be built, or how many lines the current file has.
    fn validate(&self) -> (r: Result<i32, RequestError>)
        ensures
            match r {
                Ok(count) => refusal(*self) is None && count == text::rows(self.contents@).len(),
                Err(error) => refusal(*self) == Some(error),
            },
    {
        if self.relative_workspace_path.as_str().is_empty() {
            return Err(RequestError::EmptyPath);
        }
        if self.language_id.as_str().is_empty() {
            return Err(RequestError::EmptyLanguage);
        }
        if !self.client_time.is_finite() || !self.time_since_request_start.is_finite()
            || !self.time_at_request_send.is_finite() {
            return Err(RequestError::TimingNotFinite);
        }
        if self.time_since_request_start.is_negative() {
            return Err(RequestError::NegativeElapsedTime);
        }
        let chars: Vec<char> = text::chars_of(self.contents.as_str());
        let rows: Vec<Vec<char>> = text::split_rows(chars.as_slice());
        assert(rows@.len() == text::rows(self.contents@).len());
        if rows.len() > i32::MAX as usize {
            return Err(RequestError::TooManyLines);
        }
        let count: i32 = rows.len() as i32;
        if let Err(error) = validate_position(
            self.cursor_position,
            count,
            RequestError::CursorOutside,
        ) {
            return Err(error);
        }
        if let Some(selection) = self.selection {
            if let Err(error) = validate_selection(selection, count) {
                return Err(error);
            }
        }
        Ok(count)
    }

    /// Builds the request. What is sent of the current file has as many rows as the file.
    pub fn build(self) -> (r: Result<StreamCppRequest, RequestError>)
        ensures
            match r {
                Ok(request) => {
                    &&& refusal(self) is None
                    &&& is_request(request, self)
                    &&& text::rows((request.current_file->0).contents@).len() == (
                    request.current_file->0).total_number_of_lines
                },
                Err(error) => refusal(self) == Some(error),
            },
    {
        let total_number_of_lines: i32 = match self.validate() {
            Ok(count) => count,
            Err(error) => {
                return Err(error);
            },
        };
        let chars: Vec<char> = text::chars_of(self.contents.as_str());
        let crlf: Vec<char> = vec!['\r', '\n'];
        assert(crlf@ =~= seq!['\r', '\n']);
        let line_ending: String = if text::find(chars.as_slice(), crlf.as_slice()).is_some() {
            text::string_of(crlf.as_slice())
        } else {
            let lf: Vec<char> = vec!['\n'];
            text::string_of(lf.as_slice())
        };
        assert(line_ending@ =~= line_ending_of(self.contents@));
        let window: Option<String> = window_current_file(
            self.contents.as_str(),
            self.cursor_position.line as usize,
            line_ending.as_str(),
        );
        proof {
            if window is Some {
                lemma_windowed_rows(self.contents@, self.cursor_position.line as int);
            }
        }
        let (contents, sha_256_hash): (String, Option<String>) = match window {
            Some(window) => (window, None),
            None => (self.contents, self.sha_256_hash),
        };
        let control_token: Option<i32> = match &self.intent_source {
            Some(source) => if text::same_str(source.as_str(), "manual_trigger") {
                Some(ControlToken::Op.number())
            } else {
                None
            },
            None => None,
        };
        let linter_errors: Option<LinterErrors> = if self.linter_errors.len() > 0 {
            Some(
                LinterErrors {
                    relative_workspace_path: self.relative_workspace_path.clone(),
                    errors: self.linter_errors,
                    file_contents: String::new(),
                },
            )
        } else {
            None
        };
        let cpp_intent_info: Option<CppIntentInfo> = match self.intent_source {
            Some(source) => Some(CppIntentInfo { source }),
            None => None,
        };
        let current_file: CurrentFileInfo = CurrentFileInfo {
            relative_workspace_path: self.relative_workspace_path,
            contents,
            cursor_position: Some(self.cursor_position),
            dataframes: Vec::new(),
            language_id: self.language_id,
            selection: self.selection,
            diagnostics: Vec::new(),
            total_number_of_lines,
            contents_start_at_line: 0,
            top_chunks: Vec::new(),
            alternative_version_id: None,
            file_version: self.file_version,
            cell_start_lines: Vec::new(),
            cells: Vec::new(),
            sha_256_hash,
            rely_on_filesync: false,
            workspace_root_path: self.workspace_root_path,
            line_ending: Some(line_ending),
        };
        Ok(
            StreamCppRequest {
                current_file: Some(current_file),
                diff_history: Vec::new(),
                model_name: self.model_name,
                linter_errors,
                diff_history_keys: Vec::new(),
                give_debug_output: None,
                file_diff_histories: self.file_diff_histories,
                merged_diff_histories: self.merged_diff_histories,
                block_diff_patches: Vec::new(),
                is_nightly: None,
                is_debug: None,
                immediately_ack: None,
                context_items: Vec::new(),
                parameter_hints: Vec::new(),
                lsp_contexts: Vec::new(),
                cpp_intent_info,
                enable_more_context: None,
                workspace_id: self.workspace_id,
                additional_files: self.additional_files,
                control_token,
                client_time: Some(self.client_time),
                filesync_updates: Vec::new(),
                time_since_request_start: self.time_since_request_start,
                time_at_request_send: self.time_at_request_send,
                client_timezone_offset: self.client_timezone_offset,
                lsp_suggested_items: None,
                supports_cpt: Some(self.supports_cpt),
                supports_crlf_cpt: Some(self.supports_crlf_cpt),
                code_results: self.code_results,
            },
        )
    }
}

// ---------------------------------------------------------------------------
// What a request says
// ---------------------------------------------------------------------------

/// A number is finite unless its exponent is the highest; it is negative when it has a sign,
/// is not zero and is a number.
pub proof fn lemma_number_classes(number: Double)
    ensures
        ({
            let exponent = number.bits as int / 0x10_0000_0000_0000 % 0x800;
            let fraction = number.bits as int % 0x10_0000_0000_0000;
            let signed = number.bits as int / 0x8000_0000_0000_0000 == 1;
            &&& number.finite() <==> exponent != 0x7ff
            &&& number.negative() <==> signed && (exponent != 0 || fraction != 0) && (exponent
                != 0x7ff || fraction == 0)
        }),
{
    let bits = number.bits as int;
    assert(bits == bits / 0x10_0000_0000_0000 * 0x10_0000_0000_0000 + bits % 0x10_0000_0000_0000);
    let high = bits / 0x10_0000_0000_0000;
    assert(high == high / 0x800 * 0x800 + high % 0x800);
    assert(0 <= high < 0x1000);
    assert(high / 0x800 == 0 || high / 0x800 == 1);
    let fraction = bits % 0x10_0000_0000_0000;
    if high / 0x800 == 0 {
        assert(bits == high % 0x800 * 0x10_0000_0000_0000 + fraction);
        assert(bits < 0x8000_0000_0000_0000);
    } else {
        assert(bits == 0x8000_0000_0000_0000 + high % 0x800 * 0x10_0000_0000_0000 + fraction);
        assert(bits % 0x8000_0000_0000_0000 == high % 0x800 * 0x10_0000_0000_0000 + fraction);
    }
}

/// The line ending of a file has a carriage return when one stands in front of a line feed
/// anywhere in the file.
pub proof fn lemma_line_ending(contents: Seq<char>)
    ensures
        (exists|i: int|
            0 <= i < contents.len() - 1 && #[trigger] contents[i] == '\r' && contents[i + 1]
                == '\n') ==> line_ending_of(contents) == seq!['\r', '\n'],
        (forall|i: int|
            0 <= i < contents.len() - 1 && #[trigger] contents[i] == '\r' ==> contents[i + 1]
                != '\n') ==> line_ending_of(contents) == seq!['\n'],
{
    let crlf = seq!['\r', '\n'];
    text::lemma_found(contents, crlf, 0);
    match text::find_from(contents, crlf, 0) {
        Some(i) => {
            assert(contents.subrange(i, i + 2)[0] == contents[i]);
            assert(contents.subrange(i, i + 2)[1] == contents[i + 1]);
            assert(contents[i] == '\r');
        },
        None => {
            assert forall|i: int|
                0 <= i < contents.len() - 1 && #[trigger] contents[i]
                    == '\r' implies contents[i + 1] != '\n' by {
                if contents[i + 1] == '\n' {
                    assert(contents.subrange(i, i + 2) =~= crlf);
                }
            }
        },
    }
}

/// A window has 600 lines, or all of a shorter file. The cursor's line is in the middle of it,
/// but for the start and the end of the file.
pub proof fn lemma_window_size(cursor_line: int, count: int)
    requires
        0 <= cursor_line < count,
    ensures
        ({
            let start = window_start(cursor_line, count);
            let end = window_end(cursor_line, count);
            &&& count <= 600 ==> start == 0 && end == count
            &&& count > 600 ==> end - start == 600
            &&& count > 600 && 300 <= cursor_line <= count - 300 ==> start == cursor_line - 300
            &&& count > 600 && cursor_line < 300 ==> start == 0
            &&& count > 600 && cursor_line > count - 300 ==> end == count
        }),
{
}

/// A file is sent as a window when it has 50,000 UTF-16 units or more, and more than 600
/// lines; otherwise it is sent whole.
pub proof fn lemma_when_windowed(contents: Seq<char>, cursor_line: int, line_ending: Seq<char>)
    requires
        0 <= cursor_line,
    ensures
        windowed(contents, cursor_line, line_ending) is Some <==> text::utf16_len(contents) >= 50000
            && text::split_by(contents, line_ending).len() > 600,
{
    text::lemma_split_nonempty(contents, line_ending);
}

/// A request can be built when its input has a path, a language and finite timings, the time
/// since its start is not negative, the lines can be counted, and the cursor and both ends of
/// the selection are in the file, the start not behind the end.
pub proof fn lemma_when_built(input: StreamCppRequestInput)
    ensures
        refusal(input) is None <==> {
            let count = text::rows(input.contents@).len();
            &&& input.relative_workspace_path@.len() > 0
            &&& input.language_id@.len() > 0
            &&& input.client_time.finite()
            &&& input.time_since_request_start.finite()
            &&& input.time_at_request_send.finite()
            &&& !input.time_since_request_start.negative()
            &&& count <= 0x7fff_ffff
            &&& 0 <= input.cursor_position.line < count
            &&& 0 <= input.cursor_position.column
            &&& match input.selection {
                Some(selection) => {
                    &&& 0 <= selection.start_line <= selection.end_line < count
                    &&& 0 <= selection.start_column
                    &&& 0 <= selection.end_column
                    &&& selection.start_line == selection.end_line ==> selection.start_column
                        <= selection.end_column
                },
                None => true,
            }
        },
        input.relative_workspace_path@.len() == 0 ==> refusal(input) == Some(
            RequestError::EmptyPath,
        ),
        input.relative_workspace_path@.len() > 0 && input.language_id@.len() == 0 ==> refusal(input)
            == Some(RequestError::EmptyLanguage),
{
}

/// A request describes the current file of its input, whole with its hash or as a window
/// without, and carries everything else of the input along. It asks for an answer to a request
/// that was asked for.
pub proof fn lemma_request_says(request: StreamCppRequest, input: StreamCppRequestInput)
    requires
        is_request(request, input),
        0 <= input.cursor_position.line,
    ensures
        ({
            let file = request.current_file->0;
            let lines = text::split_by(input.contents@, line_ending_of(input.contents@));
            let large = text::utf16_len(input.contents@) >= 50000 && lines.len() > 600;
            &&& request.current_file is Some
            &&& !large ==> file.contents@ == input.contents@ && file.sha_256_hash
                == input.sha_256_hash
            &&& large ==> file.sha_256_hash is None
            &&& text::rows(file.contents@).len() == text::rows(input.contents@).len()
            &&& file.total_number_of_lines == text::rows(input.contents@).len()
            &&& file.contents_start_at_line == 0
            &&& file.cursor_position == Some(input.cursor_position)
            &&& file.selection == input.selection
            &&& file.relative_workspace_path@ == input.relative_workspace_path@
            &&& file.workspace_root_path@ == input.workspace_root_path@
            &&& file.language_id@ == input.language_id@
            &&& file.file_version == input.file_version
            &&& !file.rely_on_filesync
            &&& file.line_ending is Some
            &&& file.line_ending->0@ == line_ending_of(input.contents@)
            &&& file.dataframes@.len() == 0
            &&& file.diagnostics@.len() == 0
            &&& file.top_chunks@.len() == 0
            &&& file.alternative_version_id is None
            &&& file.cell_start_lines@.len() == 0
            &&& file.cells@.len() == 0
            &&& request.linter_errors is Some <==> input.linter_errors@.len() > 0
            &&& request.linter_errors is Some ==> request.linter_errors->0.errors@
                == input.linter_errors@ && request.linter_errors->0.relative_workspace_path@
                == input.relative_workspace_path@
                && request.linter_errors->0.file_contents@.len() == 0
            &&& request.file_diff_histories@ == input.file_diff_histories@
            &&& request.merged_diff_histories@ == input.merged_diff_histories@
            &&& request.additional_files@ == input.additional_files@
            &&& request.code_results@ == input.code_results@
            &&& request.model_name == input.model_name
            &&& request.workspace_id == input.workspace_id
            &&& request.client_time == Some(input.client_time)
            &&& request.time_since_request_start == input.time_since_request_start
            &&& request.time_at_request_send == input.time_at_request_send
            &&& request.client_timezone_offset == input.client_timezone_offset
            &&& request.supports_cpt == Some(input.supports_cpt)
            &&& request.supports_crlf_cpt == Some(input.supports_crlf_cpt)
            &&& match (input.intent_source, request.cpp_intent_info) {
                (Some(source), Some(info)) => info.source@ == source@,
                (None, None) => true,
                _ => false,
            }
            &&& match input.intent_source {
                Some(source) => request.control_token == if source@ == "manual_trigger"@ {
                    Some(3i32)
                } else {
                    None
                },
                None => request.control_token is None,
            }
        }),
{
    let ending = line_ending_of(input.contents@);
    lemma_when_windowed(input.contents@, input.cursor_position.line as int, ending);
    if windowed(input.contents@, input.cursor_position.line as int, ending) is Some {
        lemma_windowed_rows(input.contents@, input.cursor_position.line as int);
    }
}

/// The lines of a window are those of the file inside it. Of a line outside nothing is left
/// that is not a line feed.
pub proof fn lemma_blanked(lines: Seq<Seq<char>>, start: int, end: int, i: int)
    requires
        0 <= i < lines.len(),
    ensures
        blanked(lines, start, end).len() == lines.len(),
        start <= i < end ==> blanked(lines, start, end)[i] == lines[i],
        !(start <= i < end) ==> {
            let left = blanked(lines, start, end)[i];
            &&& forall|k: int| 0 <= k < left.len() ==> #[trigger] left[k] == '\n'
            &&& text::rows(left).len() == text::rows(lines[i]).len()
        },
{
    text::lemma_line_feeds(lines[i]);
    text::lemma_row_count(lines[i]);
    text::lemma_row_count(text::line_feeds(lines[i]));
}

/// The reason for which a request is refused is one that holds, and no reason that is looked at
/// before it does.
pub proof fn lemma_why_refused(input: StreamCppRequestInput, reason: RequestError)
    requires
        refusal(input) == Some(reason),
    ensures
        ({
            let count = text::rows(input.contents@).len();
            let named = input.relative_workspace_path@.len() > 0 && input.language_id@.len() > 0;
            let timed = named && input.client_time.finite()
                && input.time_since_request_start.finite() && input.time_at_request_send.finite();
            let elapsed = timed && !input.time_since_request_start.negative();
            let counted = elapsed && count <= 0x7fff_ffff;
            let placed = counted && 0 <= input.cursor_position.line < count && 0
                <= input.cursor_position.column;
            let selection = input.selection->0;
            let started = placed && input.selection is Some && 0 <= selection.start_line < count
                && 0 <= selection.start_column;
            let ended = started && 0 <= selection.end_line < count && 0 <= selection.end_column;
            match reason {
                RequestError::EmptyPath => input.relative_workspace_path@.len() == 0,
                RequestError::EmptyLanguage => input.relative_workspace_path@.len() > 0
                    && input.language_id@.len() == 0,
                RequestError::TimingNotFinite => named && !timed,
                RequestError::NegativeElapsedTime => timed && !elapsed,
                RequestError::TooManyLines => elapsed && !counted,
                RequestError::CursorOutside => counted && !placed,
                RequestError::SelectionStartOutside => placed && input.selection is Some
                    && !started,
                RequestError::SelectionEndOutside => started && !ended,
                RequestError::SelectionReversed => ended && (selection.end_line
                    < selection.start_line || (selection.end_line == selection.start_line
                    && selection.end_column < selection.start_column)),
            }
        }),
{
}

/// The tokens are numbered from zero, the louder the higher.
pub proof fn lemma_token_numbers()
    ensures
        ControlToken::Unspecified.code() == 0,
        ControlToken::Quiet.code() == 1,
        ControlToken::Loud.code() == 2,
        ControlToken::Op.code() == 3,
{
}

} // verus!
