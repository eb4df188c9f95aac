//! What a request says of the project around the current file.

use crate::request::{
    AdditionalFile, CodeBlock, CodeRange, CodeResult, Double, FileDiffHistory, LineRange,
    LinterError, Position, RelatedInformation, Single,
};
use crate::snapshot;
use crate::snapshot::{PointUtf16, Snapshot};
use crate::text;
use vstd::prelude::*;
use vstd::slice::slice_subrange;

verus! {

/// The texts that a list of strings holds.
pub open spec fn strings(v: Seq<String>) -> Seq<Seq<char>> {
    Seq::new(v.len(), |i: int| v[i]@)
}

/// A number as a signed one, as far as it fits.
pub open spec fn saturated(n: int) -> i32 {
    if n <= i32::MAX {
        n as i32
    } else {
        i32::MAX
    }
}

/// A number as a signed one, as far as it fits.
fn saturate(n: u32) -> (r: i32)
    ensures
        r == saturated(n as int),
{
    if n <= i32::MAX as u32 {
        n as i32
    } else {
        i32::MAX
    }
}

// ---------------------------------------------------------------------------
// Recent changes
// ---------------------------------------------------------------------------

/// A change of a file.
pub struct HistoryEvent {
    pub path: String,
    pub diff: String,
}

/// The path of a changed file, relative to the project when the current file shows where the
/// project is.
pub open spec fn history_path(
    path: Seq<char>,
    full_path: Option<Seq<char>>,
    relative_path: Seq<char>,
) -> Seq<char> {
    match full_path {
        Some(full_path) => {
            let root = full_path.take(full_path.len() - relative_path.len());
            if path == relative_path {
                path
            } else if full_path == path {
                relative_path
            } else if text::has_suffix(full_path, relative_path) && root.len() > 0
                && text::has_prefix(path, root) && path.len() > root.len() {
                path.skip(root.len() as int)
            } else {
                path
            }
        },
        None => path,
    }
}

/// The view of an optional string.
pub open spec fn optional_text(s: Option<&str>) -> Option<Seq<char>> {
    match s {
        Some(s) => Some(s@),
        None => None,
    }
}

/// The path of a changed file, relative to the project where that is known.
pub fn cursor_relative_history_path(
    path: &str,
    current_file_full_path: Option<&str>,
    current_file_relative_path: &str,
) -> (r: String)
    ensures
        r@ == history_path(
            path@,
            optional_text(current_file_full_path),
            current_file_relative_path@,
        ),
{
    if text::same_str(path, current_file_relative_path) {
        return path.to_owned();
    }
    if let Some(full_path) = current_file_full_path {
        if text::same_str(full_path, path) {
            return current_file_relative_path.to_owned();
        }
        let full: Vec<char> = text::chars_of(full_path);
        let relative: Vec<char> = text::chars_of(current_file_relative_path);
        if text::ends_with(full.as_slice(), relative.as_slice()) {
            let end: usize = full.len() - relative.len();
            assert(full@.subrange(0, end as int) =~= full@.take(end as int));
            let root: &[char] = slice_subrange(full.as_slice(), 0, end);
            let changed: Vec<char> = text::chars_of(path);
            if root.len() > 0 && text::starts_with(changed.as_slice(), root) && changed.len()
                > root.len() {
                assert(changed@.subrange(root@.len() as int, changed@.len() as int)
                    =~= changed@.skip(root@.len() as int));
                return text::string_of(
                    slice_subrange(changed.as_slice(), root.len(), changed.len()),
                );
            }
        }
    }
    path.to_owned()
}

/// Whether one text stands before another in the order of their characters.
pub open spec fn sorts_before(a: Seq<char>, b: Seq<char>) -> bool
    decreases a.len(),
{
    if b.len() == 0 {
        false
    } else if a.len() == 0 {
        true
    } else {
        a[0] < b[0] || (a[0] == b[0] && sorts_before(a.drop_first(), b.drop_first()))
    }
}

/// The order of texts is transitive.
pub proof fn lemma_sorts_transitive(a: Seq<char>, b: Seq<char>, c: Seq<char>)
    requires
        sorts_before(a, b),
        sorts_before(b, c),
    ensures
        sorts_before(a, c),
    decreases a.len(),
{
    if a.len() > 0 && a[0] == b[0] && b[0] == c[0] {
        lemma_sorts_transitive(a.drop_first(), b.drop_first(), c.drop_first());
    }
}

/// Of two different texts exactly one stands before the other.
pub proof fn lemma_sorts_total(a: Seq<char>, b: Seq<char>)
    ensures
        sorts_before(a, b) || sorts_before(b, a) || a == b,
        !(sorts_before(a, b) && sorts_before(b, a)),
        !sorts_before(a, a),
    decreases a.len(),
{
    if a.len() > 0 {
        if b.len() > 0 {
            lemma_sorts_total(a.drop_first(), b.drop_first());
            if a[0] == b[0] && a.drop_first() == b.drop_first() {
                assert(a =~= seq![a[0]] + a.drop_first());
                assert(b =~= seq![b[0]] + b.drop_first());
            }
        } else {
            lemma_sorts_total(a.drop_first(), b);
        }
    } else if b.len() == 0 {
        assert(a =~= b);
    }
}

/// Whether one text stands before another.
fn does_sort_before(a: &[char], b: &[char]) -> (r: bool)
    ensures
        r == sorts_before(a@, b@),
{
    let mut i: usize = 0;
    assert(a@.skip(0) =~= a@);
    assert(b@.skip(0) =~= b@);
    while i < a.len() && i < b.len()
        invariant
            i <= a@.len(),
            i <= b@.len(),
            sorts_before(a@, b@) == sorts_before(a@.skip(i as int), b@.skip(i as int)),
        decreases a@.len() - i,
    {
        if a[i] < b[i] {
            return true;
        }
        if b[i] < a[i] {
            return false;
        }
        assert(a@.skip(i as int).drop_first() =~= a@.skip(i + 1));
        assert(b@.skip(i as int).drop_first() =~= b@.skip(i + 1));
        i += 1;
    }
    i < b.len()
}

/// The name under which a change is filed.
pub open spec fn event_name(
    event: HistoryEvent,
    full_path: Option<Seq<char>>,
    relative_path: Seq<char>,
) -> Seq<char> {
    history_path(event.path@, full_path, relative_path)
}

/// The changes that are filed under a name, in order.
pub open spec fn changes_of(
    events: Seq<HistoryEvent>,
    full_path: Option<Seq<char>>,
    relative_path: Seq<char>,
    name: Seq<char>,
) -> Seq<Seq<char>>
    decreases events.len(),
{
    if events.len() == 0 {
        Seq::empty()
    } else {
        let before = changes_of(events.drop_last(), full_path, relative_path, name);
        if event_name(events.last(), full_path, relative_path) == name {
            before.push(events.last().diff@)
        } else {
            before
        }
    }
}

/// Whether histories hold changes by name: each name once, in order, with its changes.
pub open spec fn are_histories(
    histories: Seq<FileDiffHistory>,
    events: Seq<HistoryEvent>,
    full_path: Option<Seq<char>>,
    relative_path: Seq<char>,
) -> bool {
    &&& forall|i: int, j: int|
        0 <= i < j < histories.len() ==> sorts_before(
            (#[trigger] histories[i]).file_name@,
            (#[trigger] histories[j]).file_name@,
        )
    &&& forall|i: int|
        0 <= i < histories.len() ==> {
            let history = #[trigger] histories[i];
            &&& strings(history.diff_history@) == changes_of(
                events,
                full_path,
                relative_path,
                history.file_name@,
            )
            &&& history.diff_history@.len() > 0
            &&& history.diff_history_timestamps@.len() == 0
        }
    &&& forall|k: int|
        0 <= k < events.len() ==> has_name(
            histories,
            event_name(#[trigger] events[k], full_path, relative_path),
        )
}

/// Whether one of the histories has the given name.
pub open spec fn has_name(histories: Seq<FileDiffHistory>, name: Seq<char>) -> bool {
    exists|i: int| 0 <= i < histories.len() && (#[trigger] histories[i]).file_name@ == name
}

proof fn lemma_changes_without_name(
    events: Seq<HistoryEvent>,
    full_path: Option<Seq<char>>,
    relative_path: Seq<char>,
    name: Seq<char>,
)
    requires
        forall|k: int|
            0 <= k < events.len() ==> event_name(#[trigger] events[k], full_path, relative_path)
                != name,
    ensures
        changes_of(events, full_path, relative_path, name).len() == 0,
    decreases events.len(),
{
    if events.len() > 0 {
        assert(events[events.len() - 1] == events.last());
        lemma_changes_without_name(events.drop_last(), full_path, relative_path, name);
    }
}

/// The index of the first history whose name does not stand before the given one.
fn find_history(histories: &Vec<FileDiffHistory>, name: &[char]) -> (at: usize)
    ensures
        at <= histories@.len(),
        forall|i: int|
            0 <= i < at ==> sorts_before((#[trigger] histories@[i]).file_name@, name@),
        at < histories@.len() ==> !sorts_before(histories@[at as int].file_name@, name@),
{
    let mut at: usize = 0;
    while at < histories.len()
        invariant
            at <= histories@.len(),
            forall|i: int|
                0 <= i < at ==> sorts_before((#[trigger] histories@[i]).file_name@, name@),
        decreases histories@.len() - at,
    {
        let other: Vec<char> = text::chars_of(histories[at].file_name.as_str());
        if !does_sort_before(other.as_slice(), name) {
            return at;
        }
        at += 1;
    }
    at
}

/// Files one more change.
fn file_change(
    histories: &mut Vec<FileDiffHistory>,
    name: String,
    diff: String,
    Ghost(events): Ghost<Seq<HistoryEvent>>,
    Ghost(event): Ghost<HistoryEvent>,
    Ghost(full_path): Ghost<Option<Seq<char>>>,
    Ghost(relative_path): Ghost<Seq<char>>,
)
    requires
        are_histories(old(histories)@, events, full_path, relative_path),
        name@ == event_name(event, full_path, relative_path),
        diff@ == event.diff@,
    ensures
        are_histories(final(histories)@, events.push(event), full_path, relative_path),
{
    let ghost before = histories@;
    let ghost longer = events.push(event);
    let chars: Vec<char> = text::chars_of(name.as_str());
    let at: usize = find_history(&*histories, chars.as_slice());
    assert(longer.drop_last() =~= events);
    assert(longer.last() == event);
    let known: bool = at < histories.len() && text::same_str(
        histories[at].file_name.as_str(),
        name.as_str(),
    );
    if known {
        let history: &mut FileDiffHistory = &mut histories[at];
        let ghost held = history.diff_history@;
        history.diff_history.push(diff);
        assert(strings(history.diff_history@) =~= strings(held).push(diff@));
        proof {
            let after = histories@;
            assert(after.len() == before.len());
            assert forall|i: int| 0 <= i < after.len() implies after[i].file_name@
                == before[i].file_name@ && (i != at ==> after[i] == before[i]) by {}
            assert forall|i: int| 0 <= i < after.len() implies {
                let history = #[trigger] after[i];
                &&& strings(history.diff_history@) == changes_of(
                    longer,
                    full_path,
                    relative_path,
                    history.file_name@,
                )
                &&& history.diff_history@.len() > 0
                &&& history.diff_history_timestamps@.len() == 0
            } by {
                assert(before[i].diff_history@.len() > 0);
                if i < at {
                    lemma_sorts_total(before[i].file_name@, name@);
                } else if i > at {
                    assert(sorts_before(before[at as int].file_name@, before[i].file_name@));
                    lemma_sorts_total(before[i].file_name@, name@);
                }
            }
            assert forall|i: int, j: int| 0 <= i < j < after.len() implies sorts_before(
                (#[trigger] after[i]).file_name@,
                (#[trigger] after[j]).file_name@,
            ) by {
                assert(sorts_before(before[i].file_name@, before[j].file_name@));
            }
            assert forall|k: int| 0 <= k < longer.len() implies has_name(
                after,
                event_name(#[trigger] longer[k], full_path, relative_path),
            ) by {
                if k < events.len() {
                    assert(longer[k] == events[k]);
                    let i = choose|i: int|
                        0 <= i < before.len() && (#[trigger] before[i]).file_name@ == event_name(
                            events[k],
                            full_path,
                            relative_path,
                        );
                    assert(after[i].file_name@ == before[i].file_name@);
                } else {
                    assert(after[at as int].file_name@ == name@);
                }
            }
        }
    } else {
        proof {
            assert forall|i: int| 0 <= i < before.len() implies (
            #[trigger] before[i]).file_name@ != name@ by {
                if i < at {
                    lemma_sorts_total(before[i].file_name@, name@);
                } else if i > at {
                    assert(sorts_before(before[at as int].file_name@, before[i].file_name@));
                    lemma_sorts_total(before[i].file_name@, before[at as int].file_name@);
                }
            }
            assert forall|k: int| 0 <= k < events.len() implies event_name(
                #[trigger] events[k],
                full_path,
                relative_path,
            ) != name@ by {
                assert(has_name(before, event_name(events[k], full_path, relative_path)));
            }
            lemma_changes_without_name(events, full_path, relative_path, name@);
        }
        let timestamps: Vec<Double> = Vec::new();
        let history: FileDiffHistory = FileDiffHistory {
            file_name: name,
            diff_history: vec![diff],
            diff_history_timestamps: timestamps,
        };
        assert(strings(history.diff_history@) =~= Seq::<Seq<char>>::empty().push(diff@));
        histories.insert(at, history);
        proof {
            let after = histories@;
            assert(after =~= before.insert(at as int, history));
            assert forall|i: int| 0 <= i < after.len() implies {
                let history = #[trigger] after[i];
                &&& strings(history.diff_history@) == changes_of(
                    longer,
                    full_path,
                    relative_path,
                    history.file_name@,
                )
                &&& history.diff_history@.len() > 0
                &&& history.diff_history_timestamps@.len() == 0
            } by {
                if i < at {
                    assert(after[i] == before[i]);
                } else if i > at {
                    assert(after[i] == before[i - 1]);
                } else {
                    assert(changes_of(events, full_path, relative_path, name@) =~= Seq::empty());
                }
            }
            assert forall|i: int, j: int| 0 <= i < j < after.len() implies sorts_before(
                (#[trigger] after[i]).file_name@,
                (#[trigger] after[j]).file_name@,
            ) by {
                let a = if i < at {
                    i
                } else {
                    i - 1
                };
                let b = if j < at {
                    j
                } else {
                    j - 1
                };
                if i != at && j != at {
                    assert(sorts_before(before[a].file_name@, before[b].file_name@));
                } else if i == at {
                    let next = before[at as int].file_name@;
                    lemma_sorts_total(next, name@);
                    assert(sorts_before(name@, next));
                    if b > at {
                        assert(sorts_before(next, before[b].file_name@));
                        lemma_sorts_transitive(name@, next, before[b].file_name@);
                    }
                }
            }
            assert forall|k: int| 0 <= k < longer.len() implies has_name(
                after,
                event_name(#[trigger] longer[k], full_path, relative_path),
            ) by {
                if k < events.len() {
                    assert(longer[k] == events[k]);
                    let i = choose|i: int|
                        0 <= i < before.len() && (#[trigger] before[i]).file_name@ == event_name(
                            events[k],
                            full_path,
                            relative_path,
                        );
                    if i < at {
                        assert(after[i] == before[i]);
                    } else {
                        assert(after[i + 1] == before[i]);
                    }
                } else {
                    assert(after[at as int].file_name@ == name@);
                }
            }
        }
    }
}

/// The recent changes by file, in the order of the files' names.
pub fn file_diff_histories(
    events: &Vec<HistoryEvent>,
    current_file_full_path: Option<&str>,
    current_file_relative_path: &str,
) -> (histories: Vec<FileDiffHistory>)
    ensures
        are_histories(
            histories@,
            events@,
            optional_text(current_file_full_path),
            current_file_relative_path@,
        ),
{
    let mut histories: Vec<FileDiffHistory> = Vec::new();
    let ghost full_path = optional_text(current_file_full_path);
    let mut i: usize = 0;
    while i < events.len()
        invariant
            i <= events@.len(),
            full_path == optional_text(current_file_full_path),
            are_histories(
                histories@,
                events@.take(i as int),
                full_path,
                current_file_relative_path@,
            ),
        decreases events@.len() - i,
    {
        let event: &HistoryEvent = &events[i];
        let name: String = cursor_relative_history_path(
            event.path.as_str(),
            current_file_full_path,
            current_file_relative_path,
        );
        assert(events@.take(i + 1) =~= events@.take(i as int).push(*event));
        file_change(
            &mut histories,
            name,
            event.diff.clone(),
            Ghost(events@.take(i as int)),
            Ghost(*event),
            Ghost(full_path),
            Ghost(current_file_relative_path@),
        );
        i += 1;
    }
    assert(events@.take(i as int) =~= events@);
    histories
}

// ---------------------------------------------------------------------------
// Other files
// ---------------------------------------------------------------------------

/// How many rows around the cursor of another open file are sent.
pub const OPEN_FILE_RADIUS: u32 = 100;

/// A part of a related file.
pub struct RelatedExcerpt {
    pub start_row: u32,
    pub end_row: u32,
    pub text: String,
    pub score: Single,
}

/// A file that is related to the current one.
pub struct RelatedFile {
    pub path: String,
    pub is_active: bool,
    pub snapshot: Snapshot,
    pub excerpts: Vec<RelatedExcerpt>,
}

/// An open file.
pub struct OpenFile {
    pub path: Option<String>,
    pub is_active: bool,
    pub snapshot: Snapshot,
}

/// A file that was opened recently, and where its cursor was.
pub struct RecentFile {
    pub path: String,
    pub cursor_offset: Option<usize>,
}

/// What a request says of the project.
pub struct CursorTabRequestContext {
    pub file_diff_histories: Vec<FileDiffHistory>,
    pub additional_files: Vec<AdditionalFile>,
    pub code_results: Vec<CodeResult>,
}

/// A row of a document, or its last row when it has no such row.
pub open spec fn row_within(rows: Seq<Seq<char>>, row: u32) -> int {
    if row < rows.len() {
        row as int
    } else {
        rows.len() - 1
    }
}

/// A row of a document, or its last row when it has no such row.
fn clamp_row(snapshot: &Snapshot, row: u32) -> (r: u32)
    ensures
        r == row_within(snapshot@, row),
        r < snapshot@.len(),
        snapshot::document_rows(snapshot@),
{
    let max_row: u32 = snapshot.max_row();
    if row <= max_row {
        row
    } else {
        max_row
    }
}

/// The number of the line at a row, counted from one.
pub open spec fn line_number(row: int) -> i32 {
    saturated(
        if row < u32::MAX {
            row + 1
        } else {
            row
        },
    )
}

/// The number of the line at a row, counted from one.
fn line_number_of(row: u32) -> (n: i32)
    ensures
        n == line_number(row as int),
{
    if row < u32::MAX {
        saturate(row + 1)
    } else {
        saturate(row)
    }
}

/// A range of rows as a range of lines.
pub open spec fn line_range(start_row: int, end_row: int) -> LineRange {
    LineRange {
        start_line_number: saturated(start_row),
        end_line_number_inclusive: saturated(end_row),
    }
}

/// Whether a piece of code is an excerpt of a related file.
pub open spec fn is_code_result(
    result: CodeResult,
    path: Seq<char>,
    rows: Seq<Seq<char>>,
    excerpt: RelatedExcerpt,
) -> bool {
    let start_row = row_within(rows, excerpt.start_row);
    let end_row = row_within(rows, excerpt.end_row);
    &&& result.score == excerpt.score
    &&& match result.code_block {
        None => false,
        Some(block) => {
            &&& block.relative_workspace_path@ == path
            &&& block.file_contents is None
            &&& block.contents@ == excerpt.text@
            &&& block.range == Some(
                CodeRange {
                    start_position: Some(Position { line: saturated(start_row), column: 0 }),
                    end_position: Some(
                        Position {
                            line: saturated(end_row),
                            column: saturated(text::byte_len(rows[end_row]) as int),
                        },
                    ),
                },
            )
        },
    }
}

/// Whether an additional file shows the first `count` excerpts of a related file.
pub open spec fn shows_excerpts(file: AdditionalFile, related: RelatedFile, count: int) -> bool {
    let rows = related.snapshot@;
    &&& file.relative_workspace_path@ == related.path@
    &&& file.is_open
    &&& file.last_viewed_at is None
    &&& file.visible_range_content@.len() == count
    &&& file.start_line_number_one_indexed@.len() == count
    &&& file.visible_ranges@.len() == count
    &&& forall|i: int|
        0 <= i < count ==> (#[trigger] file.visible_range_content@[i])@
            == related.excerpts@[i].text@
    &&& forall|i: int|
        0 <= i < count ==> #[trigger] file.start_line_number_one_indexed@[i] == line_number(
            row_within(rows, related.excerpts@[i].start_row),
        )
    &&& forall|i: int|
        0 <= i < count ==> #[trigger] file.visible_ranges@[i] == line_range(
            row_within(rows, related.excerpts@[i].start_row),
            row_within(rows, related.excerpts@[i].end_row),
        )
}

/// Whether pieces of code are the first `count` excerpts of a related file.
pub open spec fn are_code_results(
    results: Seq<CodeResult>,
    related: RelatedFile,
    count: int,
) -> bool {
    &&& results.len() == count
    &&& forall|i: int|
        0 <= i < count ==> is_code_result(
            #[trigger] results[i],
            related.path@,
            related.snapshot@,
            related.excerpts@[i],
        )
}

/// Shows the excerpts of a related file, as parts of the file and as pieces of code.
fn show_excerpts(related: &RelatedFile) -> (r: (AdditionalFile, Vec<CodeResult>))
    ensures
        shows_excerpts(r.0, *related, related.excerpts@.len() as int),
        are_code_results(r.1@, *related, related.excerpts@.len() as int),
{
    let mut visible_range_content: Vec<String> = Vec::new();
    let mut start_line_number_one_indexed: Vec<i32> = Vec::new();
    let mut visible_ranges: Vec<LineRange> = Vec::new();
    let mut results: Vec<CodeResult> = Vec::new();
    let ghost rows = related.snapshot@;
    let mut i: usize = 0;
    while i < related.excerpts.len()
        invariant
            i <= related.excerpts@.len(),
            rows == related.snapshot@,
            visible_range_content@.len() == i,
            start_line_number_one_indexed@.len() == i,
            visible_ranges@.len() == i,
            are_code_results(results@, *related, i as int),
            forall|j: int|
                0 <= j < i ==> (#[trigger] visible_range_content@[j])@
                    == related.excerpts@[j].text@,
            forall|j: int|
                0 <= j < i ==> #[trigger] start_line_number_one_indexed@[j] == line_number(
                    row_within(rows, related.excerpts@[j].start_row),
                ),
            forall|j: int|
                0 <= j < i ==> #[trigger] visible_ranges@[j] == line_range(
                    row_within(rows, related.excerpts@[j].start_row),
                    row_within(rows, related.excerpts@[j].end_row),
                ),
        decreases related.excerpts@.len() - i,
    {
        let excerpt: &RelatedExcerpt = &related.excerpts[i];
        let start_row: u32 = clamp_row(&related.snapshot, excerpt.start_row);
        let end_row: u32 = clamp_row(&related.snapshot, excerpt.end_row);
        visible_range_content.push(excerpt.text.clone());
        start_line_number_one_indexed.push(line_number_of(start_row));
        visible_ranges.push(
            LineRange {
                start_line_number: saturate(start_row),
                end_line_number_inclusive: saturate(end_row),
            },
        );
        let column: i32 = saturate(related.snapshot.line_len(end_row));
        let result: CodeResult = CodeResult {
            code_block: Some(
                CodeBlock {
                    relative_workspace_path: related.path.clone(),
                    file_contents: None,
                    range: Some(
                        CodeRange {
                            start_position: Some(
                                Position { line: saturate(start_row), column: 0 },
                            ),
                            end_position: Some(Position { line: saturate(end_row), column }),
                        },
                    ),
                    contents: excerpt.text.clone(),
                },
            ),
            score: excerpt.score,
        };
        let ghost held = results@;
        results.push(result);
        assert forall|j: int| 0 <= j < i + 1 implies is_code_result(
            #[trigger] results@[j],
            related.path@,
            related.snapshot@,
            related.excerpts@[j],
        ) by {
            if j < i {
                assert(results@[j] == held[j]);
            }
        }
        i += 1;
    }
    (
        AdditionalFile {
            relative_workspace_path: related.path.clone(),
            is_open: true,
            visible_range_content,
            last_viewed_at: None,
            start_line_number_one_indexed,
            visible_ranges,
        },
        results,
    )
}

/// The related files that are shown: those with excerpts, but for the current one.
pub open spec fn shown_files(related: Seq<RelatedFile>) -> Seq<RelatedFile>
    decreases related.len(),
{
    if related.len() == 0 {
        Seq::empty()
    } else if related.last().is_active || related.last().excerpts@.len() == 0 {
        shown_files(related.drop_last())
    } else {
        shown_files(related.drop_last()).push(related.last())
    }
}

/// Whether additional files show the given related files, one for one.
pub open spec fn all_shown(files: Seq<AdditionalFile>, shown: Seq<RelatedFile>) -> bool {
    &&& files.len() == shown.len()
    &&& forall|i: int|
        0 <= i < shown.len() ==> shows_excerpts(
            #[trigger] files[i],
            shown[i],
            shown[i].excerpts@.len() as int,
        )
}

/// Whether pieces of code are all excerpts of the given related files, in order.
pub open spec fn all_code_results(results: Seq<CodeResult>, shown: Seq<RelatedFile>) -> bool
    decreases shown.len(),
{
    if shown.len() == 0 {
        results.len() == 0
    } else {
        let count = shown.last().excerpts@.len() as int;
        &&& results.len() >= count
        &&& all_code_results(results.take(results.len() - count), shown.drop_last())
        &&& are_code_results(results.skip(results.len() - count), shown.last(), count)
    }
}

/// Shows the related files.
fn show_related_files(related: &Vec<RelatedFile>) -> (r: (Vec<AdditionalFile>, Vec<CodeResult>))
    ensures
        all_shown(r.0@, shown_files(related@)),
        all_code_results(r.1@, shown_files(related@)),
{
    let mut files: Vec<AdditionalFile> = Vec::new();
    let mut results: Vec<CodeResult> = Vec::new();
    let mut i: usize = 0;
    while i < related.len()
        invariant
            i <= related@.len(),
            all_shown(files@, shown_files(related@.take(i as int))),
            all_code_results(results@, shown_files(related@.take(i as int))),
        decreases related@.len() - i,
    {
        let file: &RelatedFile = &related[i];
        let ghost before = shown_files(related@.take(i as int));
        assert(related@.take(i + 1).drop_last() =~= related@.take(i as int));
        if !file.is_active && file.excerpts.len() > 0 {
            let (shown, pieces): (AdditionalFile, Vec<CodeResult>) = show_excerpts(file);
            let ghost held_files = files@;
            let ghost held = results@;
            let ghost added = pieces@;
            files.push(shown);
            let mut pieces = pieces;
            results.append(&mut pieces);
            proof {
                let now = before.push(*file);
                assert(now.drop_last() =~= before);
                assert(results@ =~= held + added);
                assert(results@.take(results@.len() - added.len()) =~= held);
                assert(results@.skip(results@.len() - added.len()) =~= added);
                assert forall|j: int| 0 <= j < now.len() implies shows_excerpts(
                    #[trigger] files@[j],
                    now[j],
                    now[j].excerpts@.len() as int,
                ) by {
                    if j < held_files.len() {
                        assert(files@[j] == held_files[j]);
                    }
                }
            }
        }
        i += 1;
    }
    assert(related@.take(i as int) =~= related@);
    (files, results)
}

/// Where the cursor of a file was when it was last opened, if that is known.
pub open spec fn recent_cursor(recent: Seq<RecentFile>, path: Seq<char>) -> Option<usize>
    decreases recent.len(),
{
    if recent.len() == 0 {
        None
    } else if recent.last().path@ == path {
        recent.last().cursor_offset
    } else {
        recent_cursor(recent.drop_last(), path)
    }
}

/// Where the cursor of a file was when it was last opened, if that is known.
fn find_recent_cursor(recent: &Vec<RecentFile>, path: &str) -> (r: Option<usize>)
    ensures
        r == recent_cursor(recent@, path@),
{
    let mut i: usize = recent.len();
    assert(recent@.take(i as int) =~= recent@);
    while i > 0
        invariant
            i <= recent@.len(),
            recent_cursor(recent@, path@) == recent_cursor(recent@.take(i as int), path@),
        decreases i,
    {
        i -= 1;
        assert(recent@.take(i + 1).drop_last() =~= recent@.take(i as int));
        if text::same_str(recent[i].path.as_str(), path) {
            return recent[i].cursor_offset;
        }
    }
    None
}

/// Whether a path is that of one of the files.
pub open spec fn has_path(files: Seq<RelatedFile>, path: Seq<char>) -> bool {
    exists|i: int| 0 <= i < files.len() && (#[trigger] files[i]).path@ == path
}

/// The row of the cursor in an open file that is shown, which is one that has a path and a
/// known cursor, is not the current one, and is not shown as a related file.
pub open spec fn open_file_row(
    open: OpenFile,
    shown: Seq<RelatedFile>,
    recent: Seq<RecentFile>,
) -> Option<int> {
    match open.path {
        None => None,
        Some(path) => if open.is_active || has_path(shown, path@) {
            None
        } else {
            match recent_cursor(recent, path@) {
                Some(offset) => Some(snapshot::row_at(open.snapshot@, offset as int)),
                None => None,
            }
        },
    }
}

/// Whether an additional file shows an open file around the given row.
pub open spec fn shows_around(file: AdditionalFile, open: OpenFile, row: int) -> bool {
    let rows = open.snapshot@;
    let start_row = if row >= OPEN_FILE_RADIUS {
        row - OPEN_FILE_RADIUS
    } else {
        0
    };
    let end_row = if row + OPEN_FILE_RADIUS < rows.len() {
        row + OPEN_FILE_RADIUS
    } else {
        rows.len() - 1
    };
    &&& open.path is Some
    &&& file.relative_workspace_path@ == open.path->0@
    &&& file.is_open
    &&& file.last_viewed_at is None
    &&& file.visible_range_content@.len() == 1
    &&& file.visible_range_content@[0]@ == text::join(
        rows.subrange(start_row, end_row + 1),
        seq!['\n'],
    )
    &&& file.start_line_number_one_indexed@ == seq![line_number(start_row)]
    &&& file.visible_ranges@ == seq![line_range(start_row, end_row)]
}

/// Whether additional files show those open files that are to be shown, in order.
pub open spec fn open_files_shown(
    files: Seq<AdditionalFile>,
    open: Seq<OpenFile>,
    shown: Seq<RelatedFile>,
    recent: Seq<RecentFile>,
) -> bool
    decreases open.len(),
{
    if open.len() == 0 {
        files.len() == 0
    } else {
        match open_file_row(open.last(), shown, recent) {
            None => open_files_shown(files, open.drop_last(), shown, recent),
            Some(row) => {
                &&& files.len() > 0
                &&& open_files_shown(files.drop_last(), open.drop_last(), shown, recent)
                &&& shows_around(files.last(), open.last(), row)
            },
        }
    }
}

/// Shows an open file around the given row.
fn show_around(open: &OpenFile, path: &String, row: u32) -> (file: AdditionalFile)
    requires
        row < open.snapshot@.len(),
        open.path == Some(*path),
    ensures
        shows_around(file, *open, row as int),
{
    let max_row: u32 = open.snapshot.max_row();
    let start_row: u32 = if row >= OPEN_FILE_RADIUS {
        row - OPEN_FILE_RADIUS
    } else {
        0
    };
    let end_row: u32 = if max_row - row >= OPEN_FILE_RADIUS {
        row + OPEN_FILE_RADIUS
    } else {
        max_row
    };
    let content: String = open.snapshot.text_of_rows(start_row, end_row);
    let range: LineRange = LineRange {
        start_line_number: saturate(start_row),
        end_line_number_inclusive: saturate(end_row),
    };
    let file: AdditionalFile = AdditionalFile {
        relative_workspace_path: path.clone(),
        is_open: true,
        visible_range_content: vec![content],
        last_viewed_at: None,
        start_line_number_one_indexed: vec![line_number_of(start_row)],
        visible_ranges: vec![range],
    };
    assert(file.start_line_number_one_indexed@ =~= seq![line_number(start_row as int)]);
    assert(file.visible_ranges@ =~= seq![line_range(start_row as int, end_row as int)]);
    file
}

/// Whether a path is that of one of the files that are shown.
fn is_shown(related: &Vec<RelatedFile>, path: &str) -> (r: bool)
    ensures
        r == has_path(shown_files(related@), path@),
{
    let mut found: bool = false;
    let mut i: usize = 0;
    while i < related.len()
        invariant
            i <= related@.len(),
            found == has_path(shown_files(related@.take(i as int)), path@),
        decreases related@.len() - i,
    {
        let file: &RelatedFile = &related[i];
        assert(related@.take(i + 1).drop_last() =~= related@.take(i as int));
        let ghost before = shown_files(related@.take(i as int));
        if !file.is_active && file.excerpts.len() > 0 {
            let same: bool = text::same_str(file.path.as_str(), path);
            proof {
                let now = before.push(*file);
                if found {
                    let j = choose|j: int|
                        0 <= j < before.len() && (#[trigger] before[j]).path@ == path@;
                    assert(now[j].path@ == path@);
                }
                if same {
                    assert(now[before.len() as int].path@ == path@);
                }
                if has_path(now, path@) {
                    let j = choose|j: int|
                        0 <= j < now.len() && (#[trigger] now[j]).path@ == path@;
                    if j < before.len() {
                        assert(before[j].path@ == path@);
                    }
                }
            }
            found = found || same;
        }
        i += 1;
    }
    assert(related@.take(i as int) =~= related@);
    found
}

/// Whether additional files are those of a project: the related files, and behind them the
/// other open files.
pub open spec fn are_additional_files(
    files: Seq<AdditionalFile>,
    related: Seq<RelatedFile>,
    open: Seq<OpenFile>,
    recent: Seq<RecentFile>,
) -> bool {
    let shown = shown_files(related);
    &&& files.len() >= shown.len()
    &&& all_shown(files.take(shown.len() as int), shown)
    &&& open_files_shown(files.skip(shown.len() as int), open, shown, recent)
}

/// What a request says of the project: the recent changes, the related files, and the other
/// open files.
pub fn request_context(
    events: &Vec<HistoryEvent>,
    current_file_full_path: Option<&str>,
    current_file_relative_path: &str,
    related_files: &Vec<RelatedFile>,
    open_files: &Vec<OpenFile>,
    recently_opened_files: &Vec<RecentFile>,
) -> (context: CursorTabRequestContext)
    ensures
        are_histories(
            context.file_diff_histories@,
            events@,
            optional_text(current_file_full_path),
            current_file_relative_path@,
        ),
        are_additional_files(
            context.additional_files@,
            related_files@,
            open_files@,
            recently_opened_files@,
        ),
        all_code_results(context.code_results@, shown_files(related_files@)),
{
    let histories: Vec<FileDiffHistory> = file_diff_histories(
        events,
        current_file_full_path,
        current_file_relative_path,
    );
    let (files, code_results): (Vec<AdditionalFile>, Vec<CodeResult>) = show_related_files(
        related_files,
    );
    let mut files = files;
    let ghost shown = shown_files(related_files@);
    let ghost n = shown.len() as int;
    let ghost first = files@;
    assert(files@.take(n) =~= first);
    let mut i: usize = 0;
    while i < open_files.len()
        invariant
            i <= open_files@.len(),
            shown == shown_files(related_files@),
            n == shown.len(),
            n <= files@.len(),
            files@.take(n) == first,
            open_files_shown(
                files@.skip(n),
                open_files@.take(i as int),
                shown,
                recently_opened_files@,
            ),
        decreases open_files@.len() - i,
    {
        let open: &OpenFile = &open_files[i];
        assert(open_files@.take(i + 1).drop_last() =~= open_files@.take(i as int));
        if let Some(path) = &open.path {
            if !open.is_active && !is_shown(related_files, path.as_str()) {
                if let Some(offset) = find_recent_cursor(recently_opened_files, path.as_str()) {
                    let row: u32 = open.snapshot.offset_to_row(offset);
                    let file: AdditionalFile = show_around(open, path, row);
                    let ghost held = files@;
                    files.push(file);
                    assert(files@.take(n) =~= held.take(n));
                    assert(files@.skip(n) =~= held.skip(n).push(file));
                    assert(files@.skip(n).drop_last() =~= held.skip(n));
                }
            }
        }
        i += 1;
    }
    assert(open_files@.take(i as int) =~= open_files@);
    CursorTabRequestContext { file_diff_histories: histories, additional_files: files, code_results }
}

// ---------------------------------------------------------------------------
// The current file
// ---------------------------------------------------------------------------

/// The path of the current file; a file without one has a name all the same.
pub fn current_path(path: Option<String>) -> (r: String)
    ensures
        r@ == match path {
            Some(path) => if path@.len() > 0 {
                path@
            } else {
                "Untitled-1"@
            },
            None => "Untitled-1"@,
        },
{
    if let Some(path) = path {
        if !path.as_str().is_empty() {
            return path;
        }
    }
    "Untitled-1".to_owned()
}

/// The language of the current file; a file without one is plain text.
pub fn current_language(language_id: Option<String>) -> (r: String)
    ensures
        r@ == match language_id {
            Some(language_id) => language_id@,
            None => "plaintext"@,
        },
{
    match language_id {
        Some(language_id) => language_id,
        None => "plaintext".to_owned(),
    }
}

/// The version of the current file, given the time of its last change, when it fits.
pub fn file_version(most_recent: Option<u32>) -> (version: Option<i32>)
    ensures
        match most_recent {
            Some(time) => if time <= i32::MAX {
                version == Some(time as i32)
            } else {
                version is None
            },
            None => version is None,
        },
{
    match most_recent {
        Some(time) => if time <= i32::MAX as u32 {
            Some(time as i32)
        } else {
            None
        },
        None => None,
    }
}

// ---------------------------------------------------------------------------
// Diagnostics
// ---------------------------------------------------------------------------

/// How severe the editor takes a diagnostic to be.
#[derive(Clone, Copy, Debug, PartialEq, Eq)]
pub enum DiagnosticSeverity {
    Error,
    Warning,
    Information,
    Hint,
    Other,
}

/// A position in a file that a language server speaks of.
#[derive(Clone, Copy, Debug, PartialEq, Eq)]
pub struct LspPosition {
    pub line: u32,
    pub character: u32,
}

/// Where the related information of a diagnostic is.
#[derive(Clone, Copy, Debug, PartialEq, Eq)]
pub enum RelatedLocation {
    InBuffer { start: PointUtf16, end: PointUtf16 },
    InAnotherFile { start: LspPosition, end: LspPosition },
}

/// Related information of a diagnostic.
pub struct RelatedEntry {
    pub message: String,
    pub location: RelatedLocation,
}

/// A diagnostic in the current file.
pub struct DiagnosticEntry {
    pub start: PointUtf16,
    pub end: PointUtf16,
    pub message: String,
    pub source: Option<String>,
    pub severity: DiagnosticSeverity,
    pub is_disk_based: bool,
    pub related_information: Vec<RelatedEntry>,
}

/// A pair of numbers as a position.
pub open spec fn position_of(line: u32, column: u32) -> Position {
    Position { line: saturated(line as int), column: saturated(column as int) }
}

/// The number by which the service knows a severity.
pub open spec fn severity_number(severity: DiagnosticSeverity) -> i32 {
    match severity {
        DiagnosticSeverity::Error => 1,
        DiagnosticSeverity::Warning => 2,
        DiagnosticSeverity::Information => 3,
        DiagnosticSeverity::Hint => 4,
        DiagnosticSeverity::Other => 0,
    }
}

/// The range of related information.
pub open spec fn related_range(location: RelatedLocation) -> CodeRange {
    match location {
        RelatedLocation::InBuffer { start, end } => CodeRange {
            start_position: Some(position_of(start.row, start.column)),
            end_position: Some(position_of(end.row, end.column)),
        },
        RelatedLocation::InAnotherFile { start, end } => CodeRange {
            start_position: Some(position_of(start.line, start.character)),
            end_position: Some(position_of(end.line, end.character)),
        },
    }
}

/// Whether related information is that of a diagnostic.
pub open spec fn is_related_information(
    information: RelatedInformation,
    entry: RelatedEntry,
) -> bool {
    &&& information.message@ == entry.message@
    &&& information.relative_workspace_path@ == Seq::<char>::empty()
    &&& information.relevant_lines@.len() == 0
    &&& information.start_line == 0
    &&& information.range == Some(related_range(entry.location))
}

/// Whether an error is a diagnostic as the service takes it.
pub open spec fn is_linter_error(error: LinterError, entry: DiagnosticEntry) -> bool {
    &&& error.message@ == entry.message@
    &&& error.range == Some(
        CodeRange {
            start_position: Some(position_of(entry.start.row, entry.start.column)),
            end_position: Some(position_of(entry.end.row, entry.end.column)),
        },
    )
    &&& error.source == entry.source
    &&& error.severity == Some(severity_number(entry.severity))
    &&& error.is_stale == Some(entry.is_disk_based)
    &&& error.related_information@.len() == entry.related_information@.len()
    &&& forall|i: int|
        0 <= i < entry.related_information@.len() ==> is_related_information(
            #[trigger] error.related_information@[i],
            entry.related_information@[i],
        )
}

/// A position of the editor as the service takes it.
pub fn position(point: PointUtf16) -> (r: Position)
    ensures
        r == position_of(point.row, point.column),
{
    Position { line: saturate(point.row), column: saturate(point.column) }
}

/// A position of a language server as the service takes it.
pub fn position_from_lsp(position: LspPosition) -> (r: Position)
    ensures
        r == position_of(position.line, position.character),
{
    Position { line: saturate(position.line), column: saturate(position.character) }
}

/// A range of the editor as the service takes it.
pub fn code_range(start: PointUtf16, end: PointUtf16) -> (r: CodeRange)
    ensures
        r == (CodeRange {
            start_position: Some(position_of(start.row, start.column)),
            end_position: Some(position_of(end.row, end.column)),
        }),
{
    CodeRange { start_position: Some(position(start)), end_position: Some(position(end)) }
}

/// A diagnostic as the service takes it.
pub fn linter_error(entry: &DiagnosticEntry) -> (error: LinterError)
    ensures
        is_linter_error(error, *entry),
{
    let mut related_information: Vec<RelatedInformation> = Vec::new();
    let mut i: usize = 0;
    while i < entry.related_information.len()
        invariant
            i <= entry.related_information@.len(),
            related_information@.len() == i,
            forall|j: int|
                0 <= j < i ==> is_related_information(
                    #[trigger] related_information@[j],
                    entry.related_information@[j],
                ),
        decreases entry.related_information@.len() - i,
    {
        let information: &RelatedEntry = &entry.related_information[i];
        let range: CodeRange = match information.location {
            RelatedLocation::InBuffer { start, end } => code_range(start, end),
            RelatedLocation::InAnotherFile { start, end } => CodeRange {
                start_position: Some(position_from_lsp(start)),
                end_position: Some(position_from_lsp(end)),
            },
        };
        let ghost held = related_information@;
        related_information.push(
            RelatedInformation {
                message: information.message.clone(),
                relative_workspace_path: String::new(),
                relevant_lines: Vec::new(),
                start_line: 0,
                range: Some(range),
            },
        );
        assert forall|j: int| 0 <= j < i + 1 implies is_related_information(
            #[trigger] related_information@[j],
            entry.related_information@[j],
        ) by {
            if j < i {
                assert(related_information@[j] == held[j]);
            }
        }
        i += 1;
    }
    let severity: i32 = match entry.severity {
        DiagnosticSeverity::Error => 1,
        DiagnosticSeverity::Warning => 2,
        DiagnosticSeverity::Information => 3,
        DiagnosticSeverity::Hint => 4,
        DiagnosticSeverity::Other => 0,
    };
    let source: Option<String> = match &entry.source {
        Some(source) => Some(source.clone()),
        None => None,
    };
    LinterError {
        message: entry.message.clone(),
        range: Some(code_range(entry.start, entry.end)),
        source,
        related_information,
        severity: Some(severity),
        is_stale: Some(entry.is_disk_based),
    }
}

/// The diagnostics of a file as the service takes them.
pub fn linter_errors(entries: &Vec<DiagnosticEntry>) -> (errors: Vec<LinterError>)
    ensures
        errors@.len() == entries@.len(),
        forall|i: int|
            0 <= i < entries@.len() ==> is_linter_error(#[trigger] errors@[i], entries@[i]),
{
    let mut errors: Vec<LinterError> = Vec::new();
    let mut i: usize = 0;
    while i < entries.len()
        invariant
            i <= entries@.len(),
            errors@.len() == i,
            forall|j: int| 0 <= j < i ==> is_linter_error(#[trigger] errors@[j], entries@[j]),
        decreases entries@.len() - i,
    {
        let ghost held = errors@;
        errors.push(linter_error(&entries[i]));
        assert forall|j: int| 0 <= j < i + 1 implies is_linter_error(
            #[trigger] errors@[j],
            entries@[j],
        ) by {
            if j < i {
                assert(errors@[j] == held[j]);
            }
        }
        i += 1;
    }
    errors
}

// ---------------------------------------------------------------------------
// What a request says of the project
// ---------------------------------------------------------------------------

/// The path of a changed file is given as it is, or without the directory that the current
/// file's two paths show the project to be in.
pub proof fn lemma_history_path(
    path: Seq<char>,
    root: Seq<char>,
    relative_path: Seq<char>,
    inner: Seq<char>,
)
    ensures
        history_path(path, None, relative_path) == path,
        history_path(root + relative_path, Some(root + relative_path), relative_path)
            == relative_path,
        history_path(relative_path, Some(root + relative_path), relative_path) == relative_path,
        root.len() > 0 && inner.len() > 0 && root + inner != relative_path ==> history_path(
            root + inner,
            Some(root + relative_path),
            relative_path,
        ) == inner,
        path != root + relative_path && !text::has_prefix(path, root) ==> history_path(
            path,
            Some(root + relative_path),
            relative_path,
        ) == path,
        path != root + relative_path && root.len() == 0 ==> history_path(
            path,
            Some(root + relative_path),
            relative_path,
        ) == path,
        relative_path.len() > 0 ==> history_path(root, Some(root + relative_path), relative_path)
            == root,
        path.len() > 0 && relative_path.len() > 0 ==> history_path(
            path,
            Some(root + relative_path),
            relative_path,
        ).len() > 0,
{
    let full = root + relative_path;
    assert(full.take(root.len() as int) =~= root);
    assert(full.skip(root.len() as int) =~= relative_path);
    assert((root + inner).take(root.len() as int) =~= root);
    assert((root + inner).skip(root.len() as int) =~= inner);
    if root + inner == full {
        assert(inner =~= relative_path) by {
            assert((root + inner).skip(root.len() as int) == full.skip(root.len() as int));
        }
    }
    if root.len() == 0 {
        assert(full =~= relative_path);
    }
}

/// The changes of two lists of events that are filed under a name are those of the first and
/// then those of the second; one event is filed under its own name alone.
pub proof fn lemma_changes_compose(
    first: Seq<HistoryEvent>,
    second: Seq<HistoryEvent>,
    event: HistoryEvent,
    full_path: Option<Seq<char>>,
    relative_path: Seq<char>,
    name: Seq<char>,
)
    ensures
        changes_of(first + second, full_path, relative_path, name) == changes_of(
            first,
            full_path,
            relative_path,
            name,
        ) + changes_of(second, full_path, relative_path, name),
        changes_of(seq![event], full_path, relative_path, name) == if history_path(
            event.path@,
            full_path,
            relative_path,
        ) == name {
            seq![event.diff@]
        } else {
            Seq::empty()
        },
        changes_of(Seq::empty(), full_path, relative_path, name) == Seq::<Seq<char>>::empty(),
    decreases second.len(),
{
    reveal_with_fuel(changes_of, 2);
    assert(seq![event].drop_last() =~= Seq::<HistoryEvent>::empty());
    assert(Seq::<Seq<char>>::empty().push(event.diff@) =~= seq![event.diff@]);
    let before = changes_of(first, full_path, relative_path, name);
    if second.len() == 0 {
        assert(first + second =~= first);
        assert(before + changes_of(second, full_path, relative_path, name) =~= before);
    } else {
        let head = second.drop_last();
        lemma_changes_compose(first, head, event, full_path, relative_path, name);
        assert((first + second).drop_last() =~= first + head);
        assert((first + second).last() == second.last());
        let middle = changes_of(head, full_path, relative_path, name);
        assert((before + middle).push(second.last().diff@) =~= before + middle.push(
            second.last().diff@,
        ));
    }
}

/// Whether a change stands in the history of the given name.
pub open spec fn holds_change(
    histories: Seq<FileDiffHistory>,
    name: Seq<char>,
    diff: Seq<char>,
) -> bool {
    exists|i: int|
        {
            &&& 0 <= i < histories.len()
            &&& (#[trigger] histories[i]).file_name@ == name
            &&& strings(histories[i].diff_history@).contains(diff)
        }
}

/// Every change is filed under its file's name; names stand once each, in the order of their
/// characters, and none without a change.
pub proof fn lemma_histories(
    histories: Seq<FileDiffHistory>,
    events: Seq<HistoryEvent>,
    full_path: Option<Seq<char>>,
    relative_path: Seq<char>,
)
    requires
        are_histories(histories, events, full_path, relative_path),
    ensures
        forall|k: int|
            0 <= k < events.len() ==> holds_change(
                histories,
                history_path((#[trigger] events[k]).path@, full_path, relative_path),
                events[k].diff@,
            ),
        forall|i: int, j: int|
            0 <= i < j < histories.len() ==> (#[trigger] histories[i]).file_name@ != (
            #[trigger] histories[j]).file_name@ && sorts_before(
                histories[i].file_name@,
                histories[j].file_name@,
            ),
        forall|i: int|
            0 <= i < histories.len() ==> (#[trigger] histories[i]).diff_history@.len() > 0
                && histories[i].diff_history_timestamps@.len() == 0 && strings(
                histories[i].diff_history@,
            ) == changes_of(events, full_path, relative_path, histories[i].file_name@),
{
    assert forall|k: int| 0 <= k < events.len() implies holds_change(
        histories,
        history_path((#[trigger] events[k]).path@, full_path, relative_path),
        events[k].diff@,
    ) by {
        let name = event_name(events[k], full_path, relative_path);
        assert(has_name(histories, name));
        let i = choose|i: int| 0 <= i < histories.len() && (#[trigger] histories[i]).file_name@
            == name;
        lemma_change_filed(events, k, full_path, relative_path);
        assert(histories[i].file_name@ == name);
    }
    assert forall|i: int, j: int| 0 <= i < j < histories.len() implies (
    #[trigger] histories[i]).file_name@ != (#[trigger] histories[j]).file_name@ by {
        lemma_sorts_irreflexive(histories[i].file_name@);
    }
}

proof fn lemma_sorts_irreflexive(a: Seq<char>)
    ensures
        !sorts_before(a, a),
    decreases a.len(),
{
    if a.len() > 0 {
        lemma_sorts_irreflexive(a.drop_first());
    }
}

proof fn lemma_change_filed(
    events: Seq<HistoryEvent>,
    k: int,
    full_path: Option<Seq<char>>,
    relative_path: Seq<char>,
)
    requires
        0 <= k < events.len(),
    ensures
        changes_of(
            events,
            full_path,
            relative_path,
            event_name(events[k], full_path, relative_path),
        ).contains(events[k].diff@),
    decreases events.len(),
{
    let name = event_name(events[k], full_path, relative_path);
    let head = events.drop_last();
    let all = changes_of(events, full_path, relative_path, name);
    let before = changes_of(head, full_path, relative_path, name);
    if k < events.len() - 1 {
        assert(head[k] == events[k]);
        lemma_change_filed(head, k, full_path, relative_path);
        let at = before.index_of(events[k].diff@);
        assert(all[at] == events[k].diff@);
    } else {
        assert(all[before.len() as int] == events[k].diff@);
    }
}

/// One text stands before another when it is a proper start of it, or when at the first place
/// where they differ its character is the lower one.
pub proof fn lemma_sorts_before(a: Seq<char>, b: Seq<char>, n: int)
    requires
        0 <= n <= a.len(),
        n <= b.len(),
        a.take(n) == b.take(n),
    ensures
        n == a.len() && n < b.len() ==> sorts_before(a, b) && !sorts_before(b, a),
        n < a.len() && n < b.len() && a[n] < b[n] ==> sorts_before(a, b) && !sorts_before(b, a),
    decreases n,
{
    if n > 0 {
        assert(a[0] == a.take(n)[0]);
        assert(b[0] == b.take(n)[0]);
        assert(a.drop_first().take(n - 1) =~= a.take(n).drop_first());
        assert(b.drop_first().take(n - 1) =~= b.take(n).drop_first());
        lemma_sorts_before(a.drop_first(), b.drop_first(), n - 1);
    }
}

/// A number is given as it is when it fits, and else as the greatest that does. Rows are
/// numbered from one as lines.
pub proof fn lemma_saturated(n: int)
    requires
        0 <= n <= u32::MAX,
    ensures
        n <= 0x7fff_ffff ==> saturated(n) == n,
        n > 0x7fff_ffff ==> saturated(n) == 0x7fff_ffff,
        n < 0x7fff_ffff ==> line_number(n) == n + 1,
        n >= 0x7fff_ffff ==> line_number(n) == 0x7fff_ffff,
{
}

/// The related files that are shown are those with excerpts that are not the current one.
pub proof fn lemma_shown_files(related: Seq<RelatedFile>)
    ensures
        forall|i: int|
            0 <= i < related.len() && !(#[trigger] related[i]).is_active
                && related[i].excerpts@.len() > 0 ==> shown_files(related).contains(related[i]),
        forall|j: int|
            0 <= j < shown_files(related).len() ==> {
                let file = #[trigger] shown_files(related)[j];
                !file.is_active && file.excerpts@.len() > 0 && related.contains(file)
            },
        shown_files(related).len() <= related.len(),
    decreases related.len(),
{
    if related.len() > 0 {
        let head = related.drop_last();
        let last = related.len() - 1;
        let before = shown_files(head);
        let all = shown_files(related);
        lemma_shown_files(head);
        assert(related[last] == related.last());
        assert forall|i: int|
            0 <= i < related.len() && !(#[trigger] related[i]).is_active
                && related[i].excerpts@.len() > 0 implies all.contains(related[i]) by {
            if i < last {
                assert(head[i] == related[i]);
                let at = before.index_of(related[i]);
                assert(all[at] == related[i]);
            } else {
                assert(all[before.len() as int] == related[i]);
            }
        }
        assert forall|j: int| 0 <= j < all.len() implies {
            let file = #[trigger] all[j];
            !file.is_active && file.excerpts@.len() > 0 && related.contains(file)
        } by {
            if j < before.len() {
                assert(all[j] == before[j]);
                let at = head.index_of(before[j]);
                assert(related[at] == all[j]);
            } else {
                assert(related[last] == all[j]);
            }
        }
    }
}

/// The shown related files come in the order in which they are given.
pub proof fn lemma_shown_in_order(first: Seq<RelatedFile>, second: Seq<RelatedFile>)
    ensures
        shown_files(first + second) == shown_files(first) + shown_files(second),
    decreases second.len(),
{
    if second.len() == 0 {
        assert(first + second =~= first);
        assert(shown_files(first) + shown_files(second) =~= shown_files(first));
    } else {
        lemma_shown_in_order(first, second.drop_last());
        assert((first + second).drop_last() =~= first + second.drop_last());
        assert((first + second).last() == second.last());
        assert(shown_files(first + second) =~= shown_files(first) + shown_files(second));
    }
}

/// An excerpt is shown with its own text at its own rows, as far as the document has them, and
/// as a piece of code that ends where its last row ends.
pub proof fn lemma_excerpt_shown(
    file: AdditionalFile,
    result: CodeResult,
    related: RelatedFile,
    i: int,
)
    requires
        0 <= i < related.excerpts@.len(),
        shows_excerpts(file, related, related.excerpts@.len() as int),
        is_code_result(result, related.path@, related.snapshot@, related.excerpts@[i]),
        1 <= related.snapshot@.len() <= 0x7fff_ffff,
    ensures
        ({
            let excerpt = related.excerpts@[i];
            let rows = related.snapshot@;
            let most = rows.len() - 1;
            let start = if excerpt.start_row < most {
                excerpt.start_row as int
            } else {
                most
            };
            let end = if excerpt.end_row < most {
                excerpt.end_row as int
            } else {
                most
            };
            let block = result.code_block->0;
            &&& file.relative_workspace_path@ == related.path@
            &&& file.is_open
            &&& file.visible_range_content@[i]@ == excerpt.text@
            &&& file.start_line_number_one_indexed@[i] == start + 1
            &&& file.visible_ranges@[i].start_line_number == start
            &&& file.visible_ranges@[i].end_line_number_inclusive == end
            &&& result.code_block is Some
            &&& result.score == excerpt.score
            &&& block.relative_workspace_path@ == related.path@
            &&& block.file_contents is None
            &&& block.contents@ == excerpt.text@
            &&& block.range is Some
            &&& (block.range->0).start_position == Some(Position { line: start as i32, column: 0 })
            &&& ((block.range->0).end_position->0).line == end
            &&& text::byte_len(rows[end]) <= 0x7fff_ffff ==> ((
            block.range->0).end_position->0).column == text::byte_len(rows[end])
        }),
{
    assert(file.visible_range_content@[i]@ == related.excerpts@[i].text@);
    assert(file.visible_ranges@[i] == line_range(
        row_within(related.snapshot@, related.excerpts@[i].start_row),
        row_within(related.snapshot@, related.excerpts@[i].end_row),
    ));
    let start_line = file.start_line_number_one_indexed@[i];
    assert(start_line == line_number(
        row_within(related.snapshot@, related.excerpts@[i].start_row),
    ));
}

/// The place of a file's cursor is the one that the last entry for its path gives.
pub proof fn lemma_recent_cursor(recent: Seq<RecentFile>, path: Seq<char>, i: int)
    requires
        -1 <= i < recent.len(),
        i >= 0 ==> recent[i].path@ == path,
        forall|j: int| i < j < recent.len() ==> (#[trigger] recent[j]).path@ != path,
    ensures
        recent_cursor(recent, path) == if i >= 0 {
            recent[i].cursor_offset
        } else {
            None
        },
    decreases recent.len(),
{
    if recent.len() > 0 {
        assert(recent.last() == recent[recent.len() - 1]);
        if i < recent.len() - 1 {
            assert forall|j: int| i < j < recent.len() - 1 implies (
            #[trigger] recent.drop_last()[j]).path@ != path by {
                assert(recent[j].path@ != path);
            }
            lemma_recent_cursor(recent.drop_last(), path, i);
        }
    }
}

/// An open file is shown when it has a path that is not shown already, is not the current one,
/// and the place of its cursor is known.
pub proof fn lemma_open_file_shown(
    open: OpenFile,
    shown: Seq<RelatedFile>,
    recent: Seq<RecentFile>,
)
    ensures
        open_file_row(open, shown, recent) is Some <==> {
            &&& open.path is Some
            &&& !open.is_active
            &&& forall|i: int|
                0 <= i < shown.len() ==> (#[trigger] shown[i]).path@ != open.path->0@
            &&& recent_cursor(recent, open.path->0@) is Some
        },
        open_file_row(open, shown, recent) is Some ==> open_file_row(open, shown, recent) == Some(
            snapshot::row_at(
                open.snapshot@,
                recent_cursor(recent, open.path->0@)->0 as int,
            ),
        ),
{
}

/// A file is shown from 100 rows above the cursor's to 100 rows below it, as far as it has
/// them: the row of the cursor is shown, and so is every row that near.
pub proof fn lemma_rows_around(file: AdditionalFile, open: OpenFile, row: int)
    requires
        shows_around(file, open, row),
        0 <= row < open.snapshot@.len() <= 0x7fff_ffff,
        snapshot::document_rows(open.snapshot@),
    ensures
        ({
            let rows = open.snapshot@;
            let start = file.visible_ranges@[0].start_line_number as int;
            let end = file.visible_ranges@[0].end_line_number_inclusive as int;
            &&& file.relative_workspace_path@ == open.path->0@
            &&& file.is_open
            &&& file.visible_ranges@.len() == 1
            &&& file.visible_range_content@.len() == 1
            &&& 0 <= start <= row <= end < rows.len()
            &&& start == row - 100 || (start == 0 && row < 100)
            &&& end == row + 100 || (end == rows.len() - 1 && rows.len() - 1 < row + 100)
            &&& text::rows(file.visible_range_content@[0]@) == rows.subrange(start, end + 1)
            &&& file.start_line_number_one_indexed@ == seq![(start + 1) as i32]
        }),
{
    let rows = open.snapshot@;
    let start = file.visible_ranges@[0].start_line_number as int;
    let end = file.visible_ranges@[0].end_line_number_inclusive as int;
    let sep = seq!['\n'];
    let part = rows.subrange(start, end + 1);
    assert forall|j: int| 0 <= j < part.len() implies text::free_of(#[trigger] part[j], sep) by {
        assert(part[j] == rows[start + j]);
        assert(!rows[start + j].contains('\n'));
        assert forall|i: int| !text::occurs_at(part[j], sep, i) by {
            if text::occurs_at(part[j], sep, i) {
                assert(part[j].subrange(i, i + 1)[0] == '\n');
                assert(part[j][i] == '\n');
            }
        }
    }
    text::lemma_split_join(part, sep);
}

/// The related files come first, each once, and behind them the open files, each of which has
/// a path that none of the related files has.
pub proof fn lemma_additional_files(
    files: Seq<AdditionalFile>,
    related: Seq<RelatedFile>,
    open: Seq<OpenFile>,
    recent: Seq<RecentFile>,
)
    requires
        are_additional_files(files, related, open, recent),
    ensures
        ({
            let shown = shown_files(related);
            &&& shown.len() <= files.len() <= shown.len() + open.len()
            &&& forall|i: int|
                0 <= i < shown.len() ==> (#[trigger] files[i]).relative_workspace_path@
                    == shown[i].path@
            &&& forall|i: int, j: int|
                0 <= i < shown.len() <= j < files.len() ==> (
                #[trigger] files[j]).relative_workspace_path@ != (#[trigger] shown[i]).path@
        }),
{
    let shown = shown_files(related);
    let n = shown.len() as int;
    lemma_open_files(files.skip(n), open, shown, recent);
    assert forall|i: int| 0 <= i < n implies (#[trigger] files[i]).relative_workspace_path@
        == shown[i].path@ by {
        assert(files.take(n)[i] == files[i]);
        assert(shows_excerpts(files.take(n)[i], shown[i], shown[i].excerpts@.len() as int));
    }
    assert forall|i: int, j: int| 0 <= i < n <= j < files.len() implies (
    #[trigger] files[j]).relative_workspace_path@ != (#[trigger] shown[i]).path@ by {
        assert(files.skip(n)[j - n] == files[j]);
    }
}

proof fn lemma_open_files(
    files: Seq<AdditionalFile>,
    open: Seq<OpenFile>,
    shown: Seq<RelatedFile>,
    recent: Seq<RecentFile>,
)
    requires
        open_files_shown(files, open, shown, recent),
    ensures
        files.len() <= open.len(),
        forall|i: int, j: int|
            0 <= i < shown.len() && 0 <= j < files.len() ==> (
            #[trigger] files[j]).relative_workspace_path@ != (#[trigger] shown[i]).path@,
    decreases open.len(),
{
    if open.len() > 0 {
        match open_file_row(open.last(), shown, recent) {
            None => {
                lemma_open_files(files, open.drop_last(), shown, recent);
            },
            Some(_) => {
                let head = files.drop_last();
                lemma_open_files(head, open.drop_last(), shown, recent);
                assert forall|i: int, j: int|
                    0 <= i < shown.len() && 0 <= j < files.len() implies (
                #[trigger] files[j]).relative_workspace_path@ != (#[trigger] shown[i]).path@ by {
                    if j < head.len() {
                        assert(head[j] == files[j]);
                    } else {
                        assert(files[j] == files.last());
                    }
                }
            },
        }
    }
}

/// A diagnostic is sent with its message, its source and its range, numbered by how severe it
/// is, and with all of its related information in order.
pub proof fn lemma_diagnostic_sent(error: LinterError, entry: DiagnosticEntry)
    requires
        is_linter_error(error, entry),
        entry.start.row <= 0x7fff_ffff,
        entry.start.column <= 0x7fff_ffff,
        entry.end.row <= 0x7fff_ffff,
        entry.end.column <= 0x7fff_ffff,
    ensures
        error.message@ == entry.message@,
        error.source == entry.source,
        error.is_stale == Some(entry.is_disk_based),
        error.severity == Some(
            match entry.severity {
                DiagnosticSeverity::Error => 1i32,
                DiagnosticSeverity::Warning => 2i32,
                DiagnosticSeverity::Information => 3i32,
                DiagnosticSeverity::Hint => 4i32,
                DiagnosticSeverity::Other => 0i32,
            },
        ),
        error.range is Some,
        ({
            let start = (error.range->0).start_position->0;
            let end = (error.range->0).end_position->0;
            &&& start.line == entry.start.row
            &&& start.column == entry.start.column
            &&& end.line == entry.end.row
            &&& end.column == entry.end.column
        }),
        error.related_information@.len() == entry.related_information@.len(),
        forall|i: int|
            0 <= i < entry.related_information@.len() ==> {
                let sent = #[trigger] error.related_information@[i];
                &&& sent.message@ == entry.related_information@[i].message@
                &&& sent.range == Some(related_range(entry.related_information@[i].location))
                &&& sent.relative_workspace_path@.len() == 0
                &&& sent.relevant_lines@.len() == 0
                &&& sent.start_line == 0
            },
{
    assert forall|i: int| 0 <= i < entry.related_information@.len() implies {
        let sent = #[trigger] error.related_information@[i];
        &&& sent.message@ == entry.related_information@[i].message@
        &&& sent.range == Some(related_range(entry.related_information@[i].location))
        &&& sent.relative_workspace_path@.len() == 0
        &&& sent.relevant_lines@.len() == 0
        &&& sent.start_line == 0
    } by {
        assert(is_related_information(
            error.related_information@[i],
            entry.related_information@[i],
        ));
    }
}

/// Related information is sent with the range of where it is, in the file or in another.
pub proof fn lemma_related_range(location: RelatedLocation)
    ensures
        ({
            let range = related_range(location);
            let (a, b, c, d) = match location {
                RelatedLocation::InBuffer { start, end } => (
                    start.row,
                    start.column,
                    end.row,
                    end.column,
                ),
                RelatedLocation::InAnotherFile { start, end } => (
                    start.line,
                    start.character,
                    end.line,
                    end.character,
                ),
            };
            &&& range.start_position is Some
            &&& range.end_position is Some
            &&& a <= 0x7fff_ffff ==> (range.start_position->0).line == a
            &&& b <= 0x7fff_ffff ==> (range.start_position->0).column == b
            &&& c <= 0x7fff_ffff ==> (range.end_position->0).line == c
            &&& d <= 0x7fff_ffff ==> (range.end_position->0).column == d
        }),
{
}

/// Every open file that is to be shown is shown around the row of its cursor.
pub proof fn lemma_open_file_listed(
    files: Seq<AdditionalFile>,
    open: Seq<OpenFile>,
    shown: Seq<RelatedFile>,
    recent: Seq<RecentFile>,
    i: int,
)
    requires
        open_files_shown(files, open, shown, recent),
        0 <= i < open.len(),
        open_file_row(open[i], shown, recent) is Some,
    ensures
        exists|j: int|
            0 <= j < files.len() && shows_around(
                #[trigger] files[j],
                open[i],
                open_file_row(open[i], shown, recent)->0,
            ),
    decreases open.len(),
{
    let head = open.drop_last();
    let row = open_file_row(open[i], shown, recent)->0;
    if i == open.len() - 1 {
        assert(files[files.len() - 1] == files.last());
        assert(shows_around(files[files.len() - 1], open[i], row));
    } else {
        assert(head[i] == open[i]);
        match open_file_row(open.last(), shown, recent) {
            None => {
                lemma_open_file_listed(files, head, shown, recent, i);
            },
            Some(_) => {
                let front = files.drop_last();
                lemma_open_file_listed(front, head, shown, recent, i);
                let j = choose|j: int|
                    0 <= j < front.len() && shows_around(#[trigger] front[j], open[i], row);
                assert(files[j] == front[j]);
            },
        }
    }
}

/// Every excerpt of every related file that is shown is sent as a piece of code.
pub proof fn lemma_excerpt_listed(
    results: Seq<CodeResult>,
    shown: Seq<RelatedFile>,
    i: int,
    k: int,
)
    requires
        all_code_results(results, shown),
        0 <= i < shown.len(),
        0 <= k < shown[i].excerpts@.len(),
    ensures
        exists|j: int|
            0 <= j < results.len() && is_code_result(
                #[trigger] results[j],
                shown[i].path@,
                shown[i].snapshot@,
                shown[i].excerpts@[k],
            ),
    decreases shown.len(),
{
    let count = shown.last().excerpts@.len() as int;
    let split = results.len() - count;
    if i == shown.len() - 1 {
        assert(shown[i] == shown.last());
        assert(results.skip(split)[k] == results[split + k]);
        assert(is_code_result(
            results.skip(split)[k],
            shown[i].path@,
            shown[i].snapshot@,
            shown[i].excerpts@[k],
        ));
    } else {
        let front = results.take(split);
        assert(shown.drop_last()[i] == shown[i]);
        lemma_excerpt_listed(front, shown.drop_last(), i, k);
        let j = choose|j: int|
            0 <= j < front.len() && is_code_result(
                #[trigger] front[j],
                shown[i].path@,
                shown[i].snapshot@,
                shown[i].excerpts@[k],
            );
        assert(results[j] == front[j]);
    }
}

/// When the full path of the current file does not end in its relative one, only the current
/// file itself has another name in the history than its path.
pub proof fn lemma_unrelated_paths(
    path: Seq<char>,
    full_path: Seq<char>,
    relative_path: Seq<char>,
)
    requires
        relative_path.len() > full_path.len() || full_path.skip(
            full_path.len() - relative_path.len(),
        ) != relative_path,
    ensures
        history_path(path, Some(full_path), relative_path) == if path == full_path {
            relative_path
        } else {
            path
        },
{
}

} // verus!
