//! Multidiff streams: edits that replace whole rows of the document that the
//! preceding edits left behind.

use crate::messages::RangeToReplace;
use crate::stream::{CursorTabCompletion, CursorTabStream};
use crate::text;
use vstd::prelude::*;
use vstd::slice::slice_subrange;
use vstd::utf8::*;

verus! {

/// Why a multidiff edit cannot be applied.
#[derive(Clone, Copy, Debug, PartialEq, Eq)]
pub enum MultidiffError {
    /// The edit names no range.
    MissingRange,
    /// The range does not name rows in order.
    InvalidLineRange(RangeToReplace),
    /// The range starts behind the last row.
    StartsBeyondDocument,
    /// The range ends behind the last row.
    EndsBeyondDocument,
}

/// A replacement of the bytes `start..end` of a document.
#[derive(Debug, PartialEq, Eq)]
pub struct TextEdit {
    pub start: usize,
    pub end: usize,
    pub text: String,
}

// ---------------------------------------------------------------------------
// Applying edits
// ---------------------------------------------------------------------------

/// The rows that a replacement text contributes: none, if it is empty.
pub open spec fn replacement_rows(replacement: Seq<char>) -> Seq<Seq<char>> {
    if replacement.len() == 0 {
        Seq::empty()
    } else {
        seq![replacement]
    }
}

/// The document after one edit. The range counts rows from one and includes its end;
/// a range that ends just before it starts inserts a row.
pub open spec fn edited(
    document: Seq<char>,
    range: Option<RangeToReplace>,
    replacement: Seq<char>,
) -> Result<Seq<char>, MultidiffError> {
    match range {
        None => Err(MultidiffError::MissingRange),
        Some(range) => {
            let rows = text::rows(document);
            let start = range.start_line - 1;
            let end = range.end_line as int;
            if range.start_line <= 0 || end < start {
                Err(MultidiffError::InvalidLineRange(range))
            } else if !(start < rows.len() || (start == end && start == rows.len())) {
                Err(MultidiffError::StartsBeyondDocument)
            } else if end > rows.len() {
                Err(MultidiffError::EndsBeyondDocument)
            } else {
                Ok(
                    text::join(
                        rows.take(start) + replacement_rows(replacement) + rows.skip(end),
                        seq!['\n'],
                    ),
                )
            }
        },
    }
}

/// The document after a list of edits, each of which refers to the document that the
/// preceding ones left behind.
pub open spec fn all_edited(
    document: Seq<char>,
    edits: Seq<CursorTabCompletion>,
) -> Result<Seq<char>, MultidiffError>
    decreases edits.len(),
{
    if edits.len() == 0 {
        Ok(document)
    } else {
        match all_edited(document, edits.drop_last()) {
            Ok(before) => edited(before, edits.last().range, edits.last().text@),
            Err(error) => Err(error),
        }
    }
}

/// Appends copies of `source[from..to]` to `target`.
fn append_rows(target: &mut Vec<Vec<char>>, source: &Vec<Vec<char>>, from: usize, to: usize)
    requires
        from <= to <= source@.len(),
    ensures
        text::views(final(target)@) == text::views(old(target)@) + text::views(source@).subrange(
            from as int,
            to as int,
        ),
{
    let ghost before = text::views(target@);
    let ghost all = text::views(source@);
    let mut i: usize = from;
    assert(before + all.subrange(from as int, from as int) =~= before);
    while i < to
        invariant
            from <= i <= to <= source@.len(),
            all == text::views(source@),
            text::views(target@) == before + all.subrange(from as int, i as int),
        decreases to - i,
    {
        let row: Vec<char> = vstd::slice::slice_to_vec(source[i].as_slice());
        let ghost held = text::views(target@);
        target.push(row);
        assert(text::views(target@) =~= held.push(all[i as int]));
        assert(all.subrange(from as int, i + 1) =~= all.subrange(from as int, i as int).push(
            all[i as int],
        ));
        assert(before + all.subrange(from as int, i + 1) =~= (before + all.subrange(
            from as int,
            i as int,
        )).push(all[i as int]));
        i += 1;
    }
}

/// Applies one edit to a document.
pub fn apply_multidiff_edit(document: &str, edit: &CursorTabCompletion) -> (r: Result<
    String,
    MultidiffError,
>)
    ensures
        match r {
            Ok(updated) => edited(document@, edit.range, edit.text@) == Ok::<
                Seq<char>,
                MultidiffError,
            >(updated@),
            Err(error) => edited(document@, edit.range, edit.text@) == Err::<
                Seq<char>,
                MultidiffError,
            >(error),
        },
{
    let range: RangeToReplace = match edit.range {
        None => {
            return Err(MultidiffError::MissingRange);
        },
        Some(range) => range,
    };
    if range.start_line <= 0 || range.end_line < range.start_line - 1 {
        return Err(MultidiffError::InvalidLineRange(range));
    }
    let chars: Vec<char> = text::chars_of(document);
    let rows: Vec<Vec<char>> = text::split_rows(chars.as_slice());
    let start: usize = (range.start_line - 1) as usize;
    let end: usize = range.end_line as usize;
    if !(start < rows.len() || (start == end && start == rows.len())) {
        return Err(MultidiffError::StartsBeyondDocument);
    }
    if end > rows.len() {
        return Err(MultidiffError::EndsBeyondDocument);
    }
    let ghost all = text::rows(document@);
    let mut updated: Vec<Vec<char>> = Vec::new();
    append_rows(&mut updated, &rows, 0, start);
    assert(text::views(updated@) =~= all.take(start as int));
    let replacement: Vec<char> = text::chars_of(edit.text.as_str());
    if replacement.len() > 0 {
        let ghost held = text::views(updated@);
        updated.push(replacement);
        assert(text::views(updated@) =~= held + seq![edit.text@]);
    } else {
        assert(text::views(updated@) =~= all.take(start as int) + Seq::<Seq<char>>::empty());
    }
    append_rows(&mut updated, &rows, end, rows.len());
    assert(all.subrange(end as int, all.len() as int) =~= all.skip(end as int));
    let separator: Vec<char> = vec!['\n'];
    assert(separator@ =~= seq!['\n']);
    let joined: Vec<char> = text::join_pieces(&updated, separator.as_slice());
    Ok(text::string_of(joined.as_slice()))
}

/// Applies the edits of a stream to a document, one after the other.
pub fn apply_multidiff_stream(stream: &CursorTabStream, contents: &str) -> (r: Result<
    String,
    MultidiffError,
>)
    ensures
        match r {
            Ok(updated) => all_edited(contents@, stream.edits@) == Ok::<
                Seq<char>,
                MultidiffError,
            >(updated@),
            Err(error) => all_edited(contents@, stream.edits@) == Err::<
                Seq<char>,
                MultidiffError,
            >(error),
        },
{
    let mut updated: String = contents.to_owned();
    let mut i: usize = 0;
    while i < stream.edits.len()
        invariant
            i <= stream.edits@.len(),
            all_edited(contents@, stream.edits@.take(i as int)) == Ok::<Seq<char>, MultidiffError>(
                updated@,
            ),
        decreases stream.edits@.len() - i,
    {
        assert(stream.edits@.take(i + 1).drop_last() == stream.edits@.take(i as int));
        match apply_multidiff_edit(updated.as_str(), &stream.edits[i]) {
            Ok(next) => {
                updated = next;
            },
            Err(error) => {
                proof {
                    lemma_failure_stands(contents@, stream.edits@, i + 1, error);
                }
                return Err(error);
            },
        }
        i += 1;
    }
    assert(stream.edits@.take(i as int) == stream.edits@);
    Ok(updated)
}

/// Once an edit has failed, the edits behind it change nothing of the failure.
proof fn lemma_failure_stands(
    document: Seq<char>,
    edits: Seq<CursorTabCompletion>,
    count: int,
    error: MultidiffError,
)
    requires
        0 <= count <= edits.len(),
        all_edited(document, edits.take(count)) == Err::<Seq<char>, MultidiffError>(error),
    ensures
        all_edited(document, edits) == Err::<Seq<char>, MultidiffError>(error),
    decreases edits.len() - count,
{
    if count == edits.len() {
        assert(edits.take(count) == edits);
    } else {
        assert(edits.take(count + 1).drop_last() == edits.take(count));
        lemma_failure_stands(document, edits, count + 1, error);
    }
}

/// Applying two lists of edits in turn is applying their concatenation.
pub proof fn lemma_edits_compose(
    document: Seq<char>,
    first: Seq<CursorTabCompletion>,
    second: Seq<CursorTabCompletion>,
)
    ensures
        all_edited(document, first + second) == match all_edited(document, first) {
            Ok(between) => all_edited(between, second),
            Err(error) => Err(error),
        },
    decreases second.len(),
{
    if second.len() == 0 {
        assert(first + second == first);
    } else {
        lemma_edits_compose(document, first, second.drop_last());
        assert((first + second).drop_last() == first + second.drop_last());
    }
}

// ---------------------------------------------------------------------------
// Differences as byte edits
// ---------------------------------------------------------------------------

/// A document after one byte edit.
pub open spec fn spliced(document: Seq<u8>, edit: TextEdit) -> Seq<u8> {
    document.take(edit.start as int) + encode_utf8(edit.text@) + document.skip(edit.end as int)
}

/// A document after edits that all refer to it, made from the last to the first.
pub open spec fn replayed(document: Seq<u8>, edits: Seq<TextEdit>) -> Seq<u8>
    decreases edits.len(),
{
    if edits.len() == 0 {
        document
    } else {
        replayed(spliced(document, edits.last()), edits.drop_last())
    }
}

/// Whether edits of a document of the given length stand in order and apart.
pub open spec fn in_order(edits: Seq<TextEdit>, len: int) -> bool {
    &&& forall|i: int|
        0 <= i < edits.len() ==> (#[trigger] edits[i]).start <= edits[i].end <= len
    &&& forall|i: int, j: int|
        0 <= i < j < edits.len() ==> (#[trigger] edits[i]).end <= (#[trigger] edits[j]).start
}

/// Whether edits turn one document into another.
pub open spec fn is_text_diff(old: Seq<u8>, new: Seq<u8>, edits: Seq<TextEdit>) -> bool {
    in_order(edits, old.len() as int) && replayed(old, edits) == new
}

/// Edits moved by a number of bytes.
pub open spec fn shifted(edits: Seq<TextEdit>, by: int) -> Seq<TextEdit> {
    Seq::new(
        edits.len(),
        |i: int|
            (TextEdit {
                start: (edits[i].start + by) as usize,
                end: (edits[i].end + by) as usize,
                text: edits[i].text,
            }),
    )
}

/// Whether a differ takes any two texts and answers with edits between them.
pub open spec fn sound_differ<D: Fn(&str, &str) -> Vec<TextEdit>>(text_diff: D) -> bool {
    &&& forall|old: &str, new: &str| #[trigger] call_requires(text_diff, (old, new))
    &&& forall|old: &str, new: &str, edits: Vec<TextEdit>| #[trigger]
        call_ensures(text_diff, (old, new), edits) ==> is_text_diff(
            encode_utf8(old@),
            encode_utf8(new@),
            edits@,
        )
}

/// Whether a differ answers two texts with the given edits.
pub open spec fn differ_answers<D: Fn(&str, &str) -> Vec<TextEdit>>(
    text_diff: D,
    old: Seq<char>,
    new: Seq<char>,
    edits: Seq<TextEdit>,
) -> bool {
    exists|a: &str, b: &str, answer: Vec<TextEdit>| #[trigger]
        call_ensures(text_diff, (a, b), answer) && a@ == old && b@ == new && answer@ == edits
}

/// Whether edits are those of the changed window: what is left of two texts without
/// their common start and, behind it, their common end is handed to the differ, and
/// its answer is moved to where the window stands.
pub open spec fn window_diff<D: Fn(&str, &str) -> Vec<TextEdit>>(
    text_diff: D,
    contents: Seq<char>,
    updated: Seq<char>,
    edits: Seq<TextEdit>,
) -> bool {
    let prefix = text::common_prefix(contents, updated);
    let suffix = text::common_suffix(contents.skip(prefix), updated.skip(prefix));
    exists|answer: Seq<TextEdit>|
        {
            &&& #[trigger] differ_answers(
                text_diff,
                contents.subrange(prefix, contents.len() - suffix),
                updated.subrange(prefix, updated.len() - suffix),
                answer,
            )
            &&& edits == shifted(answer, text::byte_len(contents.take(prefix)) as int)
        }
}

/// Edits of a window are, moved to where it stands, edits of the text around it.
pub proof fn lemma_shifted_diff(
    before: Seq<u8>,
    old: Seq<u8>,
    new: Seq<u8>,
    after: Seq<u8>,
    edits: Seq<TextEdit>,
)
    requires
        is_text_diff(old, new, edits),
        before.len() + old.len() <= usize::MAX,
    ensures
        is_text_diff(
            before + old + after,
            before + new + after,
            shifted(edits, before.len() as int),
        ),
    decreases edits.len(),
{
    let by = before.len() as int;
    let moved = shifted(edits, by);
    assert forall|i: int, j: int| 0 <= i < j < moved.len() implies (#[trigger] moved[i]).end <= (
    #[trigger] moved[j]).start by {
        assert(edits[i].end <= edits[j].start);
    }
    lemma_shifted_replay(before, old, after, edits);
}

proof fn lemma_shifted_replay(
    before: Seq<u8>,
    old: Seq<u8>,
    after: Seq<u8>,
    edits: Seq<TextEdit>,
)
    requires
        forall|i: int|
            0 <= i < edits.len() ==> (#[trigger] edits[i]).start <= edits[i].end <= old.len(),
        forall|i: int|
            0 <= i < edits.len() ==> (#[trigger] edits[i]).end + before.len() <= usize::MAX,
        forall|i: int, j: int|
            0 <= i < j < edits.len() ==> (#[trigger] edits[i]).end <= (#[trigger] edits[j]).start,
    ensures
        replayed(before + old + after, shifted(edits, before.len() as int)) == before + replayed(
            old,
            edits,
        ) + after,
    decreases edits.len(),
{
    let by = before.len() as int;
    let moved = shifted(edits, by);
    if edits.len() > 0 {
        let edit = edits.last();
        assert(edits[edits.len() - 1] == edit);
        let last = moved.last();
        assert(spliced(before + old + after, last) =~= before + spliced(old, edit) + after);
        let rest = edits.drop_last();
        assert forall|i: int| 0 <= i < rest.len() implies (#[trigger] rest[i]).end <= spliced(
            old,
            edit,
        ).len() by {
            assert(edits[i].end <= edit.start);
        }
        lemma_shifted_replay(before, spliced(old, edit), after, rest);
        assert(moved.drop_last() =~= shifted(rest, by));
    }
}

/// The edits of the changed window of two texts turn the first into the second.
#[verifier::spinoff_prover]
#[verifier::rlimit(40)]
pub proof fn lemma_window_diff<D: Fn(&str, &str) -> Vec<TextEdit>>(
    text_diff: D,
    contents: Seq<char>,
    updated: Seq<char>,
    edits: Seq<TextEdit>,
)
    requires
        sound_differ(text_diff),
        window_diff(text_diff, contents, updated, edits),
        text::byte_len(contents) <= usize::MAX,
    ensures
        is_text_diff(encode_utf8(contents), encode_utf8(updated), edits),
{
    let prefix = text::common_prefix(contents, updated);
    let suffix = text::common_suffix(contents.skip(prefix), updated.skip(prefix));
    text::lemma_common_prefix(contents, updated);
    text::lemma_common_suffix(contents.skip(prefix), updated.skip(prefix));
    let before = contents.take(prefix);
    let middle = contents.subrange(prefix, contents.len() - suffix);
    let fresh = updated.subrange(prefix, updated.len() - suffix);
    let after = contents.skip(contents.len() - suffix);
    assert(after =~= contents.skip(prefix).skip(contents.skip(prefix).len() - suffix));
    assert(updated.skip(updated.len() - suffix) =~= updated.skip(prefix).skip(
        updated.skip(prefix).len() - suffix,
    ));
    assert(contents =~= before + middle + after);
    assert(updated =~= before + fresh + after);
    text::lemma_encode_concat(before + middle, after);
    text::lemma_encode_concat(before, middle);
    text::lemma_encode_concat(before + fresh, after);
    text::lemma_encode_concat(before, fresh);
    let answer = choose|answer: Seq<TextEdit>|
        {
            &&& #[trigger] differ_answers(text_diff, middle, fresh, answer)
            &&& edits == shifted(answer, text::byte_len(before) as int)
        };
    let (a, b, given) = choose|a: &str, b: &str, given: Vec<TextEdit>| #[trigger]
        call_ensures(text_diff, (a, b), given) && a@ == middle && b@ == fresh && given@ == answer;
    assert(is_text_diff(encode_utf8(a@), encode_utf8(b@), given@));
    lemma_shifted_diff(
        encode_utf8(before),
        encode_utf8(middle),
        encode_utf8(fresh),
        encode_utf8(after),
        answer,
    );
}

/// The edits between two texts, as byte edits of the first.
pub fn multidiff_edits<D: Fn(&str, &str) -> Vec<TextEdit>>(
    contents: &str,
    updated: &str,
    text_diff: &D,
) -> (edits: Vec<TextEdit>)
    requires
        sound_differ(*text_diff),
    ensures
        window_diff(*text_diff, contents@, updated@, edits@),
        is_text_diff(encode_utf8(contents@), encode_utf8(updated@), edits@),
{
    let old: Vec<char> = text::chars_of(contents);
    let new: Vec<char> = text::chars_of(updated);
    let (prefix, suffix): (usize, usize) = text::common_affixes(old.as_slice(), new.as_slice());
    let old_end: usize = old.len() - suffix;
    let new_end: usize = new.len() - suffix;
    let old_window: String = text::string_of(slice_subrange(old.as_slice(), prefix, old_end));
    let new_window: String = text::string_of(slice_subrange(new.as_slice(), prefix, new_end));
    let ghost before = contents@.take(prefix as int);
    let ghost middle = contents@.subrange(prefix as int, old_end as int);
    let ghost fresh = updated@.subrange(prefix as int, new_end as int);
    proof {
        text::lemma_encode_cut(contents@, prefix as int);
        text::lemma_encode_cut(contents@.skip(prefix as int), middle.len() as int);
        assert(contents@.skip(prefix as int).take(middle.len() as int) =~= middle);
        assert(old@.subrange(0, prefix as int) =~= before);
    }
    let by: usize = text::chars_byte_len(slice_subrange(old.as_slice(), 0, prefix));
    let old_text: &str = old_window.as_str();
    let new_text: &str = new_window.as_str();
    let mut edits: Vec<TextEdit> = (*text_diff)(old_text, new_text);
    let ghost answer = edits@;
    assert(call_ensures(*text_diff, (old_text, new_text), edits));
    assert(differ_answers(*text_diff, middle, fresh, answer));
    let mut i: usize = 0;
    while i < edits.len()
        invariant
            i <= edits@.len() == answer.len(),
            by == encode_utf8(before).len(),
            encode_utf8(before).len() + encode_utf8(middle).len() <= usize::MAX,
            in_order(answer, encode_utf8(middle).len() as int),
            forall|j: int| i <= j < edits@.len() ==> #[trigger] edits@[j] == answer[j],
            forall|j: int|
                0 <= j < i ==> #[trigger] edits@[j] == shifted(answer, by as int)[j],
        decreases edits@.len() - i,
    {
        assert(edits@[i as int] == answer[i as int]);
        let edit: &mut TextEdit = &mut edits[i];
        edit.start = edit.start + by;
        edit.end = edit.end + by;
        i += 1;
    }
    assert(edits@ =~= shifted(answer, by as int));
    proof {
        lemma_window_diff(*text_diff, contents@, updated@, edits@);
    }
    edits
}

// ---------------------------------------------------------------------------
// The change nearest to the cursor
// ---------------------------------------------------------------------------

/// A change in the coordinates of the document that the stream started from.
pub struct LocalChange {
    pub start: int,
    pub end: int,
    pub text: Seq<char>,
}

/// A document after changes, each of which refers to the document that the preceding
/// ones left behind.
pub open spec fn changed(document: Seq<u8>, changes: Seq<TextEdit>) -> Seq<u8>
    decreases changes.len(),
{
    if changes.len() == 0 {
        document
    } else {
        spliced(changed(document, changes.drop_last()), changes.last())
    }
}

/// Whether each of the changes stands inside the document that it refers to.
pub open spec fn changes_fit(document: Seq<u8>, changes: Seq<TextEdit>) -> bool
    decreases changes.len(),
{
    changes.len() > 0 ==> {
        &&& changes_fit(document, changes.drop_last())
        &&& changes.last().start <= changes.last().end <= changed(
            document,
            changes.drop_last(),
        ).len()
    }
}

/// The range before the given changes that became `start..end` after them, unless a
/// change touched it.
pub open spec fn mapped_back(changes: Seq<TextEdit>, start: int, end: int) -> Option<(int, int)>
    decreases changes.len(),
{
    if changes.len() == 0 {
        Some((start, end))
    } else {
        let change = changes.last();
        let inserted_end = change.start + text::byte_len(change.text@);
        if end <= change.start {
            mapped_back(changes.drop_last(), start, end)
        } else if start >= inserted_end {
            mapped_back(
                changes.drop_last(),
                change.end + start - inserted_end,
                change.end + end - inserted_end,
            )
        } else {
            None
        }
    }
}

/// The edits of a batch that the preceding changes left untouched, mapped back.
pub open spec fn independent(changes: Seq<TextEdit>, batch: Seq<TextEdit>) -> Seq<LocalChange>
    decreases batch.len(),
{
    if batch.len() == 0 {
        Seq::empty()
    } else {
        let before = independent(changes, batch.drop_last());
        let edit = batch.last();
        match mapped_back(changes, edit.start as int, edit.end as int) {
            Some((start, end)) => before.push(LocalChange { start, end, text: edit.text@ }),
            None => before,
        }
    }
}

/// The batches as single changes, in the order in which they were made: a batch is made
/// from its end, so that its coordinates stay valid.
pub open spec fn as_changes(batches: Seq<Seq<TextEdit>>) -> Seq<TextEdit>
    decreases batches.len(),
{
    if batches.len() == 0 {
        Seq::empty()
    } else {
        as_changes(batches.drop_last()) + batches.last().reverse()
    }
}

/// All changes of the batches that can be made in the original document.
pub open spec fn local_changes(batches: Seq<Seq<TextEdit>>) -> Seq<LocalChange>
    decreases batches.len(),
{
    if batches.len() == 0 {
        Seq::empty()
    } else {
        local_changes(batches.drop_last()) + independent(
            as_changes(batches.drop_last()),
            batches.last(),
        )
    }
}

/// How far a change is from the cursor.
pub open spec fn cursor_distance(change: LocalChange, cursor: int) -> int {
    if change.start > cursor {
        change.start - cursor
    } else if cursor > change.end {
        cursor - change.end
    } else {
        0
    }
}

/// The first of the changes that are nearest to the cursor.
pub open spec fn nearest_change(changes: Seq<LocalChange>, cursor: int) -> Option<LocalChange>
    decreases changes.len(),
{
    if changes.len() == 0 {
        None
    } else {
        match nearest_change(changes.drop_last(), cursor) {
            Some(best) if cursor_distance(best, cursor) <= cursor_distance(
                changes.last(),
                cursor,
            ) => Some(best),
            _ => Some(changes.last()),
        }
    }
}

/// Whether a batch holds the edits that the step `i` of a stream makes.
pub open spec fn stream_step<D: Fn(&str, &str) -> Vec<TextEdit>>(
    text_diff: D,
    contents: Seq<char>,
    edits: Seq<CursorTabCompletion>,
    i: int,
    batch: Seq<TextEdit>,
) -> bool {
    match (all_edited(contents, edits.take(i)), all_edited(contents, edits.take(i + 1))) {
        (Ok(before), Ok(after)) => window_diff(text_diff, before, after, batch),
        _ => false,
    }
}

/// Whether the batches are the edits between the documents that a stream passes through.
pub open spec fn stream_batches<D: Fn(&str, &str) -> Vec<TextEdit>>(
    text_diff: D,
    contents: Seq<char>,
    edits: Seq<CursorTabCompletion>,
    batches: Seq<Seq<TextEdit>>,
) -> bool {
    &&& batches.len() == edits.len()
    &&& forall|i: int|
        0 <= i < edits.len() ==> stream_step(text_diff, contents, edits, i, #[trigger] batches[i])
}

/// The nearest change is one of the changes, none is nearer, and those in front of it are
/// farther away.
pub proof fn lemma_nearest_change(changes: Seq<LocalChange>, cursor: int)
    ensures
        match nearest_change(changes, cursor) {
            None => changes.len() == 0,
            Some(best) => exists|i: int|
                {
                    &&& 0 <= i < changes.len()
                    &&& #[trigger] changes[i] == best
                    &&& forall|j: int|
                        0 <= j < changes.len() ==> cursor_distance(best, cursor)
                            <= cursor_distance(#[trigger] changes[j], cursor)
                    &&& forall|j: int|
                        0 <= j < i ==> cursor_distance(best, cursor) < cursor_distance(
                            #[trigger] changes[j],
                            cursor,
                        )
                },
        },
    decreases changes.len(),
{
    if changes.len() > 0 {
        let head = changes.drop_last();
        let last = changes.len() - 1;
        lemma_nearest_change(head, cursor);
        let found = nearest_change(changes, cursor)->0;
        match nearest_change(head, cursor) {
            Some(best) => {
                let i = choose|i: int|
                    {
                        &&& 0 <= i < head.len()
                        &&& #[trigger] head[i] == best
                        &&& forall|j: int|
                            0 <= j < head.len() ==> cursor_distance(best, cursor)
                                <= cursor_distance(#[trigger] head[j], cursor)
                        &&& forall|j: int|
                            0 <= j < i ==> cursor_distance(best, cursor) < cursor_distance(
                                #[trigger] head[j],
                                cursor,
                            )
                    };
                assert forall|j: int| 0 <= j < last implies #[trigger] changes[j] == head[j] by {}
                if found == best && cursor_distance(best, cursor) <= cursor_distance(
                    changes.last(),
                    cursor,
                ) {
                    assert(changes[i] == best);
                } else {
                    assert(changes[last] == found);
                }
            },
            None => {
                assert(changes[last] == found);
            },
        }
    }
}

/// Whether a list holds exactly the given change, if there is one.
pub open spec fn holds_change(edits: Seq<TextEdit>, change: Option<LocalChange>) -> bool {
    match change {
        None => edits.len() == 0,
        Some(change) => {
            &&& edits.len() == 1
            &&& edits[0].start == change.start
            &&& edits[0].end == change.end
            &&& edits[0].text@ == change.text
        },
    }
}

/// Changes made in turn are those of the concatenation.
pub proof fn lemma_changes_compose(
    document: Seq<u8>,
    first: Seq<TextEdit>,
    second: Seq<TextEdit>,
)
    ensures
        changed(document, first + second) == changed(changed(document, first), second),
        changes_fit(document, first + second) <==> changes_fit(document, first) && changes_fit(
            changed(document, first),
            second,
        ),
    decreases second.len(),
{
    if second.len() == 0 {
        assert(first + second == first);
    } else {
        lemma_changes_compose(document, first, second.drop_last());
        assert((first + second).drop_last() == first + second.drop_last());
    }
}

/// The edits of a batch, made one by one from its end, replay the batch.
pub proof fn lemma_batch_as_changes(document: Seq<u8>, batch: Seq<TextEdit>)
    requires
        in_order(batch, document.len() as int),
    ensures
        changed(document, batch.reverse()) == replayed(document, batch),
        changes_fit(document, batch.reverse()),
    decreases batch.len(),
{
    if batch.len() == 0 {
        assert(batch.reverse() =~= Seq::empty());
    } else {
        let edit = batch.last();
        let rest = batch.drop_last();
        assert(batch[batch.len() - 1] == edit);
        let after = spliced(document, edit);
        assert forall|i: int| 0 <= i < rest.len() implies (#[trigger] rest[i]).start <= rest[i].end
            <= after.len() by {
            assert(batch[i].end <= edit.start);
        }
        lemma_batch_as_changes(after, rest);
        lemma_changes_compose(document, seq![edit], rest.reverse());
        assert(batch.reverse() =~= seq![edit] + rest.reverse());
        assert(seq![edit].drop_last() =~= Seq::<TextEdit>::empty());
        reveal_with_fuel(changed, 2);
        reveal_with_fuel(changes_fit, 2);
        assert(changed(document, seq![edit]) == after);
    }
}

/// A range that maps back lies in the original document and holds the same bytes there.
pub proof fn lemma_mapped_back(
    document: Seq<u8>,
    changes: Seq<TextEdit>,
    start: int,
    end: int,
)
    requires
        changes_fit(document, changes),
        0 <= start <= end <= changed(document, changes).len(),
    ensures
        match mapped_back(changes, start, end) {
            Some((s, e)) => {
                &&& 0 <= s <= e <= document.len()
                &&& document.subrange(s, e) == changed(document, changes).subrange(start, end)
            },
            None => true,
        },
    decreases changes.len(),
{
    if changes.len() > 0 {
        let change = changes.last();
        let before = changed(document, changes.drop_last());
        let after = changed(document, changes);
        let inserted = text::byte_len(change.text@);
        let inserted_end = change.start + inserted;
        if end <= change.start {
            lemma_mapped_back(document, changes.drop_last(), start, end);
            assert(before.subrange(start, end) =~= after.subrange(start, end));
        } else if start >= inserted_end {
            let s = change.end + start - inserted_end;
            let e = change.end + end - inserted_end;
            lemma_mapped_back(document, changes.drop_last(), s, e);
            assert(before.subrange(s, e) =~= after.subrange(start, end));
        }
    }
}

proof fn lemma_position_bound(steps: int, most: int)
    requires
        0 <= steps <= most,
        most <= 0xffff_ffff_ffff_ffff,
    ensures
        most * (steps + 1) <= u128::MAX,
{
    assert(most * (steps + 1) <= most * (most + 1)) by (nonlinear_arith)
        requires
            0 <= steps <= most,
    ;
    assert(most * (most + 1) <= 0xffff_ffff_ffff_ffff * 0x1_0000_0000_0000_0000)
        by (nonlinear_arith)
        requires
            0 <= most <= 0xffff_ffff_ffff_ffff,
    ;
}

/// Maps a range back to before the given changes, unless a change touched it.
fn map_back(changes: &Vec<TextEdit>, start: usize, end: usize) -> (r: Option<(u128, u128)>)
    requires
        start <= end,
    ensures
        match r {
            Some((s, e)) => mapped_back(changes@, start as int, end as int) == Some(
                (s as int, e as int),
            ),
            None => mapped_back(changes@, start as int, end as int) is None,
        },
{
    let mut s: u128 = start as u128;
    let mut e: u128 = end as u128;
    let count: usize = changes.len();
    let mut k: usize = count;
    let ghost most = usize::MAX as int;
    assert(changes@.take(k as int) == changes@);
    assert(most * (count - k + 1) == most) by (nonlinear_arith)
        requires
            k == count,
    ;
    while k > 0
        invariant
            k <= count == changes@.len(),
            most == usize::MAX,
            s <= e <= most * (count - k + 1),
            mapped_back(changes@, start as int, end as int) == mapped_back(
                changes@.take(k as int),
                s as int,
                e as int,
            ),
        decreases k,
    {
        k -= 1;
        assert(changes@.take(k + 1).drop_last() == changes@.take(k as int));
        proof {
            lemma_position_bound(count - k, most);
            assert(most * (count - k + 1) == most * (count - (k + 1) + 1) + most)
                by (nonlinear_arith);
        }
        let change: &TextEdit = &changes[k];
        let inserted: usize = text::str_byte_len(change.text.as_str());
        let inserted_end: u128 = change.start as u128 + inserted as u128;
        if e <= change.start as u128 {
            continue;
        }
        if s >= inserted_end {
            s = s - inserted_end + change.end as u128;
            e = e - inserted_end + change.end as u128;
        } else {
            return None;
        }
    }
    assert(changes@.take(0) =~= Seq::<TextEdit>::empty());
    Some((s, e))
}

/// Appends the edits of a batch to the changes, from its end.
fn append_reversed(changes: &mut Vec<TextEdit>, batch: Vec<TextEdit>)
    ensures
        final(changes)@ == old(changes)@ + batch@.reverse(),
{
    let ghost before = changes@;
    let ghost all = batch@;
    let mut batch = batch;
    assert(before =~= before + all.skip(all.len() as int).reverse());
    assert(all.take(all.len() as int) =~= all);
    while batch.len() > 0
        invariant
            batch@.len() <= all.len(),
            batch@ == all.take(batch@.len() as int),
            changes@ == before + all.skip(batch@.len() as int).reverse(),
        decreases batch@.len(),
    {
        let ghost n = batch@.len() as int;
        match batch.pop() {
            Some(edit) => {
                assert(edit == all[n - 1]);
                changes.push(edit);
                assert(changes@ =~= before + all.skip(n - 1).reverse());
                assert(batch@ =~= all.take(n - 1));
            },
            None => {},
        }
    }
    assert(all.skip(0) =~= all);
}

/// The distance of a range from the cursor.
fn distance_of(start: usize, end: usize, cursor: usize) -> (d: usize)
    ensures
        forall|text: Seq<char>|
            d == #[trigger] cursor_distance(
                LocalChange { start: start as int, end: end as int, text },
                cursor as int,
            ),
{
    if start > cursor {
        start - cursor
    } else if cursor > end {
        cursor - end
    } else {
        0
    }
}

/// Whether a candidate is the given change, with its distance from the cursor.
spec fn is_candidate(
    candidate: Option<(usize, TextEdit)>,
    change: Option<LocalChange>,
    cursor: int,
) -> bool {
    match (candidate, change) {
        (None, None) => true,
        (Some((distance, edit)), Some(change)) => {
            &&& distance == cursor_distance(change, cursor)
            &&& edit.start == change.start
            &&& edit.end == change.end
            &&& edit.text@ == change.text
        },
        _ => false,
    }
}

/// Whether a candidate stands inside a document of the given length.
spec fn candidate_within(candidate: Option<(usize, TextEdit)>, len: int) -> bool {
    match candidate {
        Some((_, edit)) => edit.start <= edit.end <= len,
        None => true,
    }
}

/// The candidate after a batch of edits: the first of the nearest changes so far.
fn nearest_in_batch(
    candidate: Option<(usize, TextEdit)>,
    changes: &Vec<TextEdit>,
    batch: &Vec<TextEdit>,
    cursor_offset: usize,
    Ghost(document): Ghost<Seq<u8>>,
    Ghost(before): Ghost<Seq<LocalChange>>,
) -> (r: Option<(usize, TextEdit)>)
    requires
        document.len() <= usize::MAX,
        changes_fit(document, changes@),
        in_order(batch@, changed(document, changes@).len() as int),
        is_candidate(candidate, nearest_change(before, cursor_offset as int), cursor_offset as int),
        candidate_within(candidate, document.len() as int),
    ensures
        is_candidate(
            r,
            nearest_change(before + independent(changes@, batch@), cursor_offset as int),
            cursor_offset as int,
        ),
        candidate_within(r, document.len() as int),
{
    let ghost cursor = cursor_offset as int;
    let mut nearest: Option<(usize, TextEdit)> = candidate;
    let mut j: usize = 0;
    assert(before + independent(changes@, batch@.take(0)) =~= before);
    while j < batch.len()
        invariant
            j <= batch@.len(),
            document.len() <= usize::MAX,
            cursor == cursor_offset,
            changes_fit(document, changes@),
            in_order(batch@, changed(document, changes@).len() as int),
            is_candidate(
                nearest,
                nearest_change(before + independent(changes@, batch@.take(j as int)), cursor),
                cursor,
            ),
            candidate_within(nearest, document.len() as int),
        decreases batch@.len() - j,
    {
        let edit: &TextEdit = &batch[j];
        let ghost found = before + independent(changes@, batch@.take(j as int));
        assert(batch@.take(j + 1).drop_last() == batch@.take(j as int));
        assert(batch@[j as int] == *edit);
        proof {
            lemma_mapped_back(document, changes@, edit.start as int, edit.end as int);
        }
        if let Some((start, end)) = map_back(changes, edit.start, edit.end) {
            let start: usize = start as usize;
            let end: usize = end as usize;
            let ghost change = LocalChange {
                start: start as int,
                end: end as int,
                text: edit.text@,
            };
            assert(before + independent(changes@, batch@.take(j + 1)) =~= found.push(change));
            assert(found.push(change).drop_last() =~= found);
            let distance: usize = distance_of(start, end, cursor_offset);
            assert(distance == cursor_distance(change, cursor));
            let closer: bool = match &nearest {
                Some((best, _)) => distance < *best,
                None => true,
            };
            if closer {
                nearest = Some((distance, TextEdit { start, end, text: edit.text.clone() }));
            }
        }
        j += 1;
    }
    assert(batch@.take(j as int) == batch@);
    nearest
}

/// One more batch continues the batches of a stream.
proof fn lemma_batches_extend<D: Fn(&str, &str) -> Vec<TextEdit>>(
    text_diff: D,
    contents: Seq<char>,
    edits: Seq<CursorTabCompletion>,
    i: int,
    batches: Seq<Seq<TextEdit>>,
    batch: Seq<TextEdit>,
    updated: Seq<char>,
    next: Seq<char>,
)
    requires
        0 <= i < edits.len(),
        stream_batches(text_diff, contents, edits.take(i), batches),
        all_edited(contents, edits.take(i)) == Ok::<Seq<char>, MultidiffError>(updated),
        all_edited(contents, edits.take(i + 1)) == Ok::<Seq<char>, MultidiffError>(next),
        window_diff(text_diff, updated, next, batch),
    ensures
        stream_batches(text_diff, contents, edits.take(i + 1), batches.push(batch)),
{
    let longer = batches.push(batch);
    let done = edits.take(i + 1);
    assert forall|k: int| 0 <= k < done.len() implies stream_step(
        text_diff,
        contents,
        done,
        k,
        #[trigger] longer[k],
    ) by {
        assert(done.take(k) =~= edits.take(k));
        assert(done.take(k + 1) =~= edits.take(k + 1));
        if k < i {
            assert(longer[k] == batches[k]);
            assert(edits.take(i).take(k) =~= edits.take(k));
            assert(edits.take(i).take(k + 1) =~= edits.take(k + 1));
        }
    }
}

/// The documents that a stream passes through fit in memory.
pub open spec fn stream_fits(contents: Seq<char>, edits: Seq<CursorTabCompletion>) -> bool {
    forall|i: int|
        0 <= i <= edits.len() ==> match #[trigger] all_edited(contents, edits.take(i)) {
            Ok(document) => text::byte_len(document) <= usize::MAX,
            Err(_) => true,
        }
}

/// The batches of a stream, made as single changes in turn, make of the document what the
/// stream makes of it.
pub proof fn lemma_stream_batches<D: Fn(&str, &str) -> Vec<TextEdit>>(
    text_diff: D,
    contents: Seq<char>,
    edits: Seq<CursorTabCompletion>,
    batches: Seq<Seq<TextEdit>>,
)
    requires
        sound_differ(text_diff),
        stream_batches(text_diff, contents, edits, batches),
        stream_fits(contents, edits),
    ensures
        all_edited(contents, edits) is Ok,
        changes_fit(encode_utf8(contents), as_changes(batches)),
        changed(encode_utf8(contents), as_changes(batches)) == encode_utf8(
            all_edited(contents, edits)->Ok_0,
        ),
    decreases edits.len(),
{
    assert(edits.take(edits.len() as int) =~= edits);
    if edits.len() > 0 {
        let n = edits.len() - 1;
        let head = edits.drop_last();
        let front = batches.drop_last();
        assert(edits.take(n) =~= head);
        assert forall|i: int| 0 <= i < head.len() implies stream_step(
            text_diff,
            contents,
            head,
            i,
            #[trigger] front[i],
        ) by {
            assert(stream_step(text_diff, contents, edits, i, batches[i]));
            assert(head.take(i) =~= edits.take(i));
            assert(head.take(i + 1) =~= edits.take(i + 1));
        }
        assert forall|i: int| 0 <= i <= head.len() implies match #[trigger] all_edited(
            contents,
            head.take(i),
        ) {
            Ok(document) => text::byte_len(document) <= usize::MAX,
            Err(_) => true,
        } by {
            assert(head.take(i) =~= edits.take(i));
            assert(all_edited(contents, edits.take(i)) == all_edited(contents, head.take(i)));
        }
        lemma_stream_batches(text_diff, contents, head, front);
        assert(stream_step(text_diff, contents, edits, n, batches[n]));
        let before = all_edited(contents, head)->Ok_0;
        let after = all_edited(contents, edits)->Ok_0;
        assert(all_edited(contents, edits.take(n)) == all_edited(contents, head));
        lemma_window_diff(text_diff, before, after, batches[n]);
        lemma_batch_as_changes(encode_utf8(before), batches[n]);
        lemma_changes_compose(
            encode_utf8(contents),
            as_changes(front),
            batches[n].reverse(),
        );
    }
}

/// The change of a multidiff stream that is nearest to the cursor, among those that can be
/// made in the document as it is.
///
/// Ranges move as earlier edits add and remove text. Only changes that can be mapped back
/// to the document are offered; a change inside text that an earlier edit inserted is not.
pub fn cursor_local_multidiff_edits<D: Fn(&str, &str) -> Vec<TextEdit>>(
    stream: &CursorTabStream,
    contents: &str,
    cursor_offset: usize,
    text_diff: &D,
) -> (r: Result<Vec<TextEdit>, MultidiffError>)
    requires
        sound_differ(*text_diff),
    ensures
        match r {
            Err(error) => all_edited(contents@, stream.edits@) == Err::<Seq<char>, MultidiffError>(
                error,
            ),
            Ok(offered) => {
                &&& all_edited(contents@, stream.edits@) is Ok
                &&& in_order(offered@, text::byte_len(contents@) as int)
                &&& exists|batches: Seq<Seq<TextEdit>>|
                    {
                        &&& #[trigger] stream_batches(
                            *text_diff,
                            contents@,
                            stream.edits@,
                            batches,
                        )
                        &&& holds_change(
                            offered@,
                            nearest_change(local_changes(batches), cursor_offset as int),
                        )
                    }
            },
        },
{
    let ghost document = encode_utf8(contents@);
    let ghost cursor = cursor_offset as int;
    // Positions in the document count its bytes, so all of them fit.
    let _size: usize = text::str_byte_len(contents);
    let ghost mut batches: Seq<Seq<TextEdit>> = Seq::empty();
    let mut updated: String = contents.to_owned();
    let mut changes: Vec<TextEdit> = Vec::new();
    let mut nearest: Option<(usize, TextEdit)> = None;
    let mut i: usize = 0;
    while i < stream.edits.len()
        invariant
            i <= stream.edits@.len(),
            sound_differ(*text_diff),
            document == encode_utf8(contents@),
            document.len() <= usize::MAX,
            cursor == cursor_offset,
            all_edited(contents@, stream.edits@.take(i as int)) == Ok::<Seq<char>, MultidiffError>(
                updated@,
            ),
            batches.len() == i,
            stream_batches(*text_diff, contents@, stream.edits@.take(i as int), batches),
            changes@ == as_changes(batches),
            changes_fit(document, changes@),
            changed(document, changes@) == encode_utf8(updated@),
            is_candidate(nearest, nearest_change(local_changes(batches), cursor), cursor),
            candidate_within(nearest, document.len() as int),
        decreases stream.edits@.len() - i,
    {
        let ghost edits = stream.edits@;
        assert(edits.take(i + 1).drop_last() == edits.take(i as int));
        let next: String = match apply_multidiff_edit(updated.as_str(), &stream.edits[i]) {
            Ok(next) => next,
            Err(error) => {
                proof {
                    lemma_failure_stands(contents@, edits, i + 1, error);
                }
                return Err(error);
            },
        };
        let batch: Vec<TextEdit> = multidiff_edits(updated.as_str(), next.as_str(), text_diff);
        proof {
            lemma_batches_extend(
                *text_diff,
                contents@,
                edits,
                i as int,
                batches,
                batch@,
                updated@,
                next@,
            );
            lemma_batch_as_changes(encode_utf8(updated@), batch@);
            lemma_changes_compose(document, changes@, batch@.reverse());
        }
        nearest = nearest_in_batch(
            nearest,
            &changes,
            &batch,
            cursor_offset,
            Ghost(document),
            Ghost(local_changes(batches)),
        );
        proof {
            assert(batches.push(batch@).drop_last() =~= batches);
            batches = batches.push(batch@);
        }
        append_reversed(&mut changes, batch);
        updated = next;
        i += 1;
    }
    assert(stream.edits@.take(i as int) == stream.edits@);
    let mut offered: Vec<TextEdit> = Vec::new();
    if let Some((_, edit)) = nearest {
        offered.push(edit);
    }
    Ok(offered)
}

// ---------------------------------------------------------------------------
// What a multidiff stream is turned into
// ---------------------------------------------------------------------------

/// A document has as rows, after an edit, the rows in front of the range, those of the text,
/// and those behind the range; an empty text leaves none in their place. An edit can be made
/// when it has a range that begins in the document and ends in it, counting rows from one, or
/// that inserts in front of a row or behind the last.
pub proof fn lemma_edited_rows(
    document: Seq<char>,
    range: Option<RangeToReplace>,
    replacement: Seq<char>,
)
    ensures
        ({
            let rows = text::rows(document);
            let made = edited(document, range, replacement);
            match range {
                None => made == Err::<Seq<char>, MultidiffError>(MultidiffError::MissingRange),
                Some(range) => {
                    let first = range.start_line as int;
                    let last = range.end_line as int;
                    let kept = rows.take(first - 1) + if replacement.len() == 0 {
                        Seq::empty()
                    } else {
                        text::rows(replacement)
                    } + rows.skip(last);
                    &&& made is Ok <==> 1 <= first && first - 1 <= last <= rows.len()
                    &&& made is Ok && kept.len() > 0 ==> text::rows(made->Ok_0) == kept
                    &&& made is Ok && kept.len() == 0 ==> made->Ok_0.len() == 0
                    &&& first < 1 || last < first - 1 ==> made == Err::<
                        Seq<char>,
                        MultidiffError,
                    >(MultidiffError::InvalidLineRange(range))
                    &&& 1 <= first <= last && rows.len() < first ==> made == Err::<
                        Seq<char>,
                        MultidiffError,
                    >(MultidiffError::StartsBeyondDocument)
                    &&& 1 <= first <= rows.len() < last ==> made == Err::<
                        Seq<char>,
                        MultidiffError,
                    >(MultidiffError::EndsBeyondDocument)
                },
            }
        }),
{
    let sep = seq!['\n'];
    let rows = text::rows(document);
    if let (Some(range), Ok(after)) = (range, edited(document, range, replacement)) {
        let start = range.start_line - 1;
        let end = range.end_line as int;
        let front = rows.take(start);
        let back = rows.skip(end);
        text::lemma_split_free(document, sep);
        text::lemma_split_free(replacement, sep);
        text::lemma_split_nonempty(replacement, sep);
        text::lemma_join_split(replacement, sep);
        if replacement.len() == 0 {
            let kept = front + Seq::<Seq<char>>::empty() + back;
            assert(front + replacement_rows(replacement) + back =~= kept);
            if kept.len() > 0 {
                assert forall|j: int| 0 <= j < kept.len() implies text::free_of(
                    #[trigger] kept[j],
                    sep,
                ) by {
                    if j < front.len() {
                        assert(kept[j] == rows[j]);
                    } else {
                        assert(kept[j] == rows[end + j - front.len()]);
                    }
                }
                text::lemma_split_join(kept, sep);
            }
        } else {
            let fresh = text::rows(replacement);
            let kept = front + fresh + back;
            assert forall|j: int| 0 <= j < kept.len() implies text::free_of(
                #[trigger] kept[j],
                sep,
            ) by {
                if j < front.len() {
                    assert(kept[j] == rows[j]);
                } else if j < front.len() + fresh.len() {
                    assert(kept[j] == fresh[j - front.len()]);
                } else {
                    assert(kept[j] == rows[end + j - front.len() - fresh.len()]);
                }
            }
            text::lemma_split_join(kept, sep);
            lemma_join_nested(front, fresh, back);
        }
    }
}

proof fn lemma_join_concat(first: Seq<Seq<char>>, second: Seq<Seq<char>>)
    requires
        first.len() > 0,
        second.len() > 0,
    ensures
        text::join(first + second, seq!['\n']) == text::join(first, seq!['\n']) + seq!['\n']
            + text::join(second, seq!['\n']),
    decreases second.len(),
{
    let sep = seq!['\n'];
    let head = second.drop_last();
    assert((first + second).drop_last() =~= first + head);
    if second.len() == 1 {
        assert(first + head =~= first);
    } else {
        lemma_join_concat(first, head);
        assert(text::join(first + second, sep) =~= text::join(first, sep) + sep + text::join(
            second,
            sep,
        ));
    }
}

proof fn lemma_join_nested(front: Seq<Seq<char>>, fresh: Seq<Seq<char>>, back: Seq<Seq<char>>)
    requires
        fresh.len() > 0,
    ensures
        text::join(front + seq![text::join(fresh, seq!['\n'])] + back, seq!['\n']) == text::join(
            front + fresh + back,
            seq!['\n'],
        ),
{
    let sep = seq!['\n'];
    let one = seq![text::join(fresh, sep)];
    assert(text::join(one, sep) == text::join(fresh, sep));
    if front.len() > 0 {
        lemma_join_concat(front, one);
        lemma_join_concat(front, fresh);
    } else {
        assert(front + one =~= one);
        assert(front + fresh =~= fresh);
    }
    assert(text::join(front + one, sep) == text::join(front + fresh, sep));
    if back.len() > 0 {
        lemma_join_concat(front + one, back);
        lemma_join_concat(front + fresh, back);
    } else {
        assert(front + one + back =~= front + one);
        assert(front + fresh + back =~= front + fresh);
    }
}

/// A list of one edit makes what the edit makes, and an empty one leaves the document.
pub proof fn lemma_one_edit(document: Seq<char>, edit: CursorTabCompletion)
    ensures
        all_edited(document, seq![edit]) == edited(document, edit.range, edit.text@),
        all_edited(document, Seq::empty()) == Ok::<Seq<char>, MultidiffError>(document),
{
    assert(seq![edit].drop_last() =~= Seq::<CursorTabCompletion>::empty());
    reveal_with_fuel(all_edited, 2);
}

/// The edits of the changed window leave alone what two texts have in common at their start,
/// and what they have in common at their end behind that.
pub proof fn lemma_window_only<D: Fn(&str, &str) -> Vec<TextEdit>>(
    text_diff: D,
    contents: Seq<char>,
    updated: Seq<char>,
    edits: Seq<TextEdit>,
    start: int,
    end: int,
)
    requires
        sound_differ(text_diff),
        window_diff(text_diff, contents, updated, edits),
        text::byte_len(contents) <= usize::MAX,
        0 <= start <= contents.len(),
        start <= updated.len(),
        contents.take(start) == updated.take(start),
        start < contents.len() && start < updated.len() ==> contents[start] != updated[start],
        0 <= end <= contents.len() - start,
        end <= updated.len() - start,
        contents.skip(contents.len() - end) == updated.skip(updated.len() - end),
    ensures
        forall|i: int|
            0 <= i < edits.len() ==> {
                let edit = #[trigger] edits[i];
                text::byte_len(contents.take(start)) <= edit.start <= edit.end <= text::byte_len(
                    contents.take(contents.len() - end),
                )
            },
{
    let prefix = text::common_prefix(contents, updated);
    text::lemma_common_prefix(contents, updated);
    if prefix < start {
        assert(contents[prefix] == contents.take(start)[prefix]);
        assert(updated[prefix] == updated.take(start)[prefix]);
    } else if start < prefix {
        assert(contents[start] == contents.take(prefix)[start]);
        assert(updated[start] == updated.take(prefix)[start]);
    }
    assert(prefix == start);
    let a = contents.skip(prefix);
    let b = updated.skip(prefix);
    let suffix = text::common_suffix(a, b);
    text::lemma_common_suffix(a, b);
    if suffix < end {
        assert(a[a.len() - 1 - suffix] == contents.skip(contents.len() - end)[end - 1 - suffix]);
        assert(b[b.len() - 1 - suffix] == updated.skip(updated.len() - end)[end - 1 - suffix]);
    }
    assert(end <= suffix);
    let middle = contents.subrange(prefix, contents.len() - suffix);
    let fresh = updated.subrange(prefix, updated.len() - suffix);
    let by = text::byte_len(contents.take(prefix)) as int;
    let answer = choose|answer: Seq<TextEdit>|
        {
            &&& #[trigger] differ_answers(text_diff, middle, fresh, answer)
            &&& edits == shifted(answer, by)
        };
    text::lemma_encode_cut(contents, contents.len() - suffix);
    let front = contents.take(contents.len() - suffix);
    text::lemma_encode_cut(front, prefix);
    assert(front.take(prefix) =~= contents.take(prefix));
    assert(front.skip(prefix) =~= middle);
    text::lemma_encode_cut(contents.take(contents.len() - end), contents.len() - suffix);
    assert(contents.take(contents.len() - end).take(contents.len() - suffix) =~= front);
    assert forall|i: int| 0 <= i < edits.len() implies {
        let edit = #[trigger] edits[i];
        text::byte_len(contents.take(start)) <= edit.start <= edit.end <= text::byte_len(
            contents.take(contents.len() - end),
        )
    } by {
        assert(edits[i] == shifted(answer, by)[i]);
        assert(answer[i].end <= text::byte_len(middle));
    }
}

/// A range in front of a change maps back as if the change had not been made; one behind the
/// text that the change put in maps back to where it was before the change; one that touches
/// that text does not map back.
pub proof fn lemma_mapped_back_step(
    changes: Seq<TextEdit>,
    change: TextEdit,
    start: int,
    end: int,
)
    requires
        start <= end,
        change.start <= change.end,
    ensures
        end <= change.start ==> mapped_back(changes.push(change), start, end) == mapped_back(
            changes,
            start,
            end,
        ),
        change.end <= start && change.start < end + text::byte_len(change.text@) - (change.end
            - change.start) ==> mapped_back(
            changes.push(change),
            start + text::byte_len(change.text@) - (change.end - change.start),
            end + text::byte_len(change.text@) - (change.end - change.start),
        ) == mapped_back(changes, start, end),
        change.start < end && start < change.start + text::byte_len(change.text@) ==> mapped_back(
            changes.push(change),
            start,
            end,
        ) is None,
        mapped_back(Seq::empty(), start, end) == Some((start, end)),
{
    assert(changes.push(change).drop_last() =~= changes);
}

/// The distance of a change from the cursor is the number of bytes between them: none when
/// the cursor is inside it or at one of its ends.
pub proof fn lemma_cursor_distance(start: int, end: int, text: Seq<char>, cursor: int)
    requires
        start <= end,
    ensures
        ({
            let distance = cursor_distance(LocalChange { start, end, text }, cursor);
            &&& distance == 0 <==> start <= cursor <= end
            &&& cursor < start ==> cursor + distance == start
            &&& end < cursor ==> end + distance == cursor
        }),
{
}

/// Whether a range comes within the given number of bytes of the cursor.
pub open spec fn within_reach(start: int, end: int, cursor: int, bytes: int) -> bool {
    start <= cursor + bytes && cursor - bytes <= end
}

/// The change that is nearest to the cursor is within any reach that another change is in,
/// on either side, and the changes in front of it in the list are farther away.
pub proof fn lemma_nearest_in_reach(changes: Seq<LocalChange>, cursor: int, best: LocalChange)
    requires
        nearest_change(changes, cursor) == Some(best),
        forall|j: int| 0 <= j < changes.len() ==> (#[trigger] changes[j]).start <= changes[j].end,
    ensures
        exists|i: int|
            {
                &&& 0 <= i < changes.len()
                &&& #[trigger] changes[i] == best
                &&& forall|j: int, bytes: int|
                    0 <= j < changes.len() && 0 <= bytes && #[trigger] within_reach(
                        (#[trigger] changes[j]).start,
                        changes[j].end,
                        cursor,
                        bytes,
                    ) ==> {
                        &&& within_reach(best.start, best.end, cursor, bytes)
                        &&& j < i ==> bytes >= 1 && within_reach(
                            best.start,
                            best.end,
                            cursor,
                            bytes - 1,
                        )
                    }
            },
{
    lemma_nearest_change(changes, cursor);
    let i = choose|i: int|
        {
            &&& 0 <= i < changes.len()
            &&& #[trigger] changes[i] == best
            &&& forall|j: int|
                0 <= j < changes.len() ==> cursor_distance(best, cursor) <= cursor_distance(
                    #[trigger] changes[j],
                    cursor,
                )
            &&& forall|j: int|
                0 <= j < i ==> cursor_distance(best, cursor) < cursor_distance(
                    #[trigger] changes[j],
                    cursor,
                )
        };
    assert(changes[i].start <= changes[i].end);
    assert forall|j: int, bytes: int|
        0 <= j < changes.len() && 0 <= bytes && #[trigger] within_reach(
            (#[trigger] changes[j]).start,
            changes[j].end,
            cursor,
            bytes,
        ) implies {
        &&& within_reach(best.start, best.end, cursor, bytes)
        &&& j < i ==> bytes >= 1 && within_reach(best.start, best.end, cursor, bytes - 1)
    } by {
        assert(cursor_distance(best, cursor) <= cursor_distance(changes[j], cursor));
    }
    assert(changes[i] == best);
}

/// Whether the `k`-th edit of the `b`-th batch, mapped back to the document that the stream
/// started from, is the given range.
pub open spec fn maps_to(
    batches: Seq<Seq<TextEdit>>,
    b: int,
    k: int,
    start: int,
    end: int,
) -> bool {
    &&& 0 <= b < batches.len()
    &&& 0 <= k < batches[b].len()
    &&& mapped_back(
        as_changes(batches.take(b)),
        batches[b][k].start as int,
        batches[b][k].end as int,
    ) == Some((start, end))
}

proof fn lemma_mapped_back_size(changes: Seq<TextEdit>, start: int, end: int)
    ensures
        match mapped_back(changes, start, end) {
            Some((s, e)) => e - s == end - start,
            None => true,
        },
    decreases changes.len(),
{
    if changes.len() > 0 {
        let change = changes.last();
        let inserted_end = change.start + text::byte_len(change.text@);
        lemma_mapped_back_size(changes.drop_last(), start, end);
        lemma_mapped_back_size(
            changes.drop_last(),
            change.end + start - inserted_end,
            change.end + end - inserted_end,
        );
    }
}

proof fn lemma_independent(changes: Seq<TextEdit>, batch: Seq<TextEdit>)
    ensures
        forall|k: int|
            #![trigger batch[k]]
            0 <= k < batch.len() ==> match mapped_back(
                changes,
                batch[k].start as int,
                batch[k].end as int,
            ) {
                Some((start, end)) => independent(changes, batch).contains(
                    LocalChange { start, end, text: batch[k].text@ },
                ),
                None => true,
            },
        forall|j: int|
            0 <= j < independent(changes, batch).len() ==> exists|k: int|
                0 <= k < batch.len() && mapped_back(
                    changes,
                    (#[trigger] batch[k]).start as int,
                    batch[k].end as int,
                ) == Some(
                    (
                        (#[trigger] independent(changes, batch)[j]).start,
                        independent(changes, batch)[j].end,
                    ),
                ) && batch[k].text@ == independent(changes, batch)[j].text,
    decreases batch.len(),
{
    if batch.len() > 0 {
        let head = batch.drop_last();
        let last = batch.len() - 1;
        let before = independent(changes, head);
        let all = independent(changes, batch);
        lemma_independent(changes, head);
        assert(batch[last] == batch.last());
        assert forall|k: int| #![trigger batch[k]] 0 <= k < batch.len() implies match mapped_back(
            changes,
            batch[k].start as int,
            batch[k].end as int,
        ) {
            Some((start, end)) => all.contains(LocalChange { start, end, text: batch[k].text@ }),
            None => true,
        } by {
            if let Some((start, end)) = mapped_back(
                changes,
                batch[k].start as int,
                batch[k].end as int,
            ) {
                let change = LocalChange { start, end, text: batch[k].text@ };
                if k < last {
                    assert(head[k] == batch[k]);
                    assert(before.contains(change));
                    let at = before.index_of(change);
                    assert(all[at] == change);
                } else {
                    assert(all[before.len() as int] == change);
                }
            }
        }
        assert forall|j: int| 0 <= j < all.len() implies exists|k: int|
            0 <= k < batch.len() && mapped_back(
                changes,
                (#[trigger] batch[k]).start as int,
                batch[k].end as int,
            ) == Some(((#[trigger] all[j]).start, all[j].end)) && batch[k].text@ == all[j].text by {
            if j < before.len() {
                assert(all[j] == before[j]);
                let k = choose|k: int|
                    0 <= k < head.len() && mapped_back(
                        changes,
                        (#[trigger] head[k]).start as int,
                        head[k].end as int,
                    ) == Some((before[j].start, before[j].end)) && head[k].text@ == before[j].text;
                assert(batch[k] == head[k]);
            } else {
                assert(batch[last].text@ == all[j].text);
            }
        }
    }
}

proof fn lemma_local_changes(batches: Seq<Seq<TextEdit>>)
    ensures
        forall|b: int, k: int, start: int, end: int| #[trigger]
            maps_to(batches, b, k, start, end) ==> local_changes(batches).contains(
                LocalChange { start, end, text: batches[b][k].text@ },
            ),
        forall|j: int|
            0 <= j < local_changes(batches).len() ==> exists|b: int, k: int|
                maps_to(
                    batches,
                    b,
                    k,
                    (#[trigger] local_changes(batches)[j]).start,
                    local_changes(batches)[j].end,
                ) && (#[trigger] batches[b][k]).text@ == local_changes(batches)[j].text,
    decreases batches.len(),
{
    if batches.len() > 0 {
        let head = batches.drop_last();
        let last = batches.len() - 1;
        let before = local_changes(head);
        let changes = as_changes(head);
        let own = independent(changes, batches.last());
        let all = local_changes(batches);
        lemma_local_changes(head);
        lemma_independent(changes, batches.last());
        assert(batches.take(last) =~= head);
        assert(all =~= before + own);
        assert forall|b: int, k: int, start: int, end: int| #[trigger]
            maps_to(batches, b, k, start, end) implies all.contains(
            LocalChange { start, end, text: batches[b][k].text@ },
        ) by {
            let change = LocalChange { start, end, text: batches[b][k].text@ };
            if b < last {
                assert(head.take(b) =~= batches.take(b));
                assert(maps_to(head, b, k, start, end));
                assert(before.contains(change));
                let at = before.index_of(change);
                assert(all[at] == change);
            } else {
                assert(batches.last()[k] == batches[b][k]);
                assert(own.contains(change));
                let at = own.index_of(change);
                assert(all[before.len() + at] == change);
            }
        }
        assert forall|j: int| 0 <= j < all.len() implies exists|b: int, k: int|
            maps_to(batches, b, k, (#[trigger] all[j]).start, all[j].end) && (
            #[trigger] batches[b][k]).text@ == all[j].text by {
            if j < before.len() {
                assert(all[j] == before[j]);
                let (b, k) = choose|b: int, k: int|
                    maps_to(head, b, k, before[j].start, before[j].end) && (
                    #[trigger] head[b][k]).text@ == before[j].text;
                assert(head.take(b) =~= batches.take(b));
                assert(batches[b][k].text@ == all[j].text);
            } else {
                let at = j - before.len();
                assert(all[j] == own[at]);
                let k = choose|k: int|
                    0 <= k < batches.last().len() && mapped_back(
                        changes,
                        (#[trigger] batches.last()[k]).start as int,
                        batches.last()[k].end as int,
                    ) == Some((own[at].start, own[at].end)) && batches.last()[k].text@
                        == own[at].text;
                assert(maps_to(batches, last, k, all[j].start, all[j].end));
                assert(batches[last][k].text@ == all[j].text);
            }
        }
    }
}

/// One change is offered when any can be made in the document as it is, and none otherwise.
/// It is one of the stream's own, mapped back, and none of those that can be made has fewer
/// bytes between it and the cursor, on either side of the cursor.
pub proof fn lemma_offered_change(
    batches: Seq<Seq<TextEdit>>,
    cursor: int,
    offered: Seq<TextEdit>,
)
    requires
        holds_change(offered, nearest_change(local_changes(batches), cursor)),
        forall|b: int, k: int|
            0 <= b < batches.len() && 0 <= k < batches[b].len() ==> (
            #[trigger] batches[b][k]).start <= batches[b][k].end,
    ensures
        offered.len() <= 1,
        offered.len() == 0 ==> forall|b: int, k: int, start: int, end: int|
            !#[trigger] maps_to(batches, b, k, start, end),
        offered.len() == 1 ==> {
            let offer = offered[0];
            &&& exists|b: int, k: int|
                maps_to(batches, b, k, offer.start as int, offer.end as int) && (
                #[trigger] batches[b][k]).text@ == offer.text@
            &&& forall|b: int, k: int, start: int, end: int| #[trigger]
                maps_to(batches, b, k, start, end) ==> {
                    &&& start <= cursor <= end ==> offer.start <= cursor <= offer.end
                    &&& cursor < start ==> offer.start <= start && cursor - (start - cursor)
                        <= offer.end
                    &&& end < cursor ==> end <= offer.end && offer.start <= cursor + (cursor - end)
                }
        },
        batches.len() > 0 && batches[0].len() > 0 ==> offered.len() == 1,
{
    let changes = local_changes(batches);
    lemma_local_changes(batches);
    lemma_nearest_change(changes, cursor);
    assert forall|j: int| 0 <= j < changes.len() implies (#[trigger] changes[j]).start
        <= changes[j].end by {
        let (b, k) = choose|b: int, k: int|
            maps_to(batches, b, k, changes[j].start, changes[j].end) && (
            #[trigger] batches[b][k]).text@ == changes[j].text;
        assert(batches[b][k].start <= batches[b][k].end);
        lemma_mapped_back_size(
            as_changes(batches.take(b)),
            batches[b][k].start as int,
            batches[b][k].end as int,
        );
    }
    assert forall|b: int, k: int, start: int, end: int| #[trigger]
        maps_to(batches, b, k, start, end) implies exists|j: int|
        0 <= j < changes.len() && (#[trigger] changes[j]).start == start && changes[j].end == end by {
        let change = LocalChange { start, end, text: batches[b][k].text@ };
        assert(changes.contains(change));
        let at = changes.index_of(change);
        assert(changes[at] == change);
    }
    if batches.len() > 0 && batches[0].len() > 0 {
        let edit = batches[0][0];
        assert(batches.take(0) =~= Seq::<Seq<TextEdit>>::empty());
        assert(maps_to(batches, 0, 0, edit.start as int, edit.end as int));
    }
    if let Some(best) = nearest_change(changes, cursor) {
        let at = choose|i: int|
            {
                &&& 0 <= i < changes.len()
                &&& #[trigger] changes[i] == best
                &&& forall|j: int|
                    0 <= j < changes.len() ==> cursor_distance(best, cursor) <= cursor_distance(
                        #[trigger] changes[j],
                        cursor,
                    )
            };
        assert(changes[at] == best);
        assert forall|b: int, k: int, start: int, end: int| #[trigger]
            maps_to(batches, b, k, start, end) implies {
            &&& start <= cursor <= end ==> best.start <= cursor <= best.end
            &&& cursor < start ==> best.start <= start && cursor - (start - cursor) <= best.end
            &&& end < cursor ==> end <= best.end && best.start <= cursor + (cursor - end)
        } by {
            let j = choose|j: int|
                0 <= j < changes.len() && (#[trigger] changes[j]).start == start && changes[j].end
                    == end;
            assert(cursor_distance(best, cursor) <= cursor_distance(changes[j], cursor));
        }
    }
}

} // verus!
