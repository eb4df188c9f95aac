//! From prepared edits to the completion that is offered.

use crate::messages::CursorPredictionTarget;
use crate::multidiff;
use crate::multidiff::TextEdit;
use crate::replacement;
use crate::replacement::{prepared_edits_from_stream, PreparedEdit, ReplacementError};
use crate::snapshot;
use crate::snapshot::{Bias, Point, PointUtf16, Snapshot};
use crate::stream::{CursorTabCompletion, CursorTabStream};
use crate::targets;
use crate::targets::{
    cursor_target_from_stream, map_cursor_target, predicted_cursor_in_snapshot, PredictedCursor,
};
use crate::text;
use vstd::prelude::*;
use vstd::utf8::*;

verus! {

/// An edit of the bytes `start..end` of a document. The start sticks to the side that
/// `start_bias` names when the document changes around it; the end sticks to the right.
#[derive(Debug, PartialEq)]
pub struct AnchoredEdit {
    pub start: usize,
    pub start_bias: Bias,
    pub end: usize,
    pub text: String,
}

/// A completion to offer.
#[derive(Debug, PartialEq)]
pub struct PlannedCompletion {
    pub edits: Vec<AnchoredEdit>,
    pub cursor_position: Option<PredictedCursor>,
    pub should_retrigger: bool,
}

// ---------------------------------------------------------------------------
// Anchored edits
// ---------------------------------------------------------------------------

/// Whether an anchored edit makes the given edit: an insertion sticks to what stands
/// behind it, a replacement to what it replaces.
pub open spec fn anchors(anchored: AnchoredEdit, edit: TextEdit) -> bool {
    &&& anchored.start == edit.start
    &&& anchored.end == edit.end
    &&& anchored.text == edit.text
    &&& anchored.start_bias == if edit.start == edit.end {
        Bias::Right
    } else {
        Bias::Left
    }
}

/// Whether anchored edits make the given edits, one for one.
pub open spec fn all_anchored(anchored: Seq<AnchoredEdit>, edits: Seq<TextEdit>) -> bool {
    &&& anchored.len() == edits.len()
    &&& forall|i: int| 0 <= i < edits.len() ==> anchors(#[trigger] anchored[i], edits[i])
}

/// Whether a differ answers each prepared edit with the given edits between the text that
/// it replaces and the text that it puts there.
pub open spec fn answered<D: Fn(&str, &str) -> Vec<TextEdit>>(
    text_diff: D,
    rows: Seq<Seq<char>>,
    prepared: Seq<PreparedEdit>,
    answers: Seq<Seq<TextEdit>>,
) -> bool {
    &&& answers.len() == prepared.len()
    &&& forall|i: int|
        0 <= i < prepared.len() ==> multidiff::differ_answers(
            text_diff,
            snapshot::text_between(rows, prepared[i].start, prepared[i].end),
            prepared[i].text@,
            #[trigger] answers[i],
        )
}

/// The answers of the differ, moved to where the prepared edits stand.
pub open spec fn placed(
    rows: Seq<Seq<char>>,
    prepared: Seq<PreparedEdit>,
    answers: Seq<Seq<TextEdit>>,
) -> Seq<TextEdit>
    decreases prepared.len(),
{
    if prepared.len() == 0 || answers.len() == 0 {
        Seq::empty()
    } else {
        placed(rows, prepared.drop_last(), answers.drop_last()) + multidiff::shifted(
            answers.last(),
            snapshot::offset_of(rows, prepared.last().start),
        )
    }
}

/// A prepared edit as an edit of the document's bytes.
pub open spec fn whole_edit(rows: Seq<Seq<char>>, edit: PreparedEdit) -> TextEdit {
    TextEdit {
        start: snapshot::offset_of(rows, edit.start) as usize,
        end: snapshot::offset_of(rows, edit.end) as usize,
        text: edit.text,
    }
}

/// Prepared edits as edits of the document's bytes.
pub open spec fn whole_edits(rows: Seq<Seq<char>>, edits: Seq<PreparedEdit>) -> Seq<TextEdit> {
    Seq::new(edits.len(), |i: int| whole_edit(rows, edits[i]))
}

/// Replaying one list of edits behind another is replaying their concatenation.
pub proof fn lemma_replayed_concat(
    document: Seq<u8>,
    first: Seq<TextEdit>,
    second: Seq<TextEdit>,
)
    ensures
        multidiff::replayed(document, first + second) == multidiff::replayed(
            multidiff::replayed(document, second),
            first,
        ),
    decreases second.len(),
{
    if second.len() == 0 {
        assert(first + second =~= first);
    } else {
        assert((first + second).drop_last() =~= first + second.drop_last());
        lemma_replayed_concat(
            multidiff::spliced(document, second.last()),
            first,
            second.drop_last(),
        );
    }
}

/// The bytes of a document in front of a position and between two positions.
proof fn lemma_window_bytes(rows: Seq<Seq<char>>, start: PointUtf16, end: PointUtf16)
    requires
        snapshot::document_rows(rows),
        snapshot::valid_point(rows, start),
        snapshot::valid_point(rows, end),
        snapshot::not_behind(start, end),
    ensures
        ({
            let document = encode_utf8(text::join(rows, seq!['\n']));
            let from = snapshot::offset_of(rows, start);
            let to = snapshot::offset_of(rows, end);
            &&& 0 <= from <= to <= document.len()
            &&& document.subrange(from, to) == encode_utf8(
                snapshot::text_between(rows, start, end),
            )
        }),
{
    let whole = text::join(rows, seq!['\n']);
    let head = snapshot::before_point(rows, start);
    let between = snapshot::text_between(rows, start, end);
    snapshot::lemma_text_between(rows, start, end);
    let upto = snapshot::before_point(rows, end);
    text::lemma_encode_cut(whole, upto.len() as int);
    text::lemma_encode_concat(head, between);
    let document = encode_utf8(whole);
    let from = snapshot::offset_of(rows, start);
    let to = snapshot::offset_of(rows, end);
    assert(document.subrange(from, to) =~= encode_utf8(between));
}

/// Prepared edits that stand in order and apart can be made in small steps: the answers of
/// a sound differ, moved into place, make of the document what the prepared edits make of
/// it, and stand in order and apart themselves.
pub proof fn lemma_placed_edits_apply(
    rows: Seq<Seq<char>>,
    prepared: Seq<PreparedEdit>,
    answers: Seq<Seq<TextEdit>>,
)
    requires
        snapshot::document_rows(rows),
        replacement::well_placed(rows, prepared),
        multidiff::in_order(
            whole_edits(rows, prepared),
            text::byte_len(text::join(rows, seq!['\n'])) as int,
        ),
        answers.len() == prepared.len(),
        forall|i: int|
            0 <= i < prepared.len() ==> multidiff::is_text_diff(
                encode_utf8(snapshot::text_between(rows, prepared[i].start, prepared[i].end)),
                encode_utf8(prepared[i].text@),
                #[trigger] answers[i],
            ),
    ensures
        multidiff::replayed(
            encode_utf8(text::join(rows, seq!['\n'])),
            placed(rows, prepared, answers),
        ) == multidiff::replayed(
            encode_utf8(text::join(rows, seq!['\n'])),
            whole_edits(rows, prepared),
        ),
        multidiff::in_order(
            placed(rows, prepared, answers),
            text::byte_len(text::join(rows, seq!['\n'])) as int,
        ),
{
    let document = encode_utf8(text::join(rows, seq!['\n']));
    let whole = whole_edits(rows, prepared);
    assert forall|i: int| 0 <= i < prepared.len() implies document.subrange(
        (#[trigger] whole[i]).start as int,
        whole[i].end as int,
    ) == encode_utf8(
        snapshot::text_between(rows, prepared[i].start, prepared[i].end),
    ) && whole[i].start == snapshot::offset_of(rows, prepared[i].start) by {
        let edit = prepared[i];
        lemma_window_bytes(rows, edit.start, edit.end);
    }
    assert forall|i: int| 0 <= i < whole.len() implies multidiff::is_text_diff(
        document.subrange((#[trigger] whole[i]).start as int, whole[i].end as int),
        encode_utf8(whole[i].text@),
        answers[i],
    ) by {
        assert(multidiff::is_text_diff(
            encode_utf8(snapshot::text_between(rows, prepared[i].start, prepared[i].end)),
            encode_utf8(prepared[i].text@),
            answers[i],
        ));
    }
    lemma_fine_edits(document, whole, answers);
    lemma_placed_is_fine(rows, prepared, answers);
}

/// Edits of windows, each moved to where its window starts.
spec fn fine_edits(whole: Seq<TextEdit>, answers: Seq<Seq<TextEdit>>) -> Seq<TextEdit>
    decreases whole.len(),
{
    if whole.len() == 0 || answers.len() == 0 {
        Seq::empty()
    } else {
        fine_edits(whole.drop_last(), answers.drop_last()) + multidiff::shifted(
            answers.last(),
            whole.last().start as int,
        )
    }
}

proof fn lemma_placed_is_fine(
    rows: Seq<Seq<char>>,
    prepared: Seq<PreparedEdit>,
    answers: Seq<Seq<TextEdit>>,
)
    requires
        answers.len() == prepared.len(),
        forall|i: int|
            0 <= i < prepared.len() ==> (#[trigger] whole_edits(rows, prepared)[i]).start
                == snapshot::offset_of(rows, prepared[i].start),
    ensures
        placed(rows, prepared, answers) == fine_edits(whole_edits(rows, prepared), answers),
    decreases prepared.len(),
{
    if prepared.len() > 0 {
        let whole = whole_edits(rows, prepared);
        let head = prepared.drop_last();
        assert(whole_edits(rows, head) =~= whole.drop_last());
        assert forall|i: int| 0 <= i < head.len() implies (#[trigger] whole_edits(
            rows,
            head,
        )[i]).start == snapshot::offset_of(rows, head[i].start) by {
            assert(whole[i].start == snapshot::offset_of(rows, prepared[i].start));
        }
        lemma_placed_is_fine(rows, head, answers.drop_last());
        assert(whole[prepared.len() - 1].start == snapshot::offset_of(
            rows,
            prepared[prepared.len() - 1].start,
        ));
    }
}

proof fn lemma_fine_edits(
    document: Seq<u8>,
    whole: Seq<TextEdit>,
    answers: Seq<Seq<TextEdit>>,
)
    requires
        multidiff::in_order(whole, document.len() as int),
        answers.len() == whole.len(),
        forall|i: int|
            0 <= i < whole.len() ==> multidiff::is_text_diff(
                document.subrange((#[trigger] whole[i]).start as int, whole[i].end as int),
                encode_utf8(whole[i].text@),
                answers[i],
            ),
    ensures
        multidiff::replayed(document, fine_edits(whole, answers)) == multidiff::replayed(
            document,
            whole,
        ),
        multidiff::in_order(fine_edits(whole, answers), document.len() as int),
        whole.len() == 0 ==> fine_edits(whole, answers).len() == 0,
        forall|j: int|
            0 <= j < fine_edits(whole, answers).len() ==> (#[trigger] fine_edits(
                whole,
                answers,
            )[j]).end <= whole.last().end,
    decreases whole.len(),
{
    if whole.len() > 0 {
        let n = whole.len() - 1;
        let edit = whole.last();
        let answer = answers.last();
        let head = whole.drop_last();
        let head_answers = answers.drop_last();
        assert(whole[n] == edit && answers[n] == answer);
        let from = edit.start as int;
        let to = edit.end as int;
        let window = document.subrange(from, to);
        let before = document.take(from);
        let after = document.skip(to);
        assert(before + window + after =~= document);
        multidiff::lemma_shifted_diff(before, window, encode_utf8(edit.text@), after, answer);
        let moved = multidiff::shifted(answer, from);
        let next = multidiff::spliced(document, edit);
        assert(multidiff::replayed(document, moved) == next);
        // The windows in front of this one are untouched.
        assert forall|i: int| 0 <= i < head.len() implies multidiff::is_text_diff(
            next.subrange((#[trigger] head[i]).start as int, head[i].end as int),
            encode_utf8(head[i].text@),
            head_answers[i],
        ) && head[i].end <= from by {
            assert(head[i] == whole[i]);
            assert(whole[i].end <= whole[n].start);
            assert(next.subrange(head[i].start as int, head[i].end as int) =~= document.subrange(
                head[i].start as int,
                head[i].end as int,
            ));
        }
        assert forall|i: int, j: int| 0 <= i < j < head.len() implies (#[trigger] head[i]).end <= (
        #[trigger] head[j]).start by {
            assert(whole[i].end <= whole[j].start);
        }
        assert forall|i: int| 0 <= i < head.len() implies (#[trigger] head[i]).start
            <= head[i].end <= next.len() by {
            assert(whole[i].start <= whole[i].end);
        }
        lemma_fine_edits(next, head, head_answers);
        let front = fine_edits(head, head_answers);
        let all = fine_edits(whole, answers);
        assert(all =~= front + moved);
        lemma_replayed_concat(document, front, moved);
        assert forall|j: int| 0 <= j < front.len() implies (#[trigger] front[j]).end <= from by {
            if head.len() > 0 {
                assert(head[head.len() - 1].end <= from);
            }
        }
        assert forall|j: int| 0 <= j < moved.len() implies from <= (#[trigger] moved[j]).start
            <= moved[j].end <= to by {
            assert(answer[j].start <= answer[j].end <= window.len());
        }
        assert forall|j: int| 0 <= j < all.len() implies (#[trigger] all[j]).start <= all[j].end
            <= to by {
            if j < front.len() {
                assert(all[j] == front[j]);
            } else {
                assert(all[j] == moved[j - front.len()]);
            }
        }
        assert forall|i: int, j: int| 0 <= i < j < all.len() implies (#[trigger] all[i]).end <= (
        #[trigger] all[j]).start by {
            if j < front.len() {
                assert(all[i] == front[i] && all[j] == front[j]);
            } else if i < front.len() {
                assert(all[i] == front[i] && all[j] == moved[j - front.len()]);
            } else {
                assert(all[i] == moved[i - front.len()] && all[j] == moved[j - front.len()]);
            }
        }
    }
}

/// Appends the edits of a window, moved to where the window stands and anchored.
fn append_anchored(
    anchored: &mut Vec<AnchoredEdit>,
    edits: &Vec<TextEdit>,
    by: usize,
    Ghost(before): Ghost<Seq<TextEdit>>,
    Ghost(len): Ghost<int>,
)
    requires
        all_anchored(old(anchored)@, before),
        multidiff::in_order(edits@, len),
        by + len <= usize::MAX,
    ensures
        all_anchored(final(anchored)@, before + multidiff::shifted(edits@, by as int)),
{
    let ghost all = edits@;
    let ghost moved = multidiff::shifted(all, by as int);
    let mut i: usize = 0;
    assert(before + moved.take(0) =~= before);
    while i < edits.len()
        invariant
            i <= edits@.len(),
            all == edits@,
            moved == multidiff::shifted(all, by as int),
            multidiff::in_order(all, len),
            by + len <= usize::MAX,
            all_anchored(anchored@, before + moved.take(i as int)),
        decreases edits@.len() - i,
    {
        let edit: &TextEdit = &edits[i];
        assert(all[i as int] == *edit);
        let start: usize = by + edit.start;
        let end: usize = by + edit.end;
        let start_bias: Bias = if edit.start == edit.end {
            Bias::Right
        } else {
            Bias::Left
        };
        let ghost held = anchored@;
        anchored.push(AnchoredEdit { start, start_bias, end, text: edit.text.clone() });
        proof {
            assert(before + moved.take(i + 1) =~= (before + moved.take(i as int)).push(
                moved[i as int],
            ));
            assert forall|j: int| 0 <= j < anchored@.len() implies anchors(
                #[trigger] anchored@[j],
                (before + moved.take(i + 1))[j],
            ) by {
                if j < held.len() {
                    assert(anchored@[j] == held[j]);
                }
            }
        }
        i += 1;
    }
    assert(moved.take(moved.len() as int) =~= moved);
}

/// The edits of the document that make the prepared edits. A prepared edit may replace text
/// with much the same text; only what differs is edited, so that what stands around it
/// stays in place.
pub fn anchors_from_prepared_edits<D: Fn(&str, &str) -> Vec<TextEdit>>(
    snapshot: &Snapshot,
    prepared_edits: &Vec<PreparedEdit>,
    text_diff: &D,
) -> (r: Vec<AnchoredEdit>)
    requires
        multidiff::sound_differ(*text_diff),
        replacement::well_placed(snapshot@, prepared_edits@),
    ensures
        exists|answers: Seq<Seq<TextEdit>>| #[trigger]
            answered(*text_diff, snapshot@, prepared_edits@, answers) && all_anchored(
                r@,
                placed(snapshot@, prepared_edits@, answers),
            ),
{
    let ghost rows = snapshot@;
    let ghost edits = prepared_edits@;
    let ghost mut answers: Seq<Seq<TextEdit>> = Seq::empty();
    let mut anchored: Vec<AnchoredEdit> = Vec::new();
    let mut i: usize = 0;
    while i < prepared_edits.len()
        invariant
            i <= prepared_edits@.len(),
            rows == snapshot@,
            edits == prepared_edits@,
            multidiff::sound_differ(*text_diff),
            replacement::well_placed(rows, edits),
            answered(*text_diff, rows, edits.take(i as int), answers),
            all_anchored(anchored@, placed(rows, edits.take(i as int), answers)),
        decreases prepared_edits@.len() - i,
    {
        let edit: &PreparedEdit = &prepared_edits[i];
        assert(edits[i as int] == *edit);
        let start: usize = snapshot.point_utf16_to_offset(edit.start);
        proof {
            snapshot::lemma_text_between(rows, edit.start, edit.end);
        }
        let existing: String = snapshot.text_for_range(edit.start, edit.end);
        let old_text: &str = existing.as_str();
        let new_text: &str = edit.text.as_str();
        let answer: Vec<TextEdit> = (*text_diff)(old_text, new_text);
        assert(call_ensures(*text_diff, (old_text, new_text), answer));
        assert(multidiff::differ_answers(*text_diff, existing@, edit.text@, answer@));
        let ghost longer = answers.push(answer@);
        let ghost before = placed(rows, edits.take(i as int), answers);
        proof {
            assert(edits.take(i + 1).drop_last() =~= edits.take(i as int));
            assert(longer.drop_last() =~= answers);
            assert(answered(*text_diff, rows, edits.take(i + 1), longer)) by {
                assert forall|j: int| 0 <= j < i + 1 implies multidiff::differ_answers(
                    *text_diff,
                    snapshot::text_between(
                        rows,
                        edits.take(i + 1)[j].start,
                        edits.take(i + 1)[j].end,
                    ),
                    edits.take(i + 1)[j].text@,
                    #[trigger] longer[j],
                ) by {
                    if j < i {
                        assert(longer[j] == answers[j]);
                        assert(edits.take(i as int)[j] == edits[j]);
                    }
                }
            }
        }
        append_anchored(
            &mut anchored,
            &answer,
            start,
            Ghost(before),
            Ghost(text::byte_len(existing@) as int),
        );
        proof {
            answers = longer;
        }
        i += 1;
    }
    assert(edits.take(i as int) =~= edits);
    anchored
}

// ---------------------------------------------------------------------------
// The completion
// ---------------------------------------------------------------------------

/// A position in the document as a predicted cursor, unless the cursor is there already.
pub open spec fn elsewhere(
    rows: Seq<Seq<char>>,
    cursor: PointUtf16,
    point: Option<Point>,
) -> Option<PredictedCursor> {
    match point {
        Some(point) => if snapshot::utf16_point(rows, point) == cursor {
            None
        } else {
            Some(PredictedCursor::InSnapshot(point))
        },
        None => None,
    }
}

/// Whether a predicted cursor is where a target stands in the document as it is, unless
/// the cursor is there already.
pub open spec fn is_target_elsewhere(
    rows: Seq<Seq<char>>,
    cursor: PointUtf16,
    current_file_path: Seq<char>,
    target: CursorPredictionTarget,
    found: Option<PredictedCursor>,
) -> bool {
    exists|point: Option<Point>|
        {
            &&& #[trigger] targets::target_in_rows(
                rows,
                Seq::empty(),
                current_file_path,
                target,
                point,
            )
            &&& found == elsewhere(rows, cursor, point)
        }
}

/// Whether a predicted cursor is the one to offer. With edits it is where the target
/// stands, in an edit or in the document; without edits it is where the target stands in
/// the document, unless the cursor is there already.
pub open spec fn cursor_to_offer(
    rows: Seq<Seq<char>>,
    cursor: PointUtf16,
    current_file_path: Seq<char>,
    target: Option<CursorPredictionTarget>,
    prepared: Seq<PreparedEdit>,
    edits: Seq<TextEdit>,
    found: Option<PredictedCursor>,
) -> bool {
    match target {
        None => found is None,
        Some(target) => if edits.len() > 0 {
            targets::is_target_position(rows, prepared, current_file_path, target, found)
        } else {
            is_target_elsewhere(rows, cursor, current_file_path, target, found)
        },
    }
}

/// Whether the next prediction is asked for once this one is accepted.
pub open spec fn retriggers(target: Option<CursorPredictionTarget>) -> bool {
    match target {
        Some(target) => target.should_retrigger_cpp,
        None => true,
    }
}

/// Whether a completion offers the given edits and the given cursor. None is offered when
/// there is neither an edit nor a place to go.
pub open spec fn offers(
    planned: Option<PlannedCompletion>,
    edits: Seq<TextEdit>,
    found: Option<PredictedCursor>,
    target: Option<CursorPredictionTarget>,
) -> bool {
    match planned {
        None => edits.len() == 0 && found is None,
        Some(completion) => {
            &&& edits.len() > 0 || found is Some
            &&& all_anchored(completion.edits@, edits)
            &&& completion.cursor_position == found
            &&& completion.should_retrigger == retriggers(target)
        },
    }
}

/// Whether a completion is the one to offer for prepared edits.
pub open spec fn is_planned<D: Fn(&str, &str) -> Vec<TextEdit>>(
    text_diff: D,
    rows: Seq<Seq<char>>,
    cursor: PointUtf16,
    current_file_path: Seq<char>,
    stream: CursorTabStream,
    prepared: Seq<PreparedEdit>,
    planned: Option<PlannedCompletion>,
) -> bool {
    let target = targets::stream_target(stream);
    exists|answers: Seq<Seq<TextEdit>>, found: Option<PredictedCursor>|
        #![trigger answered(text_diff, rows, prepared, answers), offers(planned, placed(rows, prepared, answers), found, target)]
        {
            &&& answered(text_diff, rows, prepared, answers)
            &&& cursor_to_offer(
                rows,
                cursor,
                current_file_path,
                target,
                prepared,
                placed(rows, prepared, answers),
                found,
            )
            &&& offers(planned, placed(rows, prepared, answers), found, target)
        }
}

/// Where a target stands in the document, unless the cursor is there already.
fn cursor_without_edits(
    snapshot: &Snapshot,
    cursor: PointUtf16,
    current_file_path: &str,
    target: &CursorPredictionTarget,
) -> (found: Option<PredictedCursor>)
    ensures
        is_target_elsewhere(snapshot@, cursor, current_file_path@, *target, found),
{
    let none: Vec<PreparedEdit> = Vec::new();
    let point: Option<Point> = predicted_cursor_in_snapshot(
        snapshot,
        current_file_path,
        target,
        &none,
    );
    assert(none@ =~= Seq::empty());
    assert(targets::target_in_rows(
        snapshot@,
        Seq::empty(),
        current_file_path@,
        *target,
        point,
    ));
    let found: Option<PredictedCursor> = match point {
        Some(at) => if snapshot.point_to_point_utf16(at) == cursor {
            None
        } else {
            Some(PredictedCursor::InSnapshot(at))
        },
        None => None,
    };
    assert(found == elsewhere(snapshot@, cursor, point));
    found
}

/// The completion to offer for prepared edits.
pub fn plan_completion<D: Fn(&str, &str) -> Vec<TextEdit>>(
    stream: &CursorTabStream,
    prepared_edits: &Vec<PreparedEdit>,
    snapshot: &Snapshot,
    cursor: PointUtf16,
    current_file_path: &str,
    text_diff: &D,
) -> (r: Option<PlannedCompletion>)
    requires
        multidiff::sound_differ(*text_diff),
        replacement::well_placed(snapshot@, prepared_edits@),
    ensures
        is_planned(
            *text_diff,
            snapshot@,
            cursor,
            current_file_path@,
            *stream,
            prepared_edits@,
            r,
        ),
{
    let target: Option<&CursorPredictionTarget> = cursor_target_from_stream(stream);
    let should_retrigger: bool = match target {
        Some(target) => target.should_retrigger_cpp,
        None => true,
    };
    let edits: Vec<AnchoredEdit> = anchors_from_prepared_edits(
        snapshot,
        prepared_edits,
        text_diff,
    );
    let ghost answers = choose|answers: Seq<Seq<TextEdit>>| #[trigger]
        answered(*text_diff, snapshot@, prepared_edits@, answers) && all_anchored(
            edits@,
            placed(snapshot@, prepared_edits@, answers),
        );
    let found: Option<PredictedCursor> = match target {
        None => None,
        Some(target) => if edits.len() > 0 {
            map_cursor_target(snapshot, prepared_edits, current_file_path, target)
        } else {
            cursor_without_edits(snapshot, cursor, current_file_path, target)
        },
    };
    assert(cursor_to_offer(
        snapshot@,
        cursor,
        current_file_path@,
        targets::stream_target(*stream),
        prepared_edits@,
        placed(snapshot@, prepared_edits@, answers),
        found,
    ));
    let planned: Option<PlannedCompletion> = if edits.len() == 0 && found.is_none() {
        None
    } else {
        Some(PlannedCompletion { edits, cursor_position: found, should_retrigger })
    };
    assert(offers(
        planned,
        placed(snapshot@, prepared_edits@, answers),
        found,
        targets::stream_target(*stream),
    ));
    planned
}

/// Where edits are prepared for a cursor: with what stands in front of the cursor in its
/// row, in the whole text, and knowing whether the cursor is at the end of it.
pub open spec fn completion_surroundings(
    rows: Seq<Seq<char>>,
    cursor: PointUtf16,
) -> replacement::Surroundings {
    replacement::Surroundings {
        rows,
        cursor,
        current_line_prefix: snapshot::text_between(
            rows,
            PointUtf16 { row: cursor.row, column: 0 },
            cursor,
        ),
        contents: text::join(rows, seq!['\n']),
        cursor_at_end: cursor == snapshot::end_point(rows),
    }
}

/// Whether a result is that of turning a stream into the completion to offer.
pub open spec fn is_completion<D: Fn(&str, &str) -> Vec<TextEdit>>(
    text_diff: D,
    rows: Seq<Seq<char>>,
    cursor: PointUtf16,
    current_file_path: Seq<char>,
    stream: CursorTabStream,
    result: Result<Option<PlannedCompletion>, ReplacementError>,
) -> bool {
    let at = completion_surroundings(rows, cursor);
    exists|after: CursorTabStream, prepared: Result<Vec<PreparedEdit>, ReplacementError>|
        {
            &&& #[trigger] replacement::is_preparation(text_diff, at, stream, after, prepared)
            &&& match prepared {
                Err(error) => result == Err::<Option<PlannedCompletion>, ReplacementError>(error),
                Ok(edits) => {
                    &&& result is Ok
                    &&& is_planned(
                        text_diff,
                        rows,
                        cursor,
                        current_file_path,
                        after,
                        edits@,
                        result->Ok_0,
                    )
                },
            }
        }
}

/// Turns a stream into the completion to offer at a cursor.
pub fn completion_from_stream<D: Fn(&str, &str) -> Vec<TextEdit>>(
    stream: CursorTabStream,
    snapshot: &Snapshot,
    cursor: PointUtf16,
    current_file_path: &str,
    text_diff: &D,
) -> (r: Result<Option<PlannedCompletion>, ReplacementError>)
    requires
        multidiff::sound_differ(*text_diff),
        snapshot::valid_point(snapshot@, cursor),
    ensures
        is_completion(*text_diff, snapshot@, cursor, current_file_path@, stream, r),
{
    let ghost given = stream;
    let mut stream = stream;
    let contents: String = snapshot.text();
    let cursor_at_end: bool = cursor == snapshot.max_point();
    let line_start: PointUtf16 = PointUtf16 { row: cursor.row, column: 0 };
    proof {
        let line = snapshot@[cursor.row as int];
        assert(line.take(0) =~= Seq::<char>::empty());
        snapshot::lemma_column_index(line, 0);
    }
    let prefix: String = snapshot.text_for_range(line_start, cursor);
    let prepared: Result<Vec<PreparedEdit>, ReplacementError> = prepared_edits_from_stream(
        &mut stream,
        snapshot,
        cursor,
        prefix.as_str(),
        contents.as_str(),
        cursor_at_end,
        text_diff,
    );
    assert(replacement::is_preparation(
        *text_diff,
        completion_surroundings(snapshot@, cursor),
        given,
        stream,
        prepared,
    ));
    match prepared {
        Err(error) => Err(error),
        Ok(edits) => Ok(
            plan_completion(&stream, &edits, snapshot, cursor, current_file_path, text_diff),
        ),
    }
}

// ---------------------------------------------------------------------------
// What a completion is for
// ---------------------------------------------------------------------------

/// Whether no edit behind the `i`-th has a cursor target.
pub open spec fn no_target_behind(edits: Seq<CursorTabCompletion>, i: int) -> bool {
    forall|j: int| i < j < edits.len() ==> (#[trigger] edits[j]).cursor_prediction_target is None
}

/// Accepting a completion asks for the next prediction unless a cursor target says that it
/// does not: the target of the stream, or else that of the last edit that has one.
pub proof fn lemma_planned_retrigger<D: Fn(&str, &str) -> Vec<TextEdit>>(
    text_diff: D,
    rows: Seq<Seq<char>>,
    cursor: PointUtf16,
    current_file_path: Seq<char>,
    stream: CursorTabStream,
    prepared: Seq<PreparedEdit>,
    completion: PlannedCompletion,
)
    requires
        is_planned(
            text_diff,
            rows,
            cursor,
            current_file_path,
            stream,
            prepared,
            Some(completion),
        ),
    ensures
        match stream.cursor_prediction_target {
            Some(target) => completion.should_retrigger == target.should_retrigger_cpp,
            None => {
                &&& no_target_behind(stream.edits@, -1) ==> completion.should_retrigger
                &&& forall|i: int|
                    0 <= i < stream.edits@.len() && no_target_behind(stream.edits@, i) ==> match (
                    #[trigger] stream.edits@[i]).cursor_prediction_target {
                        Some(target) => completion.should_retrigger == target.should_retrigger_cpp,
                        None => true,
                    }
            },
        },
{
    assert forall|i: int|
        0 <= i < stream.edits@.len() && no_target_behind(stream.edits@, i) && (
        #[trigger] stream.edits@[i]).cursor_prediction_target is Some implies targets::last_target(
        stream.edits@,
    ) == stream.edits@[i].cursor_prediction_target by {
        targets::lemma_last_target(stream.edits@, i);
    }
    if no_target_behind(stream.edits@, -1) {
        targets::lemma_last_target(stream.edits@, -1);
    }
}

/// A completion of a stream without cursor targets asks for the next prediction once it is
/// accepted, and so does one with edits of a multidiff stream, whose targets describe another
/// document. Only a target that says so keeps a completion from asking.
pub proof fn lemma_completion_retrigger<D: Fn(&str, &str) -> Vec<TextEdit>>(
    text_diff: D,
    rows: Seq<Seq<char>>,
    cursor: PointUtf16,
    current_file_path: Seq<char>,
    stream: CursorTabStream,
    completion: PlannedCompletion,
)
    requires
        is_completion(
            text_diff,
            rows,
            cursor,
            current_file_path,
            stream,
            Ok(Some(completion)),
        ),
    ensures
        stream.cursor_prediction_target is None && no_target_behind(stream.edits@, -1)
            ==> completion.should_retrigger,
        stream.is_multidiff_model && completion.edits@.len() > 0 ==> completion.should_retrigger,
        !stream.is_multidiff_model || completion.edits@.len() == 0 ==> match stream.cursor_prediction_target {
            Some(target) => completion.should_retrigger == target.should_retrigger_cpp,
            None => forall|i: int|
                0 <= i < stream.edits@.len() && no_target_behind(stream.edits@, i) ==> match (
                #[trigger] stream.edits@[i]).cursor_prediction_target {
                    Some(target) => completion.should_retrigger == target.should_retrigger_cpp,
                    None => true,
                },
        },
{
    let at = completion_surroundings(rows, cursor);
    let result: Result<Option<PlannedCompletion>, ReplacementError> = Ok(Some(completion));
    let (after, outcome) = choose|
        after: CursorTabStream,
        outcome: Result<Vec<PreparedEdit>, ReplacementError>,
    |
        {
            &&& #[trigger] replacement::is_preparation(text_diff, at, stream, after, outcome)
            &&& match outcome {
                Err(error) => result == Err::<Option<PlannedCompletion>, ReplacementError>(error),
                Ok(edits) => {
                    &&& result is Ok
                    &&& is_planned(
                        text_diff,
                        rows,
                        cursor,
                        current_file_path,
                        after,
                        edits@,
                        result->Ok_0,
                    )
                },
            }
        };
    let edits = outcome->Ok_0@;
    lemma_planned_retrigger(text_diff, rows, cursor, current_file_path, after, edits, completion);
    lemma_edits_need_preparation(
        text_diff,
        rows,
        cursor,
        current_file_path,
        after,
        edits,
        completion,
    );
    assert forall|i: int| 0 <= i < stream.edits@.len() && (edits.len() == 0
        || !stream.is_multidiff_model) implies (#[trigger] after.edits@[i]).cursor_prediction_target
        == stream.edits@[i].cursor_prediction_target by {}
    assert forall|i: int|
        -1 <= i < stream.edits@.len() && #[trigger] no_target_behind(stream.edits@, i)
            && after.edits@.len() == stream.edits@.len() && (forall|j: int|
            0 <= j < stream.edits@.len() ==> (
            #[trigger] after.edits@[j]).cursor_prediction_target
                == stream.edits@[j].cursor_prediction_target) implies no_target_behind(
        after.edits@,
        i,
    ) by {}
    if stream.is_multidiff_model && edits.len() > 0 {
        assert(no_target_behind(after.edits@, -1));
        targets::lemma_last_target(after.edits@, -1);
        assert(completion.edits@.len() > 0);
    } else {
        assert forall|i: int|
            0 <= i < stream.edits@.len() && no_target_behind(stream.edits@, i) && (
            #[trigger] stream.edits@[i]).cursor_prediction_target is Some
                && stream.cursor_prediction_target is None implies completion.should_retrigger == (
        stream.edits@[i].cursor_prediction_target->0).should_retrigger_cpp by {
            assert(no_target_behind(after.edits@, i));
            assert(after.edits@[i].cursor_prediction_target
                == stream.edits@[i].cursor_prediction_target);
        }
    }
}

proof fn lemma_edits_need_preparation<D: Fn(&str, &str) -> Vec<TextEdit>>(
    text_diff: D,
    rows: Seq<Seq<char>>,
    cursor: PointUtf16,
    current_file_path: Seq<char>,
    stream: CursorTabStream,
    prepared: Seq<PreparedEdit>,
    completion: PlannedCompletion,
)
    requires
        is_planned(
            text_diff,
            rows,
            cursor,
            current_file_path,
            stream,
            prepared,
            Some(completion),
        ),
    ensures
        prepared.len() == 0 ==> completion.edits@.len() == 0,
{
}

/// What stands in front of the cursor in its row is handed on as it is, and the cursor is at
/// the end when it stands behind the last character of the last row.
pub proof fn lemma_surroundings(rows: Seq<Seq<char>>, cursor: PointUtf16, k: int)
    requires
        snapshot::document_rows(rows),
        cursor.row < rows.len(),
        0 <= k <= rows[cursor.row as int].len(),
        text::utf16_len(rows[cursor.row as int].take(k)) == cursor.column,
    ensures
        ({
            let at = completion_surroundings(rows, cursor);
            &&& at.rows == rows
            &&& at.cursor == cursor
            &&& at.current_line_prefix == rows[cursor.row as int].take(k)
            &&& text::rows(at.contents) == rows
            &&& at.cursor_at_end <==> cursor.row == rows.len() - 1 && k == rows.last().len()
        }),
{
    let row = cursor.row as int;
    let line = rows[row];
    let start = PointUtf16 { row: cursor.row, column: 0 };
    snapshot::lemma_rows_of_text(rows);
    snapshot::lemma_column_index(line, k);
    snapshot::lemma_column_index(line, 0);
    assert(line.take(0) =~= Seq::<char>::empty());
    snapshot::lemma_text_before(rows, row, k);
    snapshot::lemma_text_before(rows, row, 0);
    let front = snapshot::text_before(rows, row, 0);
    assert((front + line.take(k)).skip(front.len() as int) =~= line.take(k));
    let last = rows.last();
    assert(rows[rows.len() - 1] == last);
    assert(last.take(last.len() as int) =~= last);
    snapshot::lemma_take_bounds(last, last.len() as int);
    if row == rows.len() - 1 && k < last.len() {
        snapshot::lemma_take_monotone(last, k, last.len() as int);
    }
}

/// A completion has an edit or a place for the cursor to go. Without edits, that place is in
/// the document, and not where the cursor is already. Without a cursor target there is none.
pub proof fn lemma_worth_offering<D: Fn(&str, &str) -> Vec<TextEdit>>(
    text_diff: D,
    rows: Seq<Seq<char>>,
    cursor: PointUtf16,
    current_file_path: Seq<char>,
    stream: CursorTabStream,
    prepared: Seq<PreparedEdit>,
    completion: PlannedCompletion,
)
    requires
        is_planned(
            text_diff,
            rows,
            cursor,
            current_file_path,
            stream,
            prepared,
            Some(completion),
        ),
    ensures
        completion.edits@.len() > 0 || completion.cursor_position is Some,
        completion.edits@.len() == 0 ==> match completion.cursor_position {
            Some(PredictedCursor::InSnapshot(point)) => snapshot::utf16_point(rows, point)
                != cursor,
            _ => false,
        },
        stream.cursor_prediction_target is None && no_target_behind(stream.edits@, -1)
            ==> completion.cursor_position is None,
        match stream.cursor_prediction_target {
            Some(target) => if completion.edits@.len() > 0 {
                targets::is_target_position(
                    rows,
                    prepared,
                    current_file_path,
                    target,
                    completion.cursor_position,
                )
            } else {
                match completion.cursor_position {
                    Some(PredictedCursor::InSnapshot(point)) => targets::target_in_rows(
                        rows,
                        Seq::empty(),
                        current_file_path,
                        target,
                        Some(point),
                    ),
                    _ => false,
                }
            },
            None => true,
        },
{
    if no_target_behind(stream.edits@, -1) {
        targets::lemma_last_target(stream.edits@, -1);
    }
}

/// Nothing is offered only when every prepared edit puts what it replaces back in its place,
/// and the stream's target stands nowhere or where the cursor is already.
pub proof fn lemma_nothing_to_offer<D: Fn(&str, &str) -> Vec<TextEdit>>(
    text_diff: D,
    rows: Seq<Seq<char>>,
    cursor: PointUtf16,
    current_file_path: Seq<char>,
    stream: CursorTabStream,
    prepared: Seq<PreparedEdit>,
)
    requires
        multidiff::sound_differ(text_diff),
        is_planned(text_diff, rows, cursor, current_file_path, stream, prepared, None),
    ensures
        forall|i: int|
            0 <= i < prepared.len() ==> encode_utf8((#[trigger] prepared[i]).text@) == encode_utf8(
                snapshot::text_between(rows, prepared[i].start, prepared[i].end),
            ),
        match stream.cursor_prediction_target {
            Some(target) => {
                ||| targets::target_in_rows(rows, Seq::empty(), current_file_path, target, None)
                ||| exists|point: Point| #[trigger]
                    targets::target_in_rows(
                        rows,
                        Seq::empty(),
                        current_file_path,
                        target,
                        Some(point),
                    ) && snapshot::utf16_point(rows, point) == cursor
            },
            None => true,
        },
{
    let target = targets::stream_target(stream);
    let none: Option<PlannedCompletion> = None;
    let (answers, found) = choose|
        answers: Seq<Seq<TextEdit>>,
        found: Option<PredictedCursor>,
    |
        #![trigger answered(text_diff, rows, prepared, answers), offers(none, placed(rows, prepared, answers), found, target)]
        {
            &&& answered(text_diff, rows, prepared, answers)
            &&& cursor_to_offer(
                rows,
                cursor,
                current_file_path,
                target,
                prepared,
                placed(rows, prepared, answers),
                found,
            )
            &&& offers(none, placed(rows, prepared, answers), found, target)
        };
    if let Some(wanted) = stream.cursor_prediction_target {
        assert(is_target_elsewhere(rows, cursor, current_file_path, wanted, found));
        let at = choose|at: Option<Point>|
            {
                &&& #[trigger] targets::target_in_rows(
                    rows,
                    Seq::empty(),
                    current_file_path,
                    wanted,
                    at,
                )
                &&& found == elsewhere(rows, cursor, at)
            };
        if let Some(point) = at {
            assert(targets::target_in_rows(
                rows,
                Seq::empty(),
                current_file_path,
                wanted,
                Some(point),
            ));
        }
    }
    assert forall|i: int| 0 <= i < prepared.len() implies encode_utf8(
        (#[trigger] prepared[i]).text@,
    ) == encode_utf8(
        snapshot::text_between(rows, prepared[i].start, prepared[i].end),
    ) by {
        lemma_placed_holds(rows, prepared, answers, i);
        assert(multidiff::differ_answers(
            text_diff,
            snapshot::text_between(rows, prepared[i].start, prepared[i].end),
            prepared[i].text@,
            answers[i],
        ));
    }
}

proof fn lemma_placed_holds(
    rows: Seq<Seq<char>>,
    prepared: Seq<PreparedEdit>,
    answers: Seq<Seq<TextEdit>>,
    i: int,
)
    requires
        0 <= i < prepared.len() == answers.len(),
    ensures
        answers[i].len() <= placed(rows, prepared, answers).len(),
    decreases prepared.len(),
{
    if i < prepared.len() - 1 {
        lemma_placed_holds(rows, prepared.drop_last(), answers.drop_last(), i);
    }
}

/// The edits that a completion makes, without the sides that they stick to.
pub open spec fn made_edits(edits: Seq<AnchoredEdit>) -> Seq<TextEdit> {
    Seq::new(
        edits.len(),
        |i: int|
            (TextEdit { start: edits[i].start, end: edits[i].end, text: edits[i].text }),
    )
}

/// The edits of a completion make of the document what the prepared edits make of it, when
/// these stand in order and apart; and an insertion sticks to what stands behind it, any
/// other edit to what it replaces.
pub proof fn lemma_completion_applies<D: Fn(&str, &str) -> Vec<TextEdit>>(
    text_diff: D,
    rows: Seq<Seq<char>>,
    cursor: PointUtf16,
    current_file_path: Seq<char>,
    stream: CursorTabStream,
    prepared: Seq<PreparedEdit>,
    completion: PlannedCompletion,
)
    requires
        multidiff::sound_differ(text_diff),
        snapshot::document_rows(rows),
        replacement::well_placed(rows, prepared),
        multidiff::in_order(
            whole_edits(rows, prepared),
            text::byte_len(text::join(rows, seq!['\n'])) as int,
        ),
        is_planned(
            text_diff,
            rows,
            cursor,
            current_file_path,
            stream,
            prepared,
            Some(completion),
        ),
    ensures
        multidiff::replayed(
            encode_utf8(text::join(rows, seq!['\n'])),
            made_edits(completion.edits@),
        ) == multidiff::replayed(
            encode_utf8(text::join(rows, seq!['\n'])),
            whole_edits(rows, prepared),
        ),
        forall|i: int|
            0 <= i < completion.edits@.len() ==> {
                let edit = #[trigger] completion.edits@[i];
                edit.start_bias == Bias::Right <==> edit.start == edit.end
            },
{
    let target = targets::stream_target(stream);
    let planned = Some(completion);
    let (answers, found) = choose|
        answers: Seq<Seq<TextEdit>>,
        found: Option<PredictedCursor>,
    |
        #![trigger answered(text_diff, rows, prepared, answers), offers(planned, placed(rows, prepared, answers), found, target)]
        {
            &&& answered(text_diff, rows, prepared, answers)
            &&& cursor_to_offer(
                rows,
                cursor,
                current_file_path,
                target,
                prepared,
                placed(rows, prepared, answers),
                found,
            )
            &&& offers(planned, placed(rows, prepared, answers), found, target)
        };
    assert forall|i: int| 0 <= i < prepared.len() implies multidiff::is_text_diff(
        encode_utf8(snapshot::text_between(rows, prepared[i].start, prepared[i].end)),
        encode_utf8(prepared[i].text@),
        #[trigger] answers[i],
    ) by {
        assert(multidiff::differ_answers(
            text_diff,
            snapshot::text_between(rows, prepared[i].start, prepared[i].end),
            prepared[i].text@,
            answers[i],
        ));
    }
    lemma_placed_edits_apply(rows, prepared, answers);
    let small = placed(rows, prepared, answers);
    assert forall|i: int| 0 <= i < small.len() implies made_edits(completion.edits@)[i]
        == #[trigger] small[i] by {
        assert(anchors(completion.edits@[i], small[i]));
    }
    assert(made_edits(completion.edits@) =~= small);
}

/// A stream is refused when one of its edits names a place with a negative number, or, for a
/// model of several edits, when the edits cannot be made to the document one after the other.
/// No other stream is.
pub proof fn lemma_when_refused<D: Fn(&str, &str) -> Vec<TextEdit>>(
    text_diff: D,
    rows: Seq<Seq<char>>,
    cursor: PointUtf16,
    current_file_path: Seq<char>,
    stream: CursorTabStream,
    result: Result<Option<PlannedCompletion>, ReplacementError>,
)
    requires
        is_completion(text_diff, rows, cursor, current_file_path, stream, result),
    ensures
        ({
            let contents = text::join(rows, seq!['\n']);
            let prefix = snapshot::text_between(
                rows,
                PointUtf16 { row: cursor.row, column: 0 },
                cursor,
            );
            if stream.is_multidiff_model {
                match (multidiff::all_edited(contents, stream.edits@), result) {
                    (Ok(_), Ok(_)) => true,
                    (Err(why), Err(error)) => error == ReplacementError::Multidiff(why),
                    _ => false,
                }
            } else if exists|i: int|
                0 <= i < stream.edits@.len() && replacement::names_negative(
                    #[trigger] stream.edits@[i],
                    prefix,
                ) {
                result == Err::<Option<PlannedCompletion>, ReplacementError>(
                    ReplacementError::NegativeCoordinate,
                )
            } else {
                result is Ok
            }
        }),
{
    replacement::lemma_when_all_unprepared(completion_surroundings(rows, cursor), stream.edits@);
}

} // verus!
