//! The state between requests: which prediction is offered, and which answer still counts.

use crate::completion::PlannedCompletion;
use crate::file_sync::{FileSync, FileVersion};
use crate::text;
use crate::trigger::{should_refresh_for_trigger, EditPredictionRequestTrigger};
use vstd::prelude::*;

verus! {

/// What to do when a prediction is asked for.
#[derive(Clone, Copy, Debug, PartialEq, Eq)]
pub enum RefreshAction {
    /// Nothing: there is no token to ask with.
    NoToken,
    /// Nothing: the accepted prediction asked for no other.
    SkipAfterAccept,
    /// Nothing: the prediction that is offered still applies.
    KeepCurrent,
    /// Send a request.
    Request,
}

/// The provider of predictions.
pub struct CursorTabEditPredictionDelegate {
    pub file_sync: FileSync,
    pub pending_request: bool,
    pub current_completion: Option<PlannedCompletion>,
    pub retrigger_after_accept: bool,
    pub request_generation: u64,
}

/// The generation behind a given one.
pub open spec fn next_generation(generation: u64) -> u64 {
    if generation == u64::MAX {
        0
    } else {
        (generation + 1) as u64
    }
}

/// The generation that stands so many behind a given one.
pub open spec fn later_generation(generation: u64, steps: nat) -> u64
    decreases steps,
{
    if steps == 0 {
        generation
    } else {
        next_generation(later_generation(generation, (steps - 1) as nat))
    }
}

/// A generation does not come back until all others were used.
pub proof fn lemma_generation_returns_late(generation: u64, steps: nat)
    requires
        0 < steps <= u64::MAX,
    ensures
        later_generation(generation, steps) != generation,
{
    lemma_later_generation(generation, steps);
}

proof fn lemma_later_generation(generation: u64, steps: nat)
    requires
        steps <= u64::MAX,
    ensures
        later_generation(generation, steps) == if generation + steps <= u64::MAX {
            generation + steps
        } else {
            generation + steps - u64::MAX - 1
        },
    decreases steps,
{
    if steps > 0 {
        lemma_later_generation(generation, (steps - 1) as nat);
    }
}

/// Whether the edits of a completion, once carried over to the document as it is now, can
/// still be offered. A completion without edits only says where the cursor goes, and only
/// in the very document that it was made for.
pub open spec fn still_applies(
    completion: PlannedCompletion,
    document_changed: bool,
    carried_over: Option<nat>,
) -> bool {
    &&& !(completion.edits@.len() == 0 && document_changed)
    &&& match carried_over {
        None => false,
        Some(count) => count > 0 || (completion.edits@.len() == 0
            && completion.cursor_position is Some),
    }
}

/// The number of edits of an optional list.
pub open spec fn edit_count<E>(edits: Option<Vec<E>>) -> Option<nat> {
    match edits {
        Some(edits) => Some(edits@.len()),
        None => None,
    }
}

/// Whether something is offered of the completion at hand, given how many of its edits were
/// carried over and whether the cursor is already where it would go.
pub open spec fn is_offered(
    current: Option<PlannedCompletion>,
    document_changed: bool,
    carried_over: Option<nat>,
    cursor_is_there: bool,
) -> bool {
    match current {
        None => false,
        Some(completion) => {
            &&& still_applies(completion, document_changed, carried_over)
            &&& !(carried_over == Some(0nat) && completion.cursor_position is Some
                && cursor_is_there)
        },
    }
}

/// What asking for a prediction makes of the provider, and the action that it leads to.
pub open spec fn is_refreshed(
    before: CursorTabEditPredictionDelegate,
    after: CursorTabEditPredictionDelegate,
    has_token: bool,
    trigger: EditPredictionRequestTrigger,
    current_applies: bool,
    action: RefreshAction,
) -> bool {
    let skips = trigger == EditPredictionRequestTrigger::PredictionAccepted
        && !before.retrigger_after_accept;
    let keeps = before.current_completion is Some && current_applies && trigger
        != EditPredictionRequestTrigger::CursorClick;
    &&& after.file_sync == before.file_sync
    &&& after.pending_request == before.pending_request
    &&& after.current_completion == before.current_completion
    &&& after.request_generation == before.request_generation
    &&& after.retrigger_after_accept == (before.retrigger_after_accept || (has_token && skips))
    &&& action == if !has_token {
        RefreshAction::NoToken
    } else if skips {
        RefreshAction::SkipAfterAccept
    } else if keeps {
        RefreshAction::KeepCurrent
    } else {
        RefreshAction::Request
    }
}

/// What sending a request makes of the provider, and the generation of its answer.
pub open spec fn is_started(
    before: CursorTabEditPredictionDelegate,
    after: CursorTabEditPredictionDelegate,
    generation: u64,
) -> bool {
    &&& generation == next_generation(before.request_generation)
    &&& after.request_generation == generation
    &&& after.pending_request
    &&& after.current_completion is None
    &&& after.retrigger_after_accept == before.retrigger_after_accept
    &&& after.file_sync == before.file_sync
}

/// What the answer to the request of a generation makes of the provider, and whether it
/// counted.
pub open spec fn is_finished(
    before: CursorTabEditPredictionDelegate,
    after: CursorTabEditPredictionDelegate,
    generation: u64,
    completion: Option<PlannedCompletion>,
    counted: bool,
) -> bool {
    &&& counted == (before.request_generation == generation)
    &&& !counted ==> after == before
    &&& counted ==> {
        &&& !after.pending_request
        &&& after.current_completion == if completion is Some {
            completion
        } else {
            before.current_completion
        }
        &&& after.request_generation == before.request_generation
        &&& after.retrigger_after_accept == before.retrigger_after_accept
        &&& after.file_sync == before.file_sync
    }
}

/// What the end of the offered prediction makes of the provider. Whether the next prediction
/// is asked for is left to the one that was accepted.
pub open spec fn is_taken_back(
    before: CursorTabEditPredictionDelegate,
    after: CursorTabEditPredictionDelegate,
    accepted: bool,
) -> bool {
    &&& after.retrigger_after_accept == match before.current_completion {
        Some(completion) => !accepted || completion.should_retrigger,
        None => true,
    }
    &&& after.request_generation == next_generation(before.request_generation)
    &&& !after.pending_request
    &&& after.current_completion is None
    &&& after.file_sync == before.file_sync
}

impl PlannedCompletion {
    /// The edits to offer now, given what became of the completion's edits in the document
    /// as it is now.
    pub fn interpolate<E>(&self, document_changed: bool, carried_over: Option<Vec<E>>) -> (r: Option<
        Vec<E>,
    >)
        ensures
            r == if still_applies(*self, document_changed, edit_count(carried_over)) {
                carried_over
            } else {
                None
            },
    {
        if self.edits.len() == 0 && document_changed {
            return None;
        }
        match carried_over {
            Some(edits) => if edits.len() > 0 || (self.edits.len() == 0
                && self.cursor_position.is_some()) {
                Some(edits)
            } else {
                None
            },
            None => None,
        }
    }
}

impl CursorTabEditPredictionDelegate {
    /// The provider before anything was asked for.
    pub fn new() -> (delegate: Self)
        ensures
            !delegate.pending_request,
            delegate.current_completion is None,
            delegate.retrigger_after_accept,
            delegate.request_generation == 0,
            delegate.file_sync.synced() == Map::<Seq<char>, FileVersion>::empty(),
            delegate.file_sync.id().len() == 36,
    {
        CursorTabEditPredictionDelegate {
            file_sync: FileSync::new(),
            pending_request: false,
            current_completion: None,
            retrigger_after_accept: true,
            request_generation: 0,
        }
    }

    /// The name of the provider in settings.
    pub fn name() -> (name: &'static str)
        ensures
            name@ == "cursor-tab"@,
    {
        "cursor-tab"
    }

    /// The name of the provider for people.
    pub fn display_name() -> (name: &'static str)
        ensures
            name@ == "Cursor Tab"@,
    {
        "Cursor Tab"
    }

    /// Whether predictions are listed in the completion menu.
    pub fn show_predictions_in_menu() -> (r: bool)
        ensures
            r,
    {
        true
    }

    /// Whether predictions stay inline while the completion menu is open.
    pub fn show_predictions_inline_with_menu() -> (r: bool)
        ensures
            r,
    {
        true
    }

    /// Whether the key that accepts a prediction is shown with it.
    pub fn show_tab_accept_marker() -> (r: bool)
        ensures
            r,
    {
        true
    }

    /// Whether a prediction can be accepted line by line.
    pub fn accepts_by_line(&self) -> (r: bool)
        ensures
            r,
    {
        true
    }

    /// Whether accepting a prediction may jump to a distant edit.
    pub fn supports_jump_to_edit() -> (r: bool)
        ensures
            !r,
    {
        false
    }

    /// Whether a click asks for a prediction.
    pub fn refresh_on_cursor_click() -> (r: bool)
        ensures
            r,
    {
        true
    }

    /// Whether predictions come before completions.
    pub fn prioritizes_over_completions(&self) -> (r: bool)
        ensures
            r,
    {
        true
    }

    /// Whether there is all that a request needs: a token, and settings that are not blank.
    pub fn is_enabled(
        &self,
        has_token: bool,
        client_version: &str,
        request_id: &str,
        session_id: &str,
    ) -> (r: bool)
        ensures
            r == (has_token && text::trimmed(client_version@).len() > 0 && text::trimmed(
                request_id@,
            ).len() > 0 && text::trimmed(session_id@).len() > 0),
    {
        let version: Vec<char> = text::chars_of(client_version);
        let request: Vec<char> = text::chars_of(request_id);
        let session: Vec<char> = text::chars_of(session_id);
        has_token && text::trim(version.as_slice()).len() > 0 && text::trim(
            request.as_slice(),
        ).len() > 0 && text::trim(session.as_slice()).len() > 0
    }

    /// Whether a request is under way.
    pub fn is_refreshing(&self) -> (r: bool)
        ensures
            r == self.pending_request,
    {
        self.pending_request
    }

    /// What to do when a prediction is asked for, given whether the one that is offered
    /// still applies. An accepted prediction suppresses one request at most.
    pub fn refresh(
        &mut self,
        has_token: bool,
        trigger: EditPredictionRequestTrigger,
        current_applies: bool,
    ) -> (action: RefreshAction)
        ensures
            final(self).file_sync == old(self).file_sync,
            final(self).pending_request == old(self).pending_request,
            final(self).current_completion == old(self).current_completion,
            final(self).request_generation == old(self).request_generation,
            ({
                let accepted = trigger == EditPredictionRequestTrigger::PredictionAccepted;
                let keeps = old(self).current_completion is Some && current_applies && trigger
                    != EditPredictionRequestTrigger::CursorClick;
                if !has_token {
                    &&& action == RefreshAction::NoToken
                    &&& final(self).retrigger_after_accept == old(self).retrigger_after_accept
                } else if accepted && !old(self).retrigger_after_accept {
                    &&& action == RefreshAction::SkipAfterAccept
                    &&& final(self).retrigger_after_accept
                } else {
                    &&& action == if keeps {
                        RefreshAction::KeepCurrent
                    } else {
                        RefreshAction::Request
                    }
                    &&& final(self).retrigger_after_accept == old(self).retrigger_after_accept
                }
            }),
            is_refreshed(*old(self), *final(self), has_token, trigger, current_applies, action),
    {
        if !has_token {
            return RefreshAction::NoToken;
        }
        if !should_refresh_for_trigger(trigger, self.retrigger_after_accept) {
            self.retrigger_after_accept = true;
            return RefreshAction::SkipAfterAccept;
        }
        if trigger != EditPredictionRequestTrigger::CursorClick && self.current_completion.is_some()
            && current_applies {
            return RefreshAction::KeepCurrent;
        }
        RefreshAction::Request
    }

    /// Moves on to the next generation; answers to earlier requests no longer count.
    fn advance(&mut self)
        ensures
            final(self).request_generation == next_generation(old(self).request_generation),
            final(self).current_completion is None,
            final(self).file_sync == old(self).file_sync,
            final(self).pending_request == old(self).pending_request,
            final(self).retrigger_after_accept == old(self).retrigger_after_accept,
    {
        self.request_generation = self.request_generation.wrapping_add(1);
        self.current_completion = None;
    }

    /// Notes that a request is sent, and gives the generation that its answer is for.
    pub fn start_request(&mut self) -> (generation: u64)
        ensures
            generation == next_generation(old(self).request_generation),
            final(self).request_generation == generation,
            final(self).pending_request,
            final(self).current_completion is None,
            final(self).retrigger_after_accept == old(self).retrigger_after_accept,
            final(self).file_sync == old(self).file_sync,
            is_started(*old(self), *final(self), generation),
    {
        self.advance();
        self.pending_request = true;
        self.request_generation
    }

    /// Whether the answer to the request of a generation still counts.
    pub fn is_current(&self, generation: u64) -> (r: bool)
        ensures
            r == (self.request_generation == generation),
    {
        self.request_generation == generation
    }

    /// Takes the answer to the request of a generation, and says whether it counted. One
    /// that no longer counts changes nothing.
    pub fn finish_request(
        &mut self,
        generation: u64,
        completion: Option<PlannedCompletion>,
    ) -> (counted: bool)
        ensures
            counted == (old(self).request_generation == generation),
            !counted ==> *final(self) == *old(self),
            counted ==> {
                &&& !final(self).pending_request
                &&& final(self).current_completion == if completion is Some {
                    completion
                } else {
                    old(self).current_completion
                }
                &&& final(self).request_generation == old(self).request_generation
                &&& final(self).retrigger_after_accept == old(self).retrigger_after_accept
                &&& final(self).file_sync == old(self).file_sync
            },
            is_finished(*old(self), *final(self), generation, completion, counted),
    {
        if self.request_generation != generation {
            return false;
        }
        self.pending_request = false;
        if completion.is_some() {
            self.current_completion = completion;
        }
        true
    }

    /// Takes the offered prediction as accepted.
    pub fn accept(&mut self)
        ensures
            final(self).retrigger_after_accept == match old(self).current_completion {
                Some(completion) => completion.should_retrigger,
                None => true,
            },
            final(self).request_generation == next_generation(old(self).request_generation),
            !final(self).pending_request,
            final(self).current_completion is None,
            final(self).file_sync == old(self).file_sync,
            is_taken_back(*old(self), *final(self), true),
    {
        let retrigger: bool = match &self.current_completion {
            Some(completion) => completion.should_retrigger,
            None => true,
        };
        self.retrigger_after_accept = retrigger;
        self.advance();
        self.pending_request = false;
    }

    /// Takes the offered prediction as refused.
    pub fn discard(&mut self)
        ensures
            final(self).retrigger_after_accept,
            final(self).request_generation == next_generation(old(self).request_generation),
            !final(self).pending_request,
            final(self).current_completion is None,
            final(self).file_sync == old(self).file_sync,
            is_taken_back(*old(self), *final(self), false),
    {
        self.retrigger_after_accept = true;
        self.advance();
        self.pending_request = false;
    }

    /// The edits to offer now. Nothing is offered without a completion that still applies,
    /// nor when there are no edits and the cursor is already where it would go.
    pub fn suggest<E>(
        &self,
        document_changed: bool,
        carried_over: Option<Vec<E>>,
        cursor_is_there: bool,
    ) -> (r: Option<Vec<E>>)
        ensures
            r == match self.current_completion {
                None => None,
                Some(completion) => if still_applies(
                    completion,
                    document_changed,
                    edit_count(carried_over),
                ) && !(edit_count(carried_over) == Some(0nat) && completion.cursor_position is Some
                    && cursor_is_there) {
                    carried_over
                } else {
                    None
                },
            },
            r == if is_offered(
                self.current_completion,
                document_changed,
                edit_count(carried_over),
                cursor_is_there,
            ) {
                carried_over
            } else {
                None
            },
    {
        let completion: &PlannedCompletion = match &self.current_completion {
            Some(completion) => completion,
            None => {
                return None;
            },
        };
        match completion.interpolate(document_changed, carried_over) {
            Some(edits) => if edits.len() == 0 && completion.cursor_position.is_some()
                && cursor_is_there {
                None
            } else {
                Some(edits)
            },
            None => None,
        }
    }
}

/// A completion with edits applies as long as some of them can be carried over. One without
/// edits applies while the document is the one that it was made for and it has a place for the
/// cursor to go.
pub proof fn lemma_still_applies(
    completion: PlannedCompletion,
    document_changed: bool,
    carried_over: Option<nat>,
)
    requires
        completion.edits@.len() == 0 ==> carried_over is None || carried_over == Some(0nat),
    ensures
        carried_over is None ==> !still_applies(completion, document_changed, carried_over),
        completion.edits@.len() > 0 && carried_over is Some ==> (still_applies(
            completion,
            document_changed,
            carried_over,
        ) <==> carried_over->0 > 0),
        completion.edits@.len() == 0 && carried_over is Some ==> (still_applies(
            completion,
            document_changed,
            carried_over,
        ) <==> !document_changed && completion.cursor_position is Some),
{
}

/// Generations follow one another and begin again behind the last.
pub proof fn lemma_next_generation(generation: u64)
    ensures
        generation < u64::MAX ==> next_generation(generation) == generation + 1,
        next_generation(u64::MAX) == 0,
{
}

/// A completion with edits is offered as long as some of them can be carried over. One without
/// edits is offered in the document that it was made for, as long as the cursor has somewhere
/// to go and is not there yet.
pub proof fn lemma_is_offered(
    completion: PlannedCompletion,
    document_changed: bool,
    carried_over: Option<nat>,
    cursor_is_there: bool,
)
    requires
        completion.edits@.len() == 0 ==> carried_over is None || carried_over == Some(0nat),
    ensures
        is_offered(Some(completion), document_changed, carried_over, cursor_is_there)
            <==> match carried_over {
            None => false,
            Some(count) => count > 0 || (completion.edits@.len() == 0 && !document_changed
                && completion.cursor_position is Some && !cursor_is_there),
        },
        !is_offered(None, document_changed, carried_over, cursor_is_there),
{
}

/// Nothing is asked for without a token, and a click always asks. Any other trigger leaves a
/// prediction that still applies in its place, and asks when there is none.
pub proof fn lemma_when_asked(
    before: CursorTabEditPredictionDelegate,
    after: CursorTabEditPredictionDelegate,
    has_token: bool,
    trigger: EditPredictionRequestTrigger,
    current_applies: bool,
    action: RefreshAction,
)
    requires
        is_refreshed(before, after, has_token, trigger, current_applies, action),
    ensures
        !has_token <==> action == RefreshAction::NoToken,
        has_token && trigger == EditPredictionRequestTrigger::CursorClick ==> action
            == RefreshAction::Request,
        has_token && trigger != EditPredictionRequestTrigger::CursorClick && trigger
            != EditPredictionRequestTrigger::PredictionAccepted ==> action == if current_applies
            && before.current_completion is Some {
            RefreshAction::KeepCurrent
        } else {
            RefreshAction::Request
        },
        action == RefreshAction::KeepCurrent ==> current_applies && before.current_completion
            is Some,
        action != RefreshAction::SkipAfterAccept ==> after == before,
        after.current_completion == before.current_completion,
        after.pending_request == before.pending_request,
        after.request_generation == before.request_generation,
        after.file_sync == before.file_sync,
{
}

/// After a prediction was accepted, the next one is asked for unless the accepted one said
/// otherwise. That holds back one request and no more.
pub proof fn lemma_after_accept(
    before: CursorTabEditPredictionDelegate,
    accepted: CursorTabEditPredictionDelegate,
    first: CursorTabEditPredictionDelegate,
    second: CursorTabEditPredictionDelegate,
    first_applies: bool,
    second_applies: bool,
    first_action: RefreshAction,
    second_action: RefreshAction,
)
    requires
        is_taken_back(before, accepted, true),
        is_refreshed(
            accepted,
            first,
            true,
            EditPredictionRequestTrigger::PredictionAccepted,
            first_applies,
            first_action,
        ),
        is_refreshed(
            first,
            second,
            true,
            EditPredictionRequestTrigger::PredictionAccepted,
            second_applies,
            second_action,
        ),
    ensures
        first_action == if before.current_completion is Some
            && !before.current_completion->0.should_retrigger {
            RefreshAction::SkipAfterAccept
        } else {
            RefreshAction::Request
        },
        second_action == RefreshAction::Request,
{
}

/// After a prediction was refused, the next one is asked for, whatever the trigger.
pub proof fn lemma_after_discard(
    before: CursorTabEditPredictionDelegate,
    discarded: CursorTabEditPredictionDelegate,
    after: CursorTabEditPredictionDelegate,
    trigger: EditPredictionRequestTrigger,
    current_applies: bool,
    action: RefreshAction,
)
    requires
        is_taken_back(before, discarded, false),
        is_refreshed(discarded, after, true, trigger, current_applies, action),
    ensures
        action == RefreshAction::Request,
{
}

/// The answer to the last request counts: it is what is offered, and nothing is pending.
pub proof fn lemma_answer_counts(
    before: CursorTabEditPredictionDelegate,
    started: CursorTabEditPredictionDelegate,
    after: CursorTabEditPredictionDelegate,
    generation: u64,
    completion: Option<PlannedCompletion>,
    counted: bool,
)
    requires
        is_started(before, started, generation),
        is_finished(started, after, generation, completion, counted),
    ensures
        started.pending_request,
        started.current_completion is None,
        counted,
        after.current_completion == completion,
        !after.pending_request,
        after.retrigger_after_accept == before.retrigger_after_accept,
        after.file_sync == before.file_sync,
{
}

/// An answer that comes after the prediction was accepted or refused, or after another request
/// was sent, changes nothing.
pub proof fn lemma_late_answer(
    before: CursorTabEditPredictionDelegate,
    started: CursorTabEditPredictionDelegate,
    moved_on: CursorTabEditPredictionDelegate,
    after: CursorTabEditPredictionDelegate,
    generation: u64,
    completion: Option<PlannedCompletion>,
    counted: bool,
)
    requires
        is_started(before, started, generation),
        is_taken_back(started, moved_on, true) || is_taken_back(started, moved_on, false)
            || is_started(started, moved_on, moved_on.request_generation),
        is_finished(moved_on, after, generation, completion, counted),
    ensures
        !counted,
        after == moved_on,
        moved_on.current_completion is None,
{
    lemma_next_generation(generation);
}

/// Once the offered prediction was accepted or refused, none is offered and none is pending.
pub proof fn lemma_taken_back(
    before: CursorTabEditPredictionDelegate,
    after: CursorTabEditPredictionDelegate,
    accepted: bool,
    document_changed: bool,
    carried_over: Option<nat>,
    cursor_is_there: bool,
)
    requires
        is_taken_back(before, after, accepted),
    ensures
        !is_offered(
            after.current_completion,
            document_changed,
            carried_over,
            cursor_is_there,
        ),
        !after.pending_request,
        after.request_generation != before.request_generation,
        after.file_sync == before.file_sync,
{
}

} // verus!
