//! Why a prediction is asked for.

use vstd::prelude::*;

verus! {

/// What made the editor ask for a prediction.
#[derive(Clone, Copy, Debug, PartialEq, Eq, Structural)]
pub enum EditPredictionRequestTrigger {
    DiagnosticNavigation,
    Explicit,
    LSPCompletionAccepted,
    PredictionAccepted,
    PredictionPartiallyAccepted,
    BufferEdit,
    EditorCreated,
    ProviderChanged,
    UserInfoChanged,
    VimModeChanged,
    SettingsChanged,
    CursorClick,
    Other,
}

/// Whether a trigger leads to a request: accepting a prediction does so only if that
/// prediction asked for it.
pub fn should_refresh_for_trigger(
    trigger: EditPredictionRequestTrigger,
    retrigger_after_accept: bool,
) -> (r: bool)
    ensures
        r == (trigger != EditPredictionRequestTrigger::PredictionAccepted
            || retrigger_after_accept),
{
    trigger != EditPredictionRequestTrigger::PredictionAccepted || retrigger_after_accept
}

/// How a trigger is named to the service.
pub open spec fn intent_name(trigger: EditPredictionRequestTrigger) -> &'static str {
    match trigger {
        EditPredictionRequestTrigger::DiagnosticNavigation => "linter_errors",
        EditPredictionRequestTrigger::Explicit => "manual_trigger",
        EditPredictionRequestTrigger::LSPCompletionAccepted => "lsp_suggestions",
        EditPredictionRequestTrigger::PredictionAccepted => "cursor_prediction",
        EditPredictionRequestTrigger::PredictionPartiallyAccepted => "cursor_prediction",
        EditPredictionRequestTrigger::BufferEdit => "editor_change",
        _ => "typing",
    }
}

/// How a trigger is named to the service.
pub fn intent_source(trigger: EditPredictionRequestTrigger) -> (source: &'static str)
    ensures
        source@ == intent_name(trigger)@,
{
    match trigger {
        EditPredictionRequestTrigger::DiagnosticNavigation => "linter_errors",
        EditPredictionRequestTrigger::Explicit => "manual_trigger",
        EditPredictionRequestTrigger::LSPCompletionAccepted => "lsp_suggestions",
        EditPredictionRequestTrigger::PredictionAccepted
        | EditPredictionRequestTrigger::PredictionPartiallyAccepted => "cursor_prediction",
        EditPredictionRequestTrigger::BufferEdit => "editor_change",
        EditPredictionRequestTrigger::EditorCreated
        | EditPredictionRequestTrigger::ProviderChanged
        | EditPredictionRequestTrigger::UserInfoChanged
        | EditPredictionRequestTrigger::VimModeChanged
        | EditPredictionRequestTrigger::SettingsChanged
        | EditPredictionRequestTrigger::CursorClick
        | EditPredictionRequestTrigger::Other => "typing",
    }
}

/// Only a request that was asked for is named so, and requests that follow an accepted
/// prediction are named alike, whether all of it was accepted or a part.
pub proof fn lemma_intent_names(trigger: EditPredictionRequestTrigger)
    ensures
        intent_name(trigger)@ == "manual_trigger"@ <==> trigger
            == EditPredictionRequestTrigger::Explicit,
        intent_name(trigger)@ == "linter_errors"@ <==> trigger
            == EditPredictionRequestTrigger::DiagnosticNavigation,
        intent_name(trigger)@ == "lsp_suggestions"@ <==> trigger
            == EditPredictionRequestTrigger::LSPCompletionAccepted,
        intent_name(trigger)@ == "cursor_prediction"@ <==> trigger
            == EditPredictionRequestTrigger::PredictionAccepted || trigger
            == EditPredictionRequestTrigger::PredictionPartiallyAccepted,
        intent_name(trigger)@ == "editor_change"@ <==> trigger
            == EditPredictionRequestTrigger::BufferEdit,
        intent_name(trigger)@ == "typing"@ <==> trigger
            == EditPredictionRequestTrigger::EditorCreated || trigger
            == EditPredictionRequestTrigger::ProviderChanged || trigger
            == EditPredictionRequestTrigger::UserInfoChanged || trigger
            == EditPredictionRequestTrigger::VimModeChanged || trigger
            == EditPredictionRequestTrigger::SettingsChanged || trigger
            == EditPredictionRequestTrigger::CursorClick || trigger
            == EditPredictionRequestTrigger::Other,
{
    reveal_strlit("manual_trigger");
    reveal_strlit("linter_errors");
    reveal_strlit("lsp_suggestions");
    reveal_strlit("cursor_prediction");
    reveal_strlit("editor_change");
    reveal_strlit("typing");
    assert("manual_trigger"@.len() == 14);
    assert("linter_errors"@.len() == 13);
    assert("lsp_suggestions"@.len() == 15);
    assert("cursor_prediction"@.len() == 17);
    assert("editor_change"@.len() == 13);
    assert("typing"@.len() == 6);
    assert("linter_errors"@[0] == 'l');
    assert("editor_change"@[0] == 'e');
}

} // verus!
