use cursor_tab::delegate::{CursorTabEditPredictionDelegate, RefreshAction};
use cursor_tab::completion::{AnchoredEdit, PlannedCompletion};
use cursor_tab::file_sync::{
    file_sync_cookie, hex_of, sha_256, single_file_update, workspace_id, FileSync,
    FileSyncRequest, SingleUpdateRequest,
};
use cursor_tab::service::{
    authorization_header_value, file_sync_api_url, file_sync_headers, stream_cpp_api_url,
    stream_cpp_headers, CURSOR_TAB_API_URL, CURSOR_TAB_MODEL,
};
use cursor_tab::snapshot::{Bias, Point};
use cursor_tab::targets::PredictedCursor;
use cursor_tab::trigger::{
    intent_source, should_refresh_for_trigger, EditPredictionRequestTrigger,
};

#[test]
fn accepts_raw_and_prefixed_bearer_tokens() {
    assert_eq!(authorization_header_value("jwt"), "Bearer jwt");
    assert_eq!(authorization_header_value(" bearer jwt "), "bearer jwt");
}

#[test]
fn a_token_names_its_scheme_in_any_case() {
    assert_eq!(authorization_header_value("BeArEr x"), "BeArEr x");
    assert_eq!(authorization_header_value("bearer"), "Bearer bearer");
    assert_eq!(authorization_header_value("bearer復x"), "Bearer bearer復x");
    assert_eq!(authorization_header_value("\u{a0}"), "Bearer ");
}

#[test]
fn constructs_file_sync_service_urls() {
    assert_eq!(
        file_sync_api_url(CURSOR_TAB_API_URL, "FSSyncFile").unwrap(),
        "https://us-only.gcpp.cursor.sh/aiserver.v1.FileSyncService/FSSyncFile"
    );
    assert_eq!(
        stream_cpp_api_url(CURSOR_TAB_API_URL).unwrap(),
        "https://us-only.gcpp.cursor.sh/aiserver.v1.AiService/StreamCpp"
    );
}

#[test]
fn slashes_behind_an_address_do_not_matter() {
    assert_eq!(
        stream_cpp_api_url("http://localhost//").unwrap(),
        "http://localhost/aiserver.v1.AiService/StreamCpp"
    );
    assert!(stream_cpp_api_url("//").is_err());
    assert!(file_sync_api_url("", "FSSyncFile").is_err());
    assert_eq!(CURSOR_TAB_MODEL, "fast");
}

#[test]
fn requests_say_who_sends_them() {
    let headers = stream_cpp_headers("1.2", "request", "session", "token");
    let fields: Vec<_> = headers
        .iter()
        .map(|header| (header.name, header.value.as_str()))
        .collect();
    assert_eq!(
        fields,
        vec![
            ("content-type", "application/connect+proto"),
            ("connect-protocol-version", "1"),
            ("x-cursor-client-type", "ide"),
            ("x-cursor-client-version", "1.2"),
            ("x-cursor-streaming", "true"),
            ("x-request-id", "request"),
            ("x-session-id", "session"),
            ("authorization", "Bearer token"),
        ]
    );
    let headers = file_sync_headers("1.2", "request", "session", "key", "token", "cookie");
    let fields: Vec<_> = headers
        .iter()
        .map(|header| (header.name, header.value.as_str()))
        .collect();
    assert_eq!(
        fields,
        vec![
            ("content-type", "application/proto"),
            ("connect-protocol-version", "1"),
            ("x-cursor-client-type", "ide"),
            ("x-cursor-client-version", "1.2"),
            ("x-request-id", "request"),
            ("x-session-id", "session"),
            ("x-fs-client-key", "key"),
            ("authorization", "Bearer token"),
            ("cookie", "cookie"),
        ]
    );
}

#[test]
fn computes_file_sync_update_in_utf16_offsets() {
    let update = single_file_update("a😀c", "a😀longer c").unwrap();

    assert_eq!(update.start_position, 3);
    assert_eq!(update.end_position, 3);
    assert_eq!(update.change_length, 0);
    assert_eq!(update.replaced_string, "longer ");
}

#[test]
fn computes_file_sync_replacement() {
    let update = single_file_update("hello world", "hello rust").unwrap();

    assert_eq!(update.start_position, 6);
    assert_eq!(update.end_position, 11);
    assert_eq!(update.change_length, 5);
    assert_eq!(update.replaced_string, "rust");
}

fn updated(contents: &str, update: &SingleUpdateRequest) -> String {
    let mut units: Vec<u16> = contents.encode_utf16().collect();
    units.splice(
        update.start_position as usize..update.end_position as usize,
        update.replaced_string.encode_utf16(),
    );
    String::from_utf16(&units).unwrap()
}

#[test]
fn an_update_turns_the_old_contents_into_the_new() {
    for (old, new) in [
        ("", "復古 🎵"),
        ("復古 🎵", ""),
        ("aaa", "aa"),
        ("abcabc", "abc"),
        ("é", "è"),
        ("🎵🎶", "🎶🎵"),
        ("same", "same"),
    ] {
        let update = single_file_update(old, new).unwrap();
        assert_eq!(updated(old, &update), new);
        assert_eq!(
            update.change_length,
            update.end_position - update.start_position
        );
        assert!(update.range.is_none());
    }
}

#[test]
fn hashes_are_written_in_hexadecimal() {
    assert_eq!(hex_of(&[0x00, 0x0a, 0x9f, 0xff]), "000a9fff");
    assert_eq!(
        sha_256("abc"),
        "ba7816bf8f01cfea414140de5dae2223b00361a396177a9cb410ff61f20015ad"
    );
    assert_eq!(
        workspace_id("abc").as_deref(),
        Some("ba7816bf8f01cfea414140de5dae2223b00361a396177a9cb410ff61f20015ad")
    );
    assert_eq!(workspace_id(""), None);
    assert_eq!(
        file_sync_cookie("abc"),
        "FilesyncCookie=ba7816bf8f01cfea414140de5dae2223"
    );
}

#[test]
fn a_file_is_uploaded_once_and_then_updated() {
    let mut sync = FileSync::with_uuid("id".into());
    let edit = EditPredictionRequestTrigger::BufferEdit;
    let other = EditPredictionRequestTrigger::Other;
    let mut send = |path: &str, contents: &str, trigger| {
        sync.enqueue_file_sync("key", path.into(), contents.into(), trigger)
            .unwrap()
    };
    let first = send("a.rs", "one", other).unwrap();
    assert_eq!(first.method_name(), "FSUploadFile");
    match first {
        FileSyncRequest::Upload(upload) => {
            assert_eq!(upload.uuid, "id");
            assert_eq!(upload.relative_workspace_path, "a.rs");
            assert_eq!(upload.contents, "one");
            assert_eq!(upload.model_version, 1);
            assert_eq!(upload.sha256_hash, sha_256("one"));
        }
        FileSyncRequest::Sync(_) => panic!("the first request uploads"),
    }
    assert_eq!(send("a.rs", "two", other), None);
    assert_eq!(send("a.rs", "one", edit), None);
    let second = send("a.rs", "one 🎵", edit).unwrap();
    assert_eq!(second.method_name(), "FSSyncFile");
    match second {
        FileSyncRequest::Sync(update) => {
            assert_eq!(update.uuid, "id");
            assert_eq!(update.relative_workspace_path, "a.rs");
            assert_eq!(update.model_version, 2);
            assert_eq!(update.sha256_hash, sha_256("one 🎵"));
            assert_eq!(update.filesync_updates.len(), 1);
            let changes = &update.filesync_updates[0];
            assert_eq!(changes.model_version, 2);
            assert_eq!(changes.relative_workspace_path, "a.rs");
            assert_eq!(changes.expected_file_length, 6);
            assert_eq!(changes.updates.len(), 1);
            assert_eq!(updated("one", &changes.updates[0]), "one 🎵");
        }
        FileSyncRequest::Upload(_) => panic!("a later request updates"),
    }
    assert_eq!(
        send("b.rs", "one", edit).unwrap().method_name(),
        "FSUploadFile"
    );
    match send("a.rs", "", edit).unwrap() {
        FileSyncRequest::Sync(update) => assert_eq!(update.model_version, 3),
        FileSyncRequest::Upload(_) => panic!("a later request updates"),
    }
}

#[test]
fn without_a_key_no_file_is_sent() {
    let mut sync = FileSync::new();
    let edit = EditPredictionRequestTrigger::BufferEdit;
    assert_eq!(
        sync.enqueue_file_sync("", "a.rs".into(), "one".into(), edit),
        Ok(None)
    );
    let upload = sync
        .enqueue_file_sync("key", "a.rs".into(), "one".into(), edit)
        .unwrap();
    match upload {
        Some(FileSyncRequest::Upload(upload)) => {
            assert_eq!(upload.uuid.len(), 36);
            assert_eq!(upload.uuid.matches('-').count(), 4);
        }
        other => panic!("expected an upload, got {other:?}"),
    }
}

#[test]
fn identifiers_differ() {
    let id = || {
        let mut sync = FileSync::new();
        match sync.enqueue_file_sync(
            "key",
            "a.rs".into(),
            "one".into(),
            EditPredictionRequestTrigger::Other,
        ) {
            Ok(Some(FileSyncRequest::Upload(upload))) => upload.uuid,
            other => panic!("expected an upload, got {other:?}"),
        }
    };
    assert_ne!(id(), id());
}

#[test]
fn skips_refresh_after_accept_when_retrigger_is_disabled() {
    assert!(!should_refresh_for_trigger(
        EditPredictionRequestTrigger::PredictionAccepted,
        false,
    ));
    assert!(should_refresh_for_trigger(
        EditPredictionRequestTrigger::PredictionAccepted,
        true,
    ));
    assert!(should_refresh_for_trigger(
        EditPredictionRequestTrigger::PredictionPartiallyAccepted,
        false,
    ));
    assert!(should_refresh_for_trigger(
        EditPredictionRequestTrigger::BufferEdit,
        false,
    ));
}

#[test]
fn triggers_are_named_to_the_service() {
    for (trigger, name) in [
        (
            EditPredictionRequestTrigger::DiagnosticNavigation,
            "linter_errors",
        ),
        (EditPredictionRequestTrigger::Explicit, "manual_trigger"),
        (
            EditPredictionRequestTrigger::LSPCompletionAccepted,
            "lsp_suggestions",
        ),
        (
            EditPredictionRequestTrigger::PredictionAccepted,
            "cursor_prediction",
        ),
        (
            EditPredictionRequestTrigger::PredictionPartiallyAccepted,
            "cursor_prediction",
        ),
        (EditPredictionRequestTrigger::BufferEdit, "editor_change"),
        (EditPredictionRequestTrigger::CursorClick, "typing"),
        (EditPredictionRequestTrigger::Other, "typing"),
    ] {
        assert_eq!(intent_source(trigger), name);
    }
}

#[test]
fn cursor_tab_does_not_jump_to_distant_edits() {
    assert!(!CursorTabEditPredictionDelegate::supports_jump_to_edit());
}

#[test]
fn cursor_tab_predictions_stay_inline_with_completion_menu() {
    assert!(CursorTabEditPredictionDelegate::show_predictions_in_menu());
    assert!(CursorTabEditPredictionDelegate::show_predictions_inline_with_menu());
}

fn completion(should_retrigger: bool) -> PlannedCompletion {
    PlannedCompletion {
        edits: vec![AnchoredEdit {
            start: 0,
            start_bias: Bias::Right,
            end: 0,
            text: "x".into(),
        }],
        cursor_position: None,
        should_retrigger,
    }
}

#[test]
fn an_answer_that_comes_too_late_is_not_offered() {
    let mut delegate = CursorTabEditPredictionDelegate::new();
    let first = delegate.start_request();
    let second = delegate.start_request();
    assert!(delegate.is_refreshing());
    assert!(!delegate.is_current(first));
    assert!(!delegate.finish_request(first, Some(completion(true))));
    assert!(delegate.is_refreshing());
    assert!(delegate.current_completion.is_none());
    assert!(delegate.finish_request(second, Some(completion(true))));
    assert!(!delegate.is_refreshing());
    assert!(delegate.current_completion.is_some());

    let third = delegate.start_request();
    assert!(delegate.current_completion.is_none());
    delegate.discard();
    assert!(!delegate.finish_request(third, Some(completion(true))));
    assert!(delegate.current_completion.is_none());
}

#[test]
fn an_accepted_prediction_can_suppress_the_next_request() {
    let accepted = EditPredictionRequestTrigger::PredictionAccepted;
    let mut delegate = CursorTabEditPredictionDelegate::new();
    let generation = delegate.start_request();
    delegate.finish_request(generation, Some(completion(false)));
    delegate.accept();
    assert!(delegate.current_completion.is_none());
    assert_eq!(
        delegate.refresh(false, accepted, false),
        RefreshAction::NoToken
    );
    assert_eq!(
        delegate.refresh(true, accepted, false),
        RefreshAction::SkipAfterAccept
    );
    assert_eq!(
        delegate.refresh(true, accepted, false),
        RefreshAction::Request
    );
}

#[test]
fn a_prediction_that_still_applies_is_kept() {
    let mut delegate = CursorTabEditPredictionDelegate::new();
    let typing = EditPredictionRequestTrigger::BufferEdit;
    assert_eq!(delegate.refresh(true, typing, true), RefreshAction::Request);
    let generation = delegate.start_request();
    delegate.finish_request(generation, Some(completion(true)));
    assert_eq!(
        delegate.refresh(true, typing, true),
        RefreshAction::KeepCurrent
    );
    assert_eq!(delegate.refresh(true, typing, false), RefreshAction::Request);
    assert_eq!(
        delegate.refresh(true, EditPredictionRequestTrigger::CursorClick, true),
        RefreshAction::Request
    );
}

#[test]
fn generations_wrap_around() {
    let mut delegate = CursorTabEditPredictionDelegate::new();
    delegate.request_generation = u64::MAX;
    assert_eq!(delegate.start_request(), 0);
}

#[test]
fn suggestions_need_edits_or_a_place_to_go() {
    let mut delegate = CursorTabEditPredictionDelegate::new();
    assert_eq!(delegate.suggest(false, Some(vec![1]), false), None);
    delegate.current_completion = Some(completion(true));
    assert_eq!(delegate.suggest(true, Some(vec![1]), true), Some(vec![1]));
    assert_eq!(delegate.suggest(true, Some(Vec::<i32>::new()), false), None);
    assert_eq!(delegate.suggest::<i32>(false, None, false), None);

    delegate.current_completion = Some(PlannedCompletion {
        edits: Vec::new(),
        cursor_position: Some(PredictedCursor::InSnapshot(Point::new(1, 0))),
        should_retrigger: true,
    });
    let none = || Some(Vec::<i32>::new());
    assert_eq!(delegate.suggest(false, none(), false), none());
    assert_eq!(delegate.suggest(false, none(), true), None);
    assert_eq!(delegate.suggest(true, none(), false), None);
}

#[test]
fn blank_settings_disable_predictions() {
    let delegate = CursorTabEditPredictionDelegate::new();
    assert!(delegate.is_enabled(true, "1", "2", "3"));
    assert!(!delegate.is_enabled(false, "1", "2", "3"));
    assert!(!delegate.is_enabled(true, " ", "2", "3"));
    assert!(!delegate.is_enabled(true, "1", "", "3"));
    assert!(!delegate.is_enabled(true, "1", "2", "\t"));
    assert_eq!(CursorTabEditPredictionDelegate::name(), "cursor-tab");
    assert_eq!(
        CursorTabEditPredictionDelegate::display_name(),
        "Cursor Tab"
    );
}

#[test]
fn an_update_replaces_no_more_than_it_must() {
    for (old, new, replaced, put) in [
        ("aa", "a", 1, 0),
        ("abcabc", "abc", 3, 0),
        ("let a = 1;", "let b = 1;", 1, 1),
        ("", "復古", 0, 2),
    ] {
        let update = single_file_update(old, new).unwrap();
        assert_eq!(update.change_length, replaced);
        assert_eq!(update.replaced_string.chars().count(), put);
    }
}
