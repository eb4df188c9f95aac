use cursor_tab::request::{
    AdditionalFile, CodeRange, ControlToken, CursorPosition, Double, LinterError, Position,
    RequestError, Selection, StreamCppRequestInput,
};

fn double(value: f64) -> Double {
    Double {
        bits: value.to_bits(),
    }
}

fn request_input(contents: &str) -> StreamCppRequestInput {
    StreamCppRequestInput {
        relative_workspace_path: "src/main.rs".into(),
        workspace_root_path: "/worktree".into(),
        contents: contents.into(),
        cursor_position: CursorPosition { line: 0, column: 0 },
        selection: None,
        language_id: "rust".into(),
        file_version: Some(7),
        sha_256_hash: None,
        linter_errors: Vec::new(),
        file_diff_histories: Vec::new(),
        merged_diff_histories: Vec::new(),
        additional_files: Vec::new(),
        code_results: Vec::new(),
        model_name: Some("fast".into()),
        intent_source: Some("line_change".into()),
        workspace_id: Some("workspace".into()),
        client_time: double(1000.0),
        time_since_request_start: double(4.0),
        time_at_request_send: double(1004.0),
        client_timezone_offset: Some(double(-600.0)),
        supports_cpt: false,
        supports_crlf_cpt: false,
    }
}

#[test]
fn builds_current_file_and_linter_context_from_same_snapshot() {
    let contents = "fn main() {\r\n    unknown();\r\n}\r\n";
    let mut input = request_input(contents);
    input.cursor_position = CursorPosition { line: 1, column: 4 };
    input.selection = Some(Selection {
        start_line: 1,
        start_column: 4,
        end_line: 1,
        end_column: 11,
    });
    input.linter_errors.push(LinterError {
        message: "cannot find function `unknown`".into(),
        range: Some(CodeRange {
            start_position: Some(Position { line: 1, column: 4 }),
            end_position: Some(Position {
                line: 1,
                column: 11,
            }),
        }),
        source: Some("rustc".into()),
        related_information: Vec::new(),
        severity: None,
        is_stale: Some(false),
    });

    let request = input.build().unwrap();
    let current_file = request.current_file.unwrap();
    assert_eq!(current_file.total_number_of_lines, 4);
    assert_eq!(current_file.line_ending.as_deref(), Some("\r\n"));
    assert_eq!(current_file.language_id, "rust");
    assert_eq!(current_file.selection.unwrap().end_column, 11);
    let linter_errors = request.linter_errors.unwrap();
    assert!(linter_errors.file_contents.is_empty());
    assert_eq!(
        linter_errors.errors[0]
            .range
            .and_then(|range| range.end_position)
            .map(|position| position.column),
        Some(11)
    );
}

#[test]
fn builds_current_file_without_diagnostics() {
    let contents = "function main() {}\n";
    let mut input = request_input(contents);
    input.relative_workspace_path = "main.js".into();
    input.language_id = "javascript".into();
    input.cursor_position = CursorPosition { line: 0, column: 8 };
    input.sha_256_hash = Some("contents-hash".into());

    let request = input.build().unwrap();
    assert!(request.linter_errors.is_none());
    let current_file = request.current_file.unwrap();
    assert_eq!(current_file.relative_workspace_path, "main.js");
    assert_eq!(current_file.contents, contents);
    assert_eq!(current_file.language_id, "javascript");
    assert_eq!(current_file.file_version, Some(7));
    assert_eq!(current_file.sha_256_hash.as_deref(), Some("contents-hash"));
    assert!(current_file.diagnostics.is_empty());
}

#[test]
fn rejects_invalid_positions_and_timings() {
    let mut input = request_input("fn main() {}\n");
    input.cursor_position.line = 2;
    assert!(input.build().is_err());

    let mut input = request_input("fn main() {}\n");
    input.time_at_request_send = double(f64::NAN);
    assert!(input.build().is_err());
}

#[test]
fn large_file_windows_preserve_absolute_coordinates() {
    for line_ending in ["\n", "\r\n"] {
        let lines = (0..1_000)
            .map(|row| format!("{row}: {}", "🎵".repeat(30)))
            .collect::<Vec<_>>();
        let contents = lines.join(line_ending);
        for (cursor_line, expected_window) in [
            (0, 0..600),
            (28, 0..600),
            (500, 200..800),
            (999, 400..1_000),
        ] {
            let mut input = request_input(&contents);
            input.cursor_position = CursorPosition {
                line: cursor_line,
                column: 3,
            };
            input.sha_256_hash = Some("full-file-hash".into());
            let request = input.build().unwrap();
            let file = request.current_file.expect("missing current file");
            assert_eq!(
                file.cursor_position,
                Some(CursorPosition {
                    line: cursor_line,
                    column: 3
                })
            );
            assert_eq!(file.contents_start_at_line, 0);
            assert_eq!(file.total_number_of_lines, 1_000);
            assert_eq!(file.line_ending.as_deref(), Some(line_ending));
            assert!(file.sha_256_hash.is_none());
            assert!(!file.rely_on_filesync);
            let sent_lines = file.contents.split(line_ending).collect::<Vec<_>>();
            assert_eq!(sent_lines.len(), lines.len());
            for (row, (sent, original)) in sent_lines.iter().zip(&lines).enumerate() {
                assert_eq!(
                    *sent,
                    if expected_window.contains(&row) {
                        original.as_str()
                    } else {
                        ""
                    }
                );
            }
        }
    }
}

#[test]
fn window_threshold_uses_utf16_units_instead_of_bytes() {
    let contents = vec!["復古".repeat(12); 1_000].join("\n");
    assert!(contents.len() > 50_000);
    let request = request_input(&contents).build().unwrap();
    let file = request.current_file.expect("missing current file");
    assert_eq!(file.contents, contents);
}

#[test]
fn manual_trigger_requests_operation_control_token() {
    for (source, expected) in [
        ("manual_trigger", Some(ControlToken::Op as i32)),
        ("editor_change", None),
    ] {
        let mut input = request_input("const values = [\n");
        input.intent_source = Some(source.into());
        assert_eq!(input.build().unwrap().control_token, expected);
    }
}

#[test]
fn control_tokens_have_the_numbers_of_the_service() {
    for (token, number) in [
        (ControlToken::Unspecified, 0),
        (ControlToken::Quiet, 1),
        (ControlToken::Loud, 2),
        (ControlToken::Op, 3),
    ] {
        assert_eq!(token.number(), number);
        assert_eq!(token as i32, number);
    }
}

#[test]
fn every_fault_of_an_input_is_named() {
    let refused = |change: &dyn Fn(&mut StreamCppRequestInput)| {
        let mut input = request_input("one\ntwo");
        change(&mut input);
        input.build().unwrap_err()
    };
    let selection = |start_line, start_column, end_line, end_column| {
        Some(Selection {
            start_line,
            start_column,
            end_line,
            end_column,
        })
    };
    assert_eq!(
        refused(&|input| input.relative_workspace_path.clear()),
        RequestError::EmptyPath
    );
    assert_eq!(
        refused(&|input| input.language_id.clear()),
        RequestError::EmptyLanguage
    );
    assert_eq!(
        refused(&|input| input.client_time = double(f64::INFINITY)),
        RequestError::TimingNotFinite
    );
    assert_eq!(
        refused(&|input| input.time_since_request_start = double(f64::NEG_INFINITY)),
        RequestError::TimingNotFinite
    );
    assert_eq!(
        refused(&|input| input.time_since_request_start = double(-0.5)),
        RequestError::NegativeElapsedTime
    );
    assert_eq!(
        refused(&|input| input.cursor_position.line = 2),
        RequestError::CursorOutside
    );
    assert_eq!(
        refused(&|input| input.cursor_position.column = -1),
        RequestError::CursorOutside
    );
    assert_eq!(
        refused(&|input| input.selection = selection(-1, 0, 0, 0)),
        RequestError::SelectionStartOutside
    );
    assert_eq!(
        refused(&|input| input.selection = selection(0, 0, 2, 0)),
        RequestError::SelectionEndOutside
    );
    assert_eq!(
        refused(&|input| input.selection = selection(1, 2, 1, 1)),
        RequestError::SelectionReversed
    );
}

#[test]
fn negative_zero_is_not_negative() {
    let mut input = request_input("one");
    input.time_since_request_start = double(-0.0);
    assert!(input.build().is_ok());
}

#[test]
fn doubles_are_classified_as_numbers_are() {
    for value in [
        0.0,
        -0.0,
        1.5,
        -1.5,
        f64::MAX,
        f64::MIN,
        f64::MIN_POSITIVE,
        -f64::MIN_POSITIVE,
        5e-324,
        -5e-324,
        f64::INFINITY,
        f64::NEG_INFINITY,
        f64::NAN,
        -f64::NAN,
    ] {
        assert_eq!(double(value).is_finite(), value.is_finite(), "{value}");
        assert_eq!(double(value).is_negative(), value < 0.0, "{value}");
    }
}

#[test]
fn a_request_carries_its_context_along() {
    let mut input = request_input("one");
    input.additional_files.push(AdditionalFile {
        relative_workspace_path: "b.rs".into(),
        ..Default::default()
    });
    input.supports_cpt = true;
    let request = input.build().unwrap();
    assert_eq!(request.additional_files.len(), 1);
    assert_eq!(request.supports_cpt, Some(true));
    assert_eq!(request.supports_crlf_cpt, Some(false));
    assert_eq!(request.model_name.as_deref(), Some("fast"));
    assert_eq!(request.workspace_id.as_deref(), Some("workspace"));
    assert_eq!(
        request.cpp_intent_info.map(|info| info.source).as_deref(),
        Some("line_change")
    );
    assert_eq!(request.client_time, Some(double(1000.0)));
    assert_eq!(request.client_timezone_offset, Some(double(-600.0)));
}

#[test]
fn a_window_of_a_file_with_mixed_endings_keeps_every_row() {
    let lines = (0..1_000)
        .map(|line| format!("{line}: {}\n{}", "a".repeat(30), "b".repeat(30)))
        .collect::<Vec<_>>();
    let contents = lines.join("\r\n");
    let rows = contents.split('\n').collect::<Vec<_>>();
    assert_eq!(rows.len(), 2_000);
    for (cursor_line, kept) in [(0, 0..600), (500, 200..800), (1_999, 400..1_000)] {
        let mut input = request_input(&contents);
        input.cursor_position = CursorPosition {
            line: cursor_line,
            column: 0,
        };
        let file = input.build().unwrap().current_file.unwrap();
        assert_eq!(file.total_number_of_lines, 2_000);
        assert_eq!(file.line_ending.as_deref(), Some("\r\n"));
        let sent = file.contents.split('\n').collect::<Vec<_>>();
        assert_eq!(sent.len(), 2_000);
        for (row, text) in sent.iter().enumerate() {
            let line = row / 2;
            if kept.contains(&line) {
                assert_eq!(*text, rows[row]);
            } else {
                let end = row % 2 == 1 && line + 1 < lines.len();
                assert_eq!(*text, if end { "\r" } else { "" });
            }
        }
    }
}
