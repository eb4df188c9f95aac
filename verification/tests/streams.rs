use cursor_tab::connect::ConnectFrame;
use cursor_tab::messages::{
    CursorPredictionTarget, ModelInfo, RangeToReplace, StreamCppResponse,
};
use cursor_tab::snapshot::{Bias, PointUtf16, Snapshot};
use cursor_tab::stream::{accumulate_stream_frames, StreamError};

fn message(message: StreamCppResponse) -> ConnectFrame {
    ConnectFrame::Message(Box::new(message))
}

#[test]
fn accumulate_stream_frames_stops_at_done_stream_and_strips_leading_eol() {
    let first = StreamCppResponse {
        text: "\nfirst".into(),
        should_remove_leading_eol: Some(true),
        ..Default::default()
    };
    let done = StreamCppResponse {
        text: " edit".into(),
        done_stream: Some(true),
        cursor_prediction_target: Some(CursorPredictionTarget {
            relative_path: "src/main.rs".into(),
            line_number_one_indexed: 2,
            expected_content: "first edit".into(),
            should_retrigger_cpp: false,
        }),
        ..Default::default()
    };
    let stale = StreamCppResponse {
        text: "stale".into(),
        ..Default::default()
    };

    let stream =
        accumulate_stream_frames(vec![message(first), message(done), message(stale)]).unwrap();

    assert_eq!(stream.edits.len(), 1);
    assert_eq!(stream.edits[0].text, "first edit");
    assert_eq!(
        stream
            .cursor_prediction_target
            .as_ref()
            .map(|target| target.should_retrigger_cpp),
        Some(false)
    );
}

#[test]
fn accumulate_stream_frames_finalizes_edits_at_done_edit() {
    let first_range = StreamCppResponse {
        begin_edit: Some(true),
        range_to_replace: Some(RangeToReplace {
            start_line: 10,
            end_line: 11,
            start_column: 0,
            end_column: 0,
        }),
        binding_id: Some("edit-1".into()),
        ..Default::default()
    };
    let first_text = StreamCppResponse {
        text: "first".into(),
        ..Default::default()
    };
    let first_cursor = StreamCppResponse {
        cursor_prediction_target: Some(CursorPredictionTarget {
            relative_path: "src/main.rs".into(),
            line_number_one_indexed: 11,
            expected_content: "first edit".into(),
            should_retrigger_cpp: true,
        }),
        ..Default::default()
    };
    let first_done = StreamCppResponse {
        text: " edit".into(),
        done_edit: Some(true),
        ..Default::default()
    };
    let second_begin = StreamCppResponse {
        begin_edit: Some(true),
        range_to_replace: Some(RangeToReplace {
            start_line: 20,
            end_line: 21,
            start_column: 0,
            end_column: 1,
        }),
        text: "\n}".into(),
        should_remove_leading_eol: Some(true),
        binding_id: Some("edit-2".into()),
        done_edit: Some(true),
        done_stream: Some(true),
        ..Default::default()
    };

    let stream = accumulate_stream_frames(vec![
        message(first_range),
        message(first_text),
        message(first_cursor),
        message(first_done),
        message(second_begin),
    ])
    .unwrap();

    assert_eq!(stream.edits.len(), 2);
    assert_eq!(stream.edits[0].text, "first edit");
    assert_eq!(stream.edits[0].binding_id.as_deref(), Some("edit-1"));
    assert_eq!(
        stream.edits[0].range.map(|range| range.start_line),
        Some(10)
    );
    assert_eq!(
        stream.edits[0]
            .cursor_prediction_target
            .as_ref()
            .map(|target| target.line_number_one_indexed),
        Some(11)
    );
    assert_eq!(stream.edits[1].text, "}");
    assert_eq!(stream.edits[1].binding_id.as_deref(), Some("edit-2"));
    assert_eq!(
        stream.edits[1].range.map(|range| range.start_line),
        Some(20)
    );
    assert_eq!(
        stream
            .cursor_prediction_target
            .as_ref()
            .map(|target| target.line_number_one_indexed),
        Some(11)
    );
}

#[test]
fn accumulate_stream_frames_keeps_cursor_target_between_edits() {
    let first = StreamCppResponse {
        range_to_replace: Some(RangeToReplace {
            start_line: 1,
            end_line: 1,
            start_column: 0,
            end_column: 1,
        }),
        text: "one".into(),
        done_edit: Some(true),
        ..Default::default()
    };
    let between = StreamCppResponse {
        cursor_prediction_target: Some(CursorPredictionTarget {
            relative_path: "src/main.rs".into(),
            line_number_one_indexed: 4,
            expected_content: "two".into(),
            should_retrigger_cpp: false,
        }),
        ..Default::default()
    };
    let second = StreamCppResponse {
        begin_edit: Some(true),
        range_to_replace: Some(RangeToReplace {
            start_line: 3,
            end_line: 3,
            start_column: 0,
            end_column: 1,
        }),
        text: "two".into(),
        done_edit: Some(true),
        done_stream: Some(true),
        ..Default::default()
    };

    let stream =
        accumulate_stream_frames(vec![message(first), message(between), message(second)]).unwrap();

    assert_eq!(stream.edits.len(), 2);
    assert!(stream.edits[0].cursor_prediction_target.is_none());
    assert!(stream.edits[1].cursor_prediction_target.is_none());
    assert_eq!(
        stream
            .cursor_prediction_target
            .as_ref()
            .map(|target| (target.line_number_one_indexed, target.should_retrigger_cpp)),
        Some((4, false))
    );
}

#[test]
fn should_remove_leading_eol_applies_to_the_following_edit() {
    let flag = StreamCppResponse {
        should_remove_leading_eol: Some(true),
        ..Default::default()
    };
    let begin = StreamCppResponse {
        begin_edit: Some(true),
        range_to_replace: Some(RangeToReplace {
            start_line: 8,
            end_line: 8,
            start_column: 0,
            end_column: 1,
        }),
        text: "\n}".into(),
        done_edit: Some(true),
        done_stream: Some(true),
        ..Default::default()
    };

    let stream = accumulate_stream_frames(vec![message(flag), message(begin)]).unwrap();

    assert_eq!(stream.edits.len(), 1);
    assert_eq!(stream.edits[0].text, "}");
}

#[test]
fn non_multidiff_keeps_text_with_range_after_done_edit() {
    let frames = [
        StreamCppResponse {
            model_info: Some(ModelInfo {
                is_fused_cursor_prediction_model: true,
                is_multidiff_model: false,
            }),
            text: "  {\n    name: \"復古\",\n  },".into(),
            ..Default::default()
        },
        StreamCppResponse {
            done_edit: Some(true),
            ..Default::default()
        },
        StreamCppResponse {
            range_to_replace: Some(RangeToReplace {
                start_line: 2,
                end_line: 2,
                ..Default::default()
            }),
            ..Default::default()
        },
        StreamCppResponse {
            done_stream: Some(true),
            ..Default::default()
        },
    ];
    let stream = accumulate_stream_frames(frames.into_iter().map(message).collect()).unwrap();

    assert_eq!(stream.edits.len(), 1);
    let edit = stream.edits.first().expect("missing replacement");
    let replacement = edit.replacement(PointUtf16::new(1, 4), "    ").unwrap();
    let mut document =
        String::from("const locations = [\n    name: \"復古\",\n  { name: \"next\" },\n];");
    let snapshot = Snapshot::new(&document).unwrap();
    let start = snapshot.clip_point_utf16(replacement.start, Bias::Left);
    let end = snapshot.clip_point_utf16(replacement.end, Bias::Right);
    document.replace_range(
        snapshot.point_utf16_to_offset(start)..snapshot.point_utf16_to_offset(end),
        &replacement.text,
    );
    assert_eq!(
        document,
        "const locations = [\n  {\n    name: \"復古\",\n  },\n  { name: \"next\" },\n];"
    );
}

#[test]
fn an_unknown_model_closes_edits_when_they_are_done() {
    let frames = vec![
        message(StreamCppResponse {
            text: "one".into(),
            done_edit: Some(true),
            ..Default::default()
        }),
        message(StreamCppResponse {
            text: "two".into(),
            ..Default::default()
        }),
    ];
    let stream = accumulate_stream_frames(frames).unwrap();
    assert_eq!(stream.edits.len(), 2);
    assert!(!stream.is_multidiff_model);
}

#[test]
fn an_edit_without_content_is_dropped() {
    let frames = vec![message(StreamCppResponse {
        binding_id: Some("nothing".into()),
        done_edit: Some(true),
        ..Default::default()
    })];
    let stream = accumulate_stream_frames(frames).unwrap();
    assert!(stream.edits.is_empty());
}

#[test]
fn frames_behind_the_end_are_not_looked_at() {
    let frames = || {
        vec![
            message(StreamCppResponse {
                text: "kept".into(),
                done_stream: Some(true),
                model_info: Some(ModelInfo {
                    is_fused_cursor_prediction_model: false,
                    is_multidiff_model: true,
                }),
                ..Default::default()
            }),
        ]
    };
    let mut longer = frames();
    longer.push(ConnectFrame::EndStream(
        serde_json::from_str(r#"{"error":"late"}"#).unwrap(),
    ));
    let stream = accumulate_stream_frames(longer).unwrap();
    assert!(stream.is_multidiff_model);
    assert_eq!(stream, accumulate_stream_frames(frames()).unwrap());
}

#[test]
fn a_reported_error_ends_the_stream() {
    let trailer = serde_json::from_str(r#"{"error": [1, "two"], "metadata": {}}"#).unwrap();
    assert_eq!(
        accumulate_stream_frames(vec![ConnectFrame::EndStream(trailer)]),
        Err(StreamError {
            error: "[1,\"two\"]".into()
        })
    );
    let plain = serde_json::from_str(r#""error""#).unwrap();
    assert!(accumulate_stream_frames(vec![ConnectFrame::EndStream(plain)])
        .unwrap()
        .edits
        .is_empty());
}
