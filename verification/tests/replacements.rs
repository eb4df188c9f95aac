use cursor_tab::messages::{CursorPredictionTarget, RangeToReplace};
use cursor_tab::replacement::{
    contains_only_line_breaks_and_indentation, minimize_replacement, repeats_current_line,
    PreparedEdit, ReplacementError,
};
use cursor_tab::snapshot::{Point, PointUtf16, Snapshot};
use cursor_tab::stream::{CursorTabCompletion, CursorTabStream};
use cursor_tab::targets::{
    cursor_target_from_stream, cursor_target_offset, map_cursor_target,
    predicted_cursor_in_snapshot, PredictedCursor,
};

fn edit(start: PointUtf16, end: PointUtf16, text: &str) -> PreparedEdit {
    PreparedEdit {
        start,
        end,
        text: text.into(),
    }
}

#[test]
fn legacy_completion_replaces_from_suggestion_start_line_to_cursor() {
    let completion = CursorTabCompletion {
        text: "console.log(\"hello world\")".into(),
        range: None,
        suggestion_start_line: Some(3),
        cursor_prediction_target: None,
        ..Default::default()
    };

    let replacement = completion
        .replacement(PointUtf16::new(3, 11), "different prefix")
        .unwrap();

    assert_eq!(replacement.start, PointUtf16::new(3, 0));
    assert_eq!(replacement.end, PointUtf16::new(3, 11));
    assert_eq!(replacement.text, "console.log(\"hello world\")");
}

#[test]
fn explicit_completion_range_takes_precedence() {
    let completion = CursorTabCompletion {
        text: "replacement".into(),
        range: Some(RangeToReplace {
            start_line: 1,
            start_column: 2,
            end_line: 4,
            end_column: 5,
        }),
        suggestion_start_line: Some(3),
        cursor_prediction_target: None,
        ..Default::default()
    };

    let replacement = completion
        .replacement(PointUtf16::new(3, 11), "ignored")
        .unwrap();

    assert_eq!(replacement.start, PointUtf16::new(0, 0));
    assert_eq!(replacement.end, PointUtf16::new(3, u32::MAX));
    assert_eq!(replacement.text, "replacement");
}

#[test]
fn cursor_line_range_maps_one_based_inclusive_lines() {
    let completion = CursorTabCompletion {
        text: "replacement loop".into(),
        range: Some(RangeToReplace {
            start_line: 11,
            end_line: 14,
            start_column: 0,
            end_column: 0,
        }),
        suggestion_start_line: None,
        cursor_prediction_target: None,
        ..Default::default()
    };

    let replacement = completion.replacement(PointUtf16::new(13, 1), "}").unwrap();

    assert_eq!(replacement.start, PointUtf16::new(10, 0));
    assert_eq!(replacement.end, PointUtf16::new(13, u32::MAX));
    assert_eq!(replacement.text, "replacement loop");
}

#[test]
fn explicit_line_range_takes_precedence_over_whitespace_prefix() {
    let completion = CursorTabCompletion {
        text: "    D: Infinity,\n    finish: Infinity\n}".into(),
        range: Some(RangeToReplace {
            start_line: 16,
            end_line: 17,
            start_column: 0,
            end_column: 0,
        }),
        suggestion_start_line: None,
        cursor_prediction_target: None,
        ..Default::default()
    };

    let replacement = completion
        .replacement(PointUtf16::new(16, 2), "  ")
        .unwrap();

    assert_eq!(replacement.start, PointUtf16::new(15, 0));
    assert_eq!(replacement.end, PointUtf16::new(16, u32::MAX));
    assert_eq!(
        replacement.text,
        "    D: Infinity,\n    finish: Infinity\n}"
    );
}

#[test]
fn full_line_completion_without_range_inserts_only_unmatched_suffix() {
    let completion = CursorTabCompletion {
        text: "console.log(\"hello world\");".into(),
        range: None,
        suggestion_start_line: None,
        cursor_prediction_target: None,
        ..Default::default()
    };

    let cursor = PointUtf16::new(3, 10);
    let replacement = completion.replacement(cursor, "console.lo").unwrap();

    assert_eq!(replacement.start, cursor);
    assert_eq!(replacement.end, cursor);
    assert_eq!(replacement.text, "g(\"hello world\");");
}

#[test]
fn suffix_completion_without_range_is_inserted_at_cursor() {
    let completion = CursorTabCompletion {
        text: "g(\"hello world\");".into(),
        range: None,
        suggestion_start_line: None,
        cursor_prediction_target: None,
        ..Default::default()
    };

    let cursor = PointUtf16::new(3, 10);
    let replacement = completion.replacement(cursor, "console.lo").unwrap();

    assert_eq!(replacement.start, cursor);
    assert_eq!(replacement.end, cursor);
    assert_eq!(replacement.text, "g(\"hello world\");");
}

#[test]
fn explicit_replacement_of_typed_prefix_is_minimized_to_suffix_insertion() {
    let cursor = PointUtf16::new(3, 10);
    let minimized = minimize_replacement(
        edit(
            PointUtf16::new(3, 0),
            cursor,
            "console.log(\"hello world\");",
        ),
        cursor,
        "console.lo",
    );

    assert_eq!(minimized.start..minimized.end, cursor..cursor);
    assert_eq!(minimized.text, "g(\"hello world\");");
}

#[test]
fn exact_replacement_is_minimized_to_empty_insertion() {
    let cursor = PointUtf16::new(3, 10);
    let minimized = minimize_replacement(
        edit(PointUtf16::new(3, 0), cursor, "console.lo"),
        cursor,
        "console.lo",
    );

    assert_eq!(minimized.start..minimized.end, cursor..cursor);
    assert!(minimized.text.is_empty());
}

#[test]
fn replacement_past_cursor_is_not_minimized() {
    let cursor = PointUtf16::new(3, 10);
    let (start, end) = (PointUtf16::new(3, 0), PointUtf16::new(3, 12));
    let minimized = minimize_replacement(
        edit(start, end, "console.log(\"hello world\");"),
        cursor,
        "console.load",
    );

    assert_eq!(minimized.start..minimized.end, start..end);
    assert_eq!(minimized.text, "console.log(\"hello world\");");
}

#[test]
fn typed_prefix_takes_precedence_over_reversed_explicit_range() {
    let completion = CursorTabCompletion {
        text: "console.log(\"Hello World\");".into(),
        range: Some(RangeToReplace {
            start_line: 0,
            start_column: 8,
            end_line: 0,
            end_column: 0,
        }),
        suggestion_start_line: None,
        cursor_prediction_target: None,
        ..Default::default()
    };
    let cursor = PointUtf16::new(0, 8);

    let replacement = completion.replacement(cursor, "console.").unwrap();

    assert_eq!(replacement.start, cursor);
    assert_eq!(replacement.end, cursor);
    assert_eq!(replacement.text, "log(\"Hello World\");");
}

#[test]
fn reversed_explicit_range_for_multiline_continuation_inserts_at_cursor() {
    let completion = CursorTabCompletion {
        text: "\nget_data(\"https://example.com/posts\");".into(),
        range: Some(RangeToReplace {
            start_line: 6,
            start_column: 7,
            end_line: 0,
            end_column: 0,
        }),
        suggestion_start_line: None,
        cursor_prediction_target: None,
        ..Default::default()
    };
    let cursor = PointUtf16::new(6, 55);

    let replacement = completion
        .replacement(cursor, "get_data(\"https://example.com/posts\");")
        .unwrap();

    assert_eq!(replacement.start, cursor);
    assert_eq!(replacement.end, cursor);
    assert_eq!(
        replacement.text,
        "\nget_data(\"https://example.com/posts\");"
    );
}

#[test]
fn a_negative_start_line_is_refused() {
    let completion = CursorTabCompletion {
        text: "x".into(),
        suggestion_start_line: Some(-1),
        ..Default::default()
    };
    assert_eq!(
        completion.replacement(PointUtf16::new(0, 0), ""),
        Err(ReplacementError::NegativeCoordinate)
    );
    // A start line behind the cursor is not used.
    let completion = CursorTabCompletion {
        text: "x".into(),
        suggestion_start_line: Some(4),
        ..Default::default()
    };
    let cursor = PointUtf16::new(3, 1);
    assert_eq!(
        completion.replacement(cursor, ""),
        Ok(edit(cursor, cursor, "x"))
    );
}

#[test]
fn repeated_current_line_is_not_a_completion() {
    let current_line = "get_data(\"https://example.com/posts\");";

    assert!(repeats_current_line(
        &format!("\n{current_line}\n{current_line}\n{current_line}"),
        current_line,
    ));
    assert!(!repeats_current_line(
        &format!("\n{current_line}\nconsole.log(\"done\");"),
        current_line,
    ));
}

#[test]
fn line_breaks_and_indentation_are_not_a_completion() {
    assert!(contains_only_line_breaks_and_indentation("\n\n    \n\t"));
    assert!(contains_only_line_breaks_and_indentation("\r\n  \r\n"));
    assert!(!contains_only_line_breaks_and_indentation("    "));
    assert!(!contains_only_line_breaks_and_indentation("\nvalue"));
}

#[test]
fn suppresses_reversed_range_completion_that_echoes_document_at_end() {
    let contents = "function getRandomNumber(min, max) {\n    return max;\n}\n\nconsole.log(getRandomNumber(1, 10));";
    let mut completion = CursorTabCompletion {
        text: contents.into(),
        range: Some(RangeToReplace {
            start_line: 1,
            start_column: 5,
            end_line: 0,
            end_column: 0,
        }),
        suggestion_start_line: None,
        cursor_prediction_target: None,
        ..Default::default()
    };

    completion.normalize_document_echo(contents, true);

    assert!(completion.text.is_empty());
}

#[test]
fn suppresses_reversed_range_completion_that_echoes_document_twice_at_end() {
    let contents = "function getRandomNumber(min, max) {\n    return max;\n}\n\nconsole.log(getRandomNumber(1, 10));";
    let mut completion = CursorTabCompletion {
        text: format!("{contents}\n\n{contents}"),
        range: Some(RangeToReplace {
            start_line: 1,
            start_column: 5,
            end_line: 0,
            end_column: 0,
        }),
        suggestion_start_line: None,
        cursor_prediction_target: None,
        ..Default::default()
    };

    completion.normalize_document_echo(contents, true);

    assert!(completion.text.is_empty());
}

#[test]
fn strips_echoed_document_suffix_without_replacing_existing_text() {
    let current_line = "get_data(\"https://example.com/posts\");";
    let contents =
        format!("async function get_data() {{\n    return response;\n}}\n\n{current_line}");
    let mut completion = CursorTabCompletion {
        text: format!("}}\n\n{current_line}\n{current_line}\n{current_line}"),
        range: Some(RangeToReplace {
            start_line: 5,
            start_column: 8,
            end_line: 0,
            end_column: 0,
        }),
        suggestion_start_line: None,
        cursor_prediction_target: None,
        ..Default::default()
    };

    completion.normalize_document_echo(&contents, true);

    assert_eq!(completion.text, format!("\n{current_line}\n{current_line}"));
    assert!(repeats_current_line(&completion.text, current_line));
}

#[test]
fn an_echo_is_kept_away_from_the_end_of_the_document() {
    let mut completion = CursorTabCompletion {
        text: "one\ntwo".into(),
        range: Some(RangeToReplace {
            start_line: 1,
            ..Default::default()
        }),
        ..Default::default()
    };
    completion.normalize_document_echo("one\n", false);
    assert_eq!(completion.text, "one\ntwo");
    completion.normalize_document_echo("one\n", true);
    assert_eq!(completion.text, "two");
}

#[test]
fn maps_cursor_target_to_offset_inside_replacement() {
    let replacement =
        "     musicVideo: {},\n   }, \n  {\n    artists: [\"\"],\n    address: \"\",";
    let target = CursorPredictionTarget {
        relative_path: "src/app/common/locations.ts".into(),
        line_number_one_indexed: 30,
        expected_content: "artists: [\"\"],\naddress: \"\",".into(),
        should_retrigger_cpp: true,
    };

    assert_eq!(
        cursor_target_offset(26, replacement, "src/app/common/locations.ts", &target,),
        Some(replacement.len())
    );
    assert_eq!(
        cursor_target_offset(26, replacement, "other.ts", &target),
        None
    );
}

#[test]
fn maps_cursor_target_inside_replacement_even_when_line_number_does_not_align() {
    let replacement =
        "     musicVideo: {},\n   }, \n  {\n    artists: [\"\"],\n    address: \"\",";
    let target = CursorPredictionTarget {
        relative_path: "src/app/common/locations.ts".into(),
        line_number_one_indexed: 18,
        expected_content: "artists: [\"\"],\naddress: \"\",".into(),
        should_retrigger_cpp: false,
    };

    assert_eq!(
        cursor_target_offset(27, replacement, "src/app/common/locations.ts", &target),
        Some(replacement.len())
    );
}

#[test]
fn ignores_cursor_target_when_expected_content_does_not_match() {
    let replacement = "    artists: [\"The National\"],\n    address: \"Brooklyn\",";
    let target = CursorPredictionTarget {
        relative_path: "src/app/common/locations.ts".into(),
        line_number_one_indexed: 30,
        expected_content: "artists: [\"\"],\naddress: \"\",".into(),
        should_retrigger_cpp: true,
    };

    assert_eq!(
        cursor_target_offset(29, replacement, "src/app/common/locations.ts", &target),
        None
    );
}

fn target(line: i32, content: &str) -> CursorPredictionTarget {
    CursorPredictionTarget {
        relative_path: "a.rs".into(),
        line_number_one_indexed: line,
        expected_content: content.into(),
        should_retrigger_cpp: true,
    }
}

#[test]
fn the_named_row_comes_before_the_first_one() {
    let replacement = "x\ny\nx\n";
    assert_eq!(
        cursor_target_offset(10, replacement, "a.rs", &target(13, "x")),
        Some(5)
    );
    assert_eq!(
        cursor_target_offset(10, replacement, "a.rs", &target(12, "x")),
        Some(1)
    );
    assert_eq!(
        cursor_target_offset(10, replacement, "a.rs", &target(i32::MIN, "x")),
        Some(1)
    );
    assert_eq!(
        cursor_target_offset(10, replacement, "a.rs", &target(13, "")),
        None
    );
}

#[test]
fn a_target_is_found_nearest_to_its_line() {
    let mut contents = String::new();
    for row in 0..200 {
        contents.push_str(if row % 10 == 0 { "  mark();\r\n" } else { "other\r\n" });
    }
    let snapshot = Snapshot::new(&contents).unwrap();
    let find = |line: i32, edits: &Vec<PreparedEdit>| {
        predicted_cursor_in_snapshot(&snapshot, "a.rs", &target(line, "mark();"), edits)
    };
    let none = Vec::new();
    assert_eq!(find(103, &none), Some(Point::new(100, 9)));
    // Of two rows that are equally near, the upper one.
    assert_eq!(find(106, &none), Some(Point::new(100, 9)));
    let covering = vec![edit(
        PointUtf16::new(99, 0),
        PointUtf16::new(100, 1),
        "x",
    )];
    assert_eq!(find(103, &covering), Some(Point::new(110, 9)));
    // An edit that ends in front of a row leaves the row alone.
    let above = vec![edit(
        PointUtf16::new(99, 0),
        PointUtf16::new(100, 0),
        "x",
    )];
    assert_eq!(find(103, &above), Some(Point::new(100, 9)));
    assert_eq!(find(0, &none), None);
    assert_eq!(find(1_000, &none), None);
    assert_eq!(
        predicted_cursor_in_snapshot(&snapshot, "b.rs", &target(103, "mark();"), &none),
        None
    );
}

#[test]
fn targets_are_searched_within_reach() {
    let mut contents = "other\n".repeat(100);
    contents.push_str("mark");
    let snapshot = Snapshot::new(&contents).unwrap();
    let none = Vec::new();
    let find =
        |line: i32| predicted_cursor_in_snapshot(&snapshot, "a.rs", &target(line, "mark"), &none);
    assert_eq!(find(69), Some(Point::new(100, 4)));
    assert_eq!(find(68), None);
    assert_eq!(find(133), Some(Point::new(100, 4)));
    assert_eq!(find(134), None);
}

#[test]
fn a_target_is_mapped_into_an_edit_first() {
    let snapshot = Snapshot::new("mark\nother\n").unwrap();
    let edits = vec![edit(
        PointUtf16::new(1, 0),
        PointUtf16::new(1, 5),
        "new\n  mark",
    )];
    assert_eq!(
        map_cursor_target(&snapshot, &edits, "a.rs", &target(3, "mark")),
        Some(PredictedCursor::InEdit {
            start: PointUtf16::new(1, 0),
            offset: 10
        })
    );
    assert_eq!(
        map_cursor_target(&snapshot, &Vec::new(), "a.rs", &target(3, "mark")),
        Some(PredictedCursor::InSnapshot(Point::new(0, 4)))
    );
}

#[test]
fn the_target_of_a_stream_comes_before_those_of_its_edits() {
    let with_target = |line: i32| CursorTabCompletion {
        cursor_prediction_target: Some(target(line, "x")),
        ..Default::default()
    };
    let mut stream = CursorTabStream {
        edits: vec![
            with_target(1),
            with_target(2),
            CursorTabCompletion::default(),
        ],
        ..Default::default()
    };
    let line = |stream: &CursorTabStream| {
        cursor_target_from_stream(stream).map(|target| target.line_number_one_indexed)
    };
    assert_eq!(line(&stream), Some(2));
    stream.cursor_prediction_target = Some(target(3, "x"));
    assert_eq!(line(&stream), Some(3));
    assert_eq!(line(&CursorTabStream::default()), None);
}
