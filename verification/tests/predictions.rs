use cursor_tab::completion::{
    anchors_from_prepared_edits, completion_from_stream, AnchoredEdit,
};
use cursor_tab::messages::{CursorPredictionTarget, RangeToReplace};
use cursor_tab::multidiff::{
    apply_multidiff_stream, cursor_local_multidiff_edits, multidiff_edits, MultidiffError,
    TextEdit,
};
use cursor_tab::replacement::{
    prepared_edits_from_stream, PreparedEdit, ReplacementError,
};
use cursor_tab::snapshot::{Bias, Point, PointUtf16, Snapshot};
use cursor_tab::stream::{CursorTabCompletion, CursorTabStream};
use cursor_tab::targets::PredictedCursor;

/// The edits between two texts, line by line.
fn line_diff(old: &str, new: &str) -> Vec<TextEdit> {
    let old_lines: Vec<&str> = old.split_inclusive('\n').collect();
    let new_lines: Vec<&str> = new.split_inclusive('\n').collect();
    let (rows, columns) = (old_lines.len(), new_lines.len());
    let mut common = vec![vec![0usize; columns + 1]; rows + 1];
    for i in (0..rows).rev() {
        for j in (0..columns).rev() {
            common[i][j] = if old_lines[i] == new_lines[j] {
                common[i + 1][j + 1] + 1
            } else {
                common[i + 1][j].max(common[i][j + 1])
            };
        }
    }
    let mut edits: Vec<TextEdit> = Vec::new();
    let (mut i, mut j, mut offset) = (0, 0, 0);
    let mut open: Option<TextEdit> = None;
    while i < rows || j < columns {
        if i < rows && j < columns && old_lines[i] == new_lines[j] {
            edits.extend(open.take());
            offset += old_lines[i].len();
            i += 1;
            j += 1;
            continue;
        }
        let edit = open.get_or_insert_with(|| TextEdit {
            start: offset,
            end: offset,
            text: String::new(),
        });
        if j < columns && (i == rows || common[i][j + 1] >= common[i + 1][j]) {
            edit.text.push_str(new_lines[j]);
            j += 1;
        } else {
            offset += old_lines[i].len();
            edit.end = offset;
            i += 1;
        }
    }
    edits.extend(open);
    edits
}

fn replay(document: &str, edits: &[TextEdit]) -> String {
    let mut replayed = document.to_owned();
    for edit in edits.iter().rev() {
        replayed.replace_range(edit.start..edit.end, &edit.text);
    }
    replayed
}

fn apply(document: &str, edits: &[AnchoredEdit]) -> String {
    let mut edited = document.to_owned();
    for edit in edits.iter().rev() {
        edited.replace_range(edit.start..edit.end, &edit.text);
    }
    edited
}

fn rewrite(start_line: i32, end_line: i32, text: &str) -> CursorTabCompletion {
    CursorTabCompletion {
        range: Some(RangeToReplace {
            start_line,
            end_line,
            ..Default::default()
        }),
        text: text.into(),
        ..Default::default()
    }
}

fn multidiff(edits: Vec<CursorTabCompletion>) -> CursorTabStream {
    CursorTabStream {
        is_multidiff_model: true,
        edits,
        ..Default::default()
    }
}

fn target(line: i32, content: &str, retrigger: bool) -> CursorPredictionTarget {
    CursorPredictionTarget {
        relative_path: "src/main.rs".into(),
        line_number_one_indexed: line,
        expected_content: content.into(),
        should_retrigger_cpp: retrigger,
    }
}

#[test]
fn accepting_bracket_does_not_accept_later_rewrites_or_deletion() {
    let prefix = "// unchanged\n".repeat(15);
    let fields = "  artists: [\"\"],\n".to_owned() + &"    field: {},\n".repeat(9);
    let suffix = "  {\n".to_owned() + &"    contributor: [\"復古 🎵\"],\n".repeat(20);
    let original = format!("{prefix}{fields}  }},\n{suffix}");
    let mut stream = CursorTabStream {
        is_multidiff_model: true,
        edits: [
            (26, 26, "  }, ]"),
            (16, 16, "  [artists: [\"\"],"),
            (27, 27, "  [{"),
            (28, 47, ""),
        ]
        .into_iter()
        .map(|(start_line, end_line, text)| rewrite(start_line, end_line, text))
        .collect(),
        cursor_prediction_target: Some(CursorPredictionTarget {
            relative_path: "main.js".into(),
            line_number_one_indexed: 27,
            should_retrigger_cpp: false,
            ..Default::default()
        }),
    };
    let snapshot = Snapshot::new(&original).unwrap();
    let prepared = prepared_edits_from_stream(
        &mut stream,
        &snapshot,
        PointUtf16::new(25, 4),
        "  },",
        &original,
        false,
        &line_diff,
    )
    .unwrap();
    let edits = anchors_from_prepared_edits(&snapshot, &prepared, &line_diff);
    let edit = edits.first().expect("missing bracket insertion");
    assert_eq!(edits.len(), 1);
    assert_eq!(edit.start, edit.end);
    assert_eq!(edit.text, " ]");
    assert_eq!(
        apply(&original, &edits),
        format!("{prefix}{fields}  }}, ]\n{suffix}")
    );
    assert!(stream.cursor_prediction_target.is_none());
}

#[test]
fn cursor_local_change_maps_back_after_earlier_line_insertion() {
    let original = "header\nneighbor\ntarget\nartists: [\"Zpecial\"],\ncontributors: { song: {} }";
    let cursor = "header\nneighbor\ntarget".len();
    let stream = multidiff(vec![
        rewrite(1, 1, "header\nmore"),
        rewrite(4, 4, "target},"),
    ]);
    let edits = cursor_local_multidiff_edits(&stream, original, cursor, &line_diff).unwrap();
    assert_eq!(
        edits,
        vec![TextEdit {
            start: cursor,
            end: cursor,
            text: "},".into()
        }]
    );
    assert_eq!(
        replay(original, &edits),
        "header\nneighbor\ntarget},\nartists: [\"Zpecial\"],\ncontributors: { song: {} }"
    );
}

#[test]
fn cursor_local_change_can_remove_text_at_cursor() {
    let original = "header\nvalue: [],,\nkeep: [\"復古 🎵\"],";
    let cursor = "header\nvalue: [],,".len();
    let stream = multidiff(vec![rewrite(2, 2, "value: [],")]);
    assert_eq!(
        cursor_local_multidiff_edits(&stream, original, cursor, &line_diff).unwrap(),
        vec![TextEdit {
            start: cursor - 1,
            end: cursor,
            text: String::new()
        }]
    );
}

#[test]
fn multidiff_incremental_edit_in_large_unicode_file() {
    let prefix = "unchanged 🎵\n".repeat(50_000);
    let suffix = "\nunchanged 復古".repeat(50_000);
    let original = format!("{prefix}artists: [\"Z\"],{suffix}");
    let updated = format!("{prefix}artists: [\"Zpecial\"],{suffix}");
    let edits = multidiff_edits(&original, &updated, &line_diff);
    let offset = prefix.len() + "artists: [\"Z".len();
    assert_eq!(
        edits,
        vec![TextEdit {
            start: offset,
            end: offset,
            text: "pecial".into()
        }]
    );
}

#[test]
fn multidiff_preserves_explicit_whitespace_and_line_boundaries() {
    for (original, start_line, end_line, text, expected) in [
        ("one\ntwo", 2, 2, "", "one"),
        ("one\ntwo", 1, 1, "", "two"),
        ("one\ntwo", 1, 2, "", ""),
        ("one\ntwo", 2, 1, "inserted", "one\ninserted\ntwo"),
        ("one\ntwo", 3, 2, "inserted", "one\ntwo\ninserted"),
        ("one\ntwo", 2, 2, "  \n    ", "one\n  \n    "),
    ] {
        let stream = multidiff(vec![rewrite(start_line, end_line, text)]);
        assert_eq!(apply_multidiff_stream(&stream, original).unwrap(), expected);
    }
}

#[test]
fn multidiff_rejects_out_of_bounds_ranges() {
    let stream = multidiff(vec![rewrite(20, 20, "replacement")]);
    assert!(apply_multidiff_stream(&stream, "one\ntwo").is_err());
}

#[test]
fn multidiff_names_what_is_wrong_with_an_edit() {
    let outcome = |edit: CursorTabCompletion| {
        apply_multidiff_stream(&multidiff(vec![edit]), "one\ntwo").unwrap_err()
    };
    assert_eq!(
        outcome(CursorTabCompletion::default()),
        MultidiffError::MissingRange
    );
    let reversed = RangeToReplace {
        start_line: 3,
        end_line: 1,
        ..Default::default()
    };
    assert_eq!(
        outcome(rewrite(3, 1, "")),
        MultidiffError::InvalidLineRange(reversed)
    );
    assert_eq!(
        outcome(rewrite(0, 0, "")),
        MultidiffError::InvalidLineRange(RangeToReplace::default())
    );
    assert_eq!(
        outcome(rewrite(3, 3, "x")),
        MultidiffError::StartsBeyondDocument
    );
    assert_eq!(
        outcome(rewrite(1, 3, "x")),
        MultidiffError::EndsBeyondDocument
    );
}

#[test]
fn multidiff_streams_apply_in_turn() {
    let document = "a\nb\nc";
    let whole = apply_multidiff_stream(
        &multidiff(vec![rewrite(2, 1, "x"), rewrite(3, 4, "y\nz")]),
        document,
    )
    .unwrap();
    let between =
        apply_multidiff_stream(&multidiff(vec![rewrite(2, 1, "x")]), document).unwrap();
    assert_eq!(between, "a\nx\nb\nc");
    let after =
        apply_multidiff_stream(&multidiff(vec![rewrite(3, 4, "y\nz")]), &between).unwrap();
    assert_eq!(after, "a\nx\ny\nz");
    assert_eq!(whole, after);
}

#[test]
fn multidiff_edits_replay_to_the_updated_text() {
    let old = "one\ntwo 復\nthree\nfour\n";
    let new = "zero\none\nthree 古\nfour\n";
    assert_eq!(replay(old, &multidiff_edits(old, new, &line_diff)), new);
}

#[test]
fn a_change_inside_inserted_text_is_not_offered() {
    let stream = multidiff(vec![rewrite(1, 1, "first line"), rewrite(1, 1, "first lines")]);
    let edits = cursor_local_multidiff_edits(&stream, "first\nlast", 10, &line_diff).unwrap();
    assert_eq!(
        edits,
        vec![TextEdit {
            start: 5,
            end: 5,
            text: " line".into()
        }]
    );
}

#[test]
fn bracket_repairs_in_large_files_preserve_unchanged_objects() {
    let prefix = "// preceding line\n".repeat(5_000);
    let suffix = "\n  { name: \"another object\" },".repeat(5_000);
    let fields = "    artists: [\"Zpecial\"],\n    name: \"復古 🎵\",\n    contributors: { song: {}, musicVideo: {} },";
    let neighbor = "  {\n    artists: [\"Zpecial\"],\n    name: \"復古 🎵\",\n  },";
    let original_window = format!("{fields}\n{neighbor}");
    let replacement = format!("  {{\n{fields}\n  }},\n{neighbor}");
    let original = format!("{prefix}{original_window}{suffix}");
    let snapshot = Snapshot::new(&original).unwrap();
    let start = snapshot.offset_to_point_utf16(prefix.len());
    let end = snapshot.offset_to_point_utf16(prefix.len() + original_window.len());
    let prepared = vec![PreparedEdit {
        start,
        end,
        text: replacement.clone(),
    }];
    let edits = anchors_from_prepared_edits(&snapshot, &prepared, &line_diff);

    assert_eq!(edits.len(), 2);
    assert!(edits.iter().all(|edit| edit.start == edit.end));
    assert!(edits.iter().all(|edit| edit.start_bias == Bias::Right));
    assert!(edits
        .iter()
        .all(|edit| !edit.text.contains("artists") && !edit.text.contains("name")));
    assert_eq!(
        apply(&original, &edits),
        format!("{prefix}{replacement}{suffix}")
    );
}

#[test]
fn server_deletion_does_not_copy_unchanged_neighbor() {
    let removed = "image: \"placeholder\",\ncontributors: {\n  song: {},\n  musicVideo: {},\n}, \n";
    let neighbor = "  {\n    artists: [\"Zpecial\"],\n    address: \"Hong Kong\",\n    coordinates: [22.313329, 114.168362],\n    name: \"復古\",";
    let original = format!("{removed}{neighbor}");
    let snapshot = Snapshot::new(&original).unwrap();
    let prepared = vec![PreparedEdit {
        start: PointUtf16::new(0, 0),
        end: snapshot.max_point(),
        text: neighbor.into(),
    }];
    let edits = anchors_from_prepared_edits(&snapshot, &prepared, &line_diff);

    assert_eq!(edits.len(), 1);
    let edit = edits.first().expect("missing deletion");
    assert_eq!(edit.start..edit.end, 0..removed.len());
    assert_eq!(edit.start_bias, Bias::Left);
    assert!(edit.text.is_empty());
    assert_eq!(apply(&original, &edits), neighbor);
}

#[test]
fn unchanged_rewrite_window_has_no_edits() {
    let original = "  { name: \"復古 🎵\" },";
    let snapshot = Snapshot::new(original).unwrap();
    let prepared = vec![PreparedEdit {
        start: PointUtf16::new(0, 0),
        end: snapshot.max_point(),
        text: original.into(),
    }];
    assert!(anchors_from_prepared_edits(&snapshot, &prepared, &line_diff).is_empty());
}

#[test]
fn prepared_edits_stand_in_the_order_of_the_document() {
    let contents = "one\ntwo\nthree";
    let snapshot = Snapshot::new(contents).unwrap();
    let mut stream = CursorTabStream {
        edits: vec![
            rewrite(3, 3, "THREE"),
            rewrite(1, 1, "ONE"),
            rewrite(1, 1, "first"),
        ],
        ..Default::default()
    };
    let prepared = prepared_edits_from_stream(
        &mut stream,
        &snapshot,
        PointUtf16::new(1, 3),
        "two",
        contents,
        false,
        &line_diff,
    )
    .unwrap();
    let summary: Vec<_> = prepared
        .iter()
        .map(|edit| (edit.start.row, edit.end, edit.text.as_str()))
        .collect();
    assert_eq!(
        summary,
        vec![
            (0, PointUtf16::new(0, 3), "ONE"),
            (0, PointUtf16::new(0, 3), "first"),
            (2, PointUtf16::new(2, 5), "THREE"),
        ]
    );
}

#[test]
fn edits_that_change_nothing_are_not_prepared() {
    let contents = "value\n";
    let snapshot = Snapshot::new(contents).unwrap();
    for text in ["value", "\n    ", "value\nvalue"] {
        let mut stream = CursorTabStream {
            edits: vec![CursorTabCompletion {
                text: text.into(),
                ..Default::default()
            }],
            ..Default::default()
        };
        let prepared = prepared_edits_from_stream(
            &mut stream,
            &snapshot,
            PointUtf16::new(0, 5),
            "value",
            contents,
            false,
            &line_diff,
        )
        .unwrap();
        assert!(prepared.is_empty(), "{text:?} gave {prepared:?}");
    }
}

#[test]
fn negative_coordinates_are_refused() {
    let snapshot = Snapshot::new("one").unwrap();
    let mut stream = CursorTabStream {
        edits: vec![CursorTabCompletion {
            text: "x".into(),
            range: Some(RangeToReplace {
                start_line: 0,
                end_line: 0,
                start_column: -1,
                end_column: 0,
            }),
            ..Default::default()
        }],
        ..Default::default()
    };
    assert_eq!(
        prepared_edits_from_stream(
            &mut stream,
            &snapshot,
            PointUtf16::new(0, 0),
            "",
            "one",
            false,
            &line_diff,
        ),
        Err(ReplacementError::NegativeCoordinate)
    );
    let mut stream = multidiff(vec![rewrite(9, 9, "x")]);
    assert_eq!(
        prepared_edits_from_stream(
            &mut stream,
            &snapshot,
            PointUtf16::new(0, 0),
            "",
            "one",
            false,
            &line_diff,
        ),
        Err(ReplacementError::Multidiff(
            MultidiffError::StartsBeyondDocument
        ))
    );
}

#[test]
fn a_completion_goes_to_the_target_in_its_edit() {
    let snapshot = Snapshot::new("fn main() {\n}\n").unwrap();
    let stream = CursorTabStream {
        edits: vec![rewrite(1, 2, "fn main() {\n    run();\n}")],
        cursor_prediction_target: Some(target(2, "run();", false)),
        ..Default::default()
    };
    let planned = completion_from_stream(
        stream,
        &snapshot,
        PointUtf16::new(0, 11),
        "src/main.rs",
        &line_diff,
    )
    .unwrap()
    .unwrap();
    assert_eq!(
        planned.cursor_position,
        Some(PredictedCursor::InEdit {
            start: PointUtf16::new(0, 0),
            offset: "fn main() {\n    run();".len()
        })
    );
    assert!(!planned.should_retrigger);
    assert_eq!(
        apply("fn main() {\n}\n", &planned.edits),
        "fn main() {\n    run();\n}\n"
    );
}

#[test]
fn a_completion_without_edits_only_moves_the_cursor() {
    let contents = "one\ntwo\nthree\n";
    let snapshot = Snapshot::new(contents).unwrap();
    let stream = || CursorTabStream {
        edits: vec![rewrite(1, 1, "one")],
        cursor_prediction_target: Some(target(2, "three", true)),
        ..Default::default()
    };
    let planned = completion_from_stream(
        stream(),
        &snapshot,
        PointUtf16::new(0, 3),
        "src/main.rs",
        &line_diff,
    )
    .unwrap()
    .unwrap();
    assert!(planned.edits.is_empty());
    assert!(planned.should_retrigger);
    assert_eq!(
        planned.cursor_position,
        Some(PredictedCursor::InSnapshot(Point::new(2, 5)))
    );
    // The cursor is there already.
    assert_eq!(
        completion_from_stream(
            stream(),
            &snapshot,
            PointUtf16::new(2, 5),
            "src/main.rs",
            &line_diff,
        )
        .unwrap(),
        None
    );
    // Another file.
    assert_eq!(
        completion_from_stream(
            stream(),
            &snapshot,
            PointUtf16::new(0, 3),
            "src/other.rs",
            &line_diff,
        )
        .unwrap(),
        None
    );
}
