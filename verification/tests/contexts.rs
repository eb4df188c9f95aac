use cursor_tab::context::{
    current_language, current_path, cursor_relative_history_path, file_version, linter_errors,
    position, request_context, DiagnosticEntry, DiagnosticSeverity, HistoryEvent, LspPosition,
    OpenFile, RecentFile, RelatedEntry, RelatedExcerpt, RelatedFile, RelatedLocation,
};
use cursor_tab::request::{LineRange, Position, Single};
use cursor_tab::snapshot::{Bias, Point, PointUtf16, Snapshot};
use cursor_tab::text::{is_white_space, split_lines, trim};

#[test]
fn sends_every_diagnostic_with_related_information() {
    let text = "fn main() {\n    unknown();\n}\n";
    let snapshot = Snapshot::new(text).unwrap();
    let at = |row, column| snapshot.clip_point_utf16(PointUtf16::new(row, column), Bias::Left);
    let error = DiagnosticEntry {
        start: at(1, 4),
        end: at(1, 11),
        message: "cannot find function `unknown`".into(),
        severity: DiagnosticSeverity::Error,
        source: Some("rust-analyzer".into()),
        is_disk_based: true,
        related_information: vec![
            RelatedEntry {
                message: "not found in this scope".into(),
                location: RelatedLocation::InBuffer {
                    start: at(0, 3),
                    end: at(0, 7),
                },
            },
            RelatedEntry {
                message: "defined here".into(),
                location: RelatedLocation::InAnotherFile {
                    start: LspPosition {
                        line: 4,
                        character: 1,
                    },
                    end: LspPosition {
                        line: 4,
                        character: 8,
                    },
                },
            },
        ],
    };
    let warning = DiagnosticEntry {
        start: at(0, 3),
        end: at(0, 7),
        message: "unused function".into(),
        severity: DiagnosticSeverity::Warning,
        source: Some("rustc".into()),
        is_disk_based: false,
        related_information: Vec::new(),
    };
    let hint = DiagnosticEntry {
        start: at(2, 0),
        end: at(2, 1),
        message: "consider adding a return type".into(),
        severity: DiagnosticSeverity::Hint,
        source: None,
        is_disk_based: false,
        related_information: Vec::new(),
    };

    // The editor hands diagnostics out in the order of the document.
    let errors = linter_errors(&vec![warning, error, hint]);
    assert_eq!(errors.len(), 3);
    assert_eq!(errors[0].message, "unused function");
    assert_eq!(errors[0].severity, Some(2));
    assert!(errors[0].related_information.is_empty());
    assert_eq!(errors[1].message, "cannot find function `unknown`");
    assert_eq!(errors[1].severity, Some(1));
    assert_eq!(errors[1].is_stale, Some(true));
    assert_eq!(
        errors[1]
            .range
            .and_then(|range| range.start_position)
            .map(|position| (position.line, position.column)),
        Some((1, 4))
    );
    assert_eq!(errors[1].related_information.len(), 2);
    assert_eq!(
        errors[1].related_information[0].message,
        "not found in this scope"
    );
    assert_eq!(
        errors[1].related_information[0]
            .range
            .and_then(|range| range.end_position)
            .map(|position| (position.line, position.column)),
        Some((0, 7))
    );
    assert_eq!(errors[1].related_information[1].message, "defined here");
    assert_eq!(
        errors[1].related_information[1]
            .range
            .and_then(|range| range.start_position)
            .map(|position| (position.line, position.column)),
        Some((4, 1))
    );
    assert_eq!(errors[2].message, "consider adding a return type");
    assert_eq!(errors[2].severity, Some(4));
}

#[test]
fn severities_have_the_numbers_of_the_service() {
    for (severity, number) in [
        (DiagnosticSeverity::Error, 1),
        (DiagnosticSeverity::Warning, 2),
        (DiagnosticSeverity::Information, 3),
        (DiagnosticSeverity::Hint, 4),
        (DiagnosticSeverity::Other, 0),
    ] {
        let entry = DiagnosticEntry {
            start: PointUtf16::new(0, 0),
            end: PointUtf16::new(0, 0),
            message: String::new(),
            severity,
            source: None,
            is_disk_based: false,
            related_information: Vec::new(),
        };
        assert_eq!(linter_errors(&vec![entry])[0].severity, Some(number));
    }
}

#[test]
fn positions_saturate() {
    assert_eq!(
        position(PointUtf16::new(u32::MAX, 0x8000_0000)),
        Position {
            line: i32::MAX,
            column: i32::MAX
        }
    );
    assert_eq!(
        position(PointUtf16::new(0x7fff_ffff, 3)),
        Position {
            line: i32::MAX,
            column: 3
        }
    );
    assert_eq!(file_version(Some(7)), Some(7));
    assert_eq!(file_version(Some(0x8000_0000)), None);
    assert_eq!(file_version(None), None);
}

#[test]
fn a_file_without_a_path_has_a_name() {
    assert_eq!(current_path(Some("a.rs".into())), "a.rs");
    assert_eq!(current_path(Some(String::new())), "Untitled-1");
    assert_eq!(current_path(None), "Untitled-1");
    assert_eq!(current_language(Some("rust".into())), "rust");
    assert_eq!(current_language(None), "plaintext");
}

#[test]
fn current_file_history_path_matches_current_file() {
    assert_eq!(
        cursor_relative_history_path(
            "cantopop-map/src/app/common/locations.ts",
            Some("cantopop-map/src/app/common/locations.ts"),
            "src/app/common/locations.ts",
        ),
        "src/app/common/locations.ts"
    );
    assert_eq!(
        cursor_relative_history_path(
            "src/app/common/locations.ts",
            Some("cantopop-map/src/app/common/locations.ts"),
            "src/app/common/locations.ts",
        ),
        "src/app/common/locations.ts"
    );
    assert_eq!(
        cursor_relative_history_path(
            "cantopop-map/src/other.ts",
            Some("cantopop-map/src/app/common/locations.ts"),
            "src/app/common/locations.ts",
        ),
        "src/other.ts"
    );
    assert_eq!(
        cursor_relative_history_path("external/lib.rs", None, "src/main.rs"),
        "external/lib.rs"
    );
}

#[test]
fn the_root_itself_is_not_a_relative_path() {
    assert_eq!(
        cursor_relative_history_path("root/", Some("root/a.rs"), "a.rs"),
        "root/"
    );
    assert_eq!(
        cursor_relative_history_path("root/b.rs", Some("a.rs"), "a.rs"),
        "root/b.rs"
    );
}

fn event(path: &str, diff: &str) -> HistoryEvent {
    HistoryEvent {
        path: path.into(),
        diff: diff.into(),
    }
}

fn excerpt(start_row: u32, end_row: u32, text: &str, score: f32) -> RelatedExcerpt {
    RelatedExcerpt {
        start_row,
        end_row,
        text: text.into(),
        score: Single {
            bits: score.to_bits(),
        },
    }
}

#[test]
fn changes_are_grouped_by_file() {
    let events = vec![
        event("root/z.rs", "1"),
        event("root/a.rs", "2"),
        event("elsewhere", "3"),
        event("z.rs", "4"),
        event("root/é.rs", "5"),
    ];
    let context = request_context(
        &events,
        Some("root/a.rs"),
        "a.rs",
        &Vec::new(),
        &Vec::new(),
        &Vec::new(),
    );
    let summary: Vec<_> = context
        .file_diff_histories
        .iter()
        .map(|history| (history.file_name.as_str(), history.diff_history.clone()))
        .collect();
    let texts = |diffs: &[&str]| diffs.iter().map(|diff| diff.to_string()).collect::<Vec<_>>();
    assert_eq!(
        summary,
        vec![
            ("a.rs", texts(&["2"])),
            ("elsewhere", texts(&["3"])),
            ("z.rs", texts(&["1", "4"])),
            ("é.rs", texts(&["5"])),
        ]
    );
    assert!(context
        .file_diff_histories
        .iter()
        .all(|history| history.diff_history_timestamps.is_empty()));
}

#[test]
fn related_and_open_files_are_shown() {
    let long = (0..500)
        .map(|row| format!("line {row}"))
        .collect::<Vec<_>>()
        .join("\n");
    let open = |path: Option<&str>, is_active: bool, contents: &str| OpenFile {
        path: path.map(str::to_owned),
        is_active,
        snapshot: Snapshot::new(contents).unwrap(),
    };
    let related = |path: &str, is_active: bool, excerpts: Vec<RelatedExcerpt>| RelatedFile {
        path: path.into(),
        is_active,
        snapshot: Snapshot::new("ab\ncd 復").unwrap(),
        excerpts,
    };
    let recent = |path: &str, cursor_offset: Option<usize>| RecentFile {
        path: path.into(),
        cursor_offset,
    };
    let cursor = long.find("line 250").unwrap();
    let context = request_context(
        &Vec::new(),
        None,
        "a.rs",
        &vec![
            related("active.rs", true, vec![excerpt(0, 0, "no", 1.0)]),
            related(
                "r.rs",
                false,
                vec![excerpt(0, 1, "both", 1.0), excerpt(1, 9, "last", 0.5)],
            ),
            related("empty.rs", false, Vec::new()),
        ],
        &vec![
            open(Some("a.rs"), true, &long),
            open(None, false, &long),
            open(Some("r.rs"), false, &long),
            open(Some("forgotten.rs"), false, &long),
            open(Some("empty.rs"), false, &long),
            open(Some("short.rs"), false, "x\ny"),
        ],
        &vec![
            recent("a.rs", Some(0)),
            recent("r.rs", Some(0)),
            recent("forgotten.rs", None),
            recent("empty.rs", Some(3)),
            recent("empty.rs", Some(cursor)),
            recent("short.rs", Some(usize::MAX)),
        ],
    );
    let paths: Vec<_> = context
        .additional_files
        .iter()
        .map(|file| file.relative_workspace_path.as_str())
        .collect();
    assert_eq!(paths, vec!["r.rs", "empty.rs", "short.rs"]);

    let first = &context.additional_files[0];
    assert!(first.is_open);
    assert_eq!(first.visible_range_content, vec!["both", "last"]);
    assert_eq!(first.start_line_number_one_indexed, vec![1, 2]);
    assert_eq!(
        first.visible_ranges,
        vec![
            LineRange {
                start_line_number: 0,
                end_line_number_inclusive: 1
            },
            LineRange {
                start_line_number: 1,
                end_line_number_inclusive: 1
            },
        ]
    );

    let second = &context.additional_files[1];
    assert_eq!(second.start_line_number_one_indexed, vec![151]);
    assert_eq!(
        second.visible_ranges,
        vec![LineRange {
            start_line_number: 150,
            end_line_number_inclusive: 350
        }]
    );
    let content = &second.visible_range_content[0];
    assert!(content.starts_with("line 150\n") && content.ends_with("\nline 350"));
    assert_eq!(content.lines().count(), 201);
    assert_eq!(
        context.additional_files[2].visible_range_content,
        vec!["x\ny"]
    );

    assert_eq!(context.code_results.len(), 2);
    let result = &context.code_results[1];
    assert_eq!(result.score.bits, 0.5f32.to_bits());
    let block = result.code_block.as_ref().unwrap();
    assert_eq!(block.relative_workspace_path, "r.rs");
    assert_eq!(block.contents, "last");
    let range = block.range.unwrap();
    assert_eq!(range.start_position, Some(Position { line: 1, column: 0 }));
    assert_eq!(range.end_position, Some(Position { line: 1, column: 6 }));
}

#[test]
fn positions_are_clipped_to_the_document() {
    let snapshot = Snapshot::new("a🎵b\n\nend").unwrap();
    let clip = |row, column, bias| snapshot.clip_point_utf16(PointUtf16::new(row, column), bias);
    assert_eq!(clip(0, 2, Bias::Left), PointUtf16::new(0, 1));
    assert_eq!(clip(0, 2, Bias::Right), PointUtf16::new(0, 3));
    assert_eq!(clip(0, 3, Bias::Left), PointUtf16::new(0, 3));
    assert_eq!(clip(0, u32::MAX, Bias::Right), PointUtf16::new(0, 4));
    assert_eq!(clip(1, 7, Bias::Left), PointUtf16::new(1, 0));
    assert_eq!(clip(9, 0, Bias::Left), PointUtf16::new(2, 3));
    assert_eq!(snapshot.max_point(), PointUtf16::new(2, 3));
    assert_eq!(snapshot.max_row(), 2);
    assert_eq!(snapshot.line_len(0), 6);
    assert_eq!(snapshot.text(), "a🎵b\n\nend");
    assert_eq!(
        snapshot.text_for_range(PointUtf16::new(0, 3), PointUtf16::new(2, 1)),
        "b\n\ne"
    );
    assert_eq!(
        snapshot.text_for_range(PointUtf16::new(0, 1), PointUtf16::new(0, 3)),
        "🎵"
    );
    assert_eq!(snapshot.text_of_rows(1, 2), "\nend");
    assert_eq!(
        snapshot.point_to_point_utf16(Point::new(0, 5)),
        PointUtf16::new(0, 3)
    );
}

#[test]
fn offsets_and_positions_belong_together() {
    let contents = "a🎵b\n\n復古 end";
    let snapshot = Snapshot::new(contents).unwrap();
    for (offset, _) in contents.char_indices().chain([(contents.len(), ' ')]) {
        let point = snapshot.offset_to_point_utf16(offset);
        assert_eq!(snapshot.point_utf16_to_offset(point), offset);
        assert_eq!(
            snapshot.offset_to_row(offset) as usize,
            contents[..offset].matches('\n').count()
        );
    }
    // Inside a character the position in front of it counts.
    assert_eq!(snapshot.offset_to_point_utf16(3), PointUtf16::new(0, 1));
    assert_eq!(
        snapshot.offset_to_point_utf16(usize::MAX),
        snapshot.max_point()
    );
}

#[test]
fn white_space_is_that_of_unicode() {
    for c in '\0'..=char::MAX {
        assert_eq!(is_white_space(c), c.is_whitespace(), "{c:?}");
    }
}

#[test]
fn lines_and_trimming_are_those_of_strings() {
    for text in [
        "",
        "\n",
        "a",
        "a\n",
        "a\r\nb\rc\r\n",
        "\r",
        "\n\n",
        "  a \t\n b\u{3000}\r\n",
        " \r\n ",
    ] {
        let chars: Vec<char> = text.chars().collect();
        let lines: Vec<String> = split_lines(&chars)
            .into_iter()
            .map(|line| line.into_iter().collect())
            .collect();
        assert_eq!(lines, text.lines().collect::<Vec<_>>(), "{text:?}");
        assert_eq!(trim(&chars).iter().collect::<String>(), text.trim());
    }
}
