use std::collections::HashSet;

use sabun::alignment::paired_line;
use sabun::diff::{DiffFile, DiffHunk, DiffSet, LineKind};
use sabun::file_kind::FileChangeKind;
use sabun::inline::inline_ranges;
use sabun::layout::{build_diff_row_data, diff_row_layouts};
use sabun::rows::{
    unpack_diff_row_index, ContextExpandDirection, ContextExpansion, ContextGap,
    ContextGapPosition, ContextGapSource, DiffDisplayRow, DiffLayout, DIFF_ROW_HEIGHT,
    NO_DIFF_ROW_INDEX,
};
use sabun::selection::{
    selection_padding_edges, HeaderTextSelection, TextLane, TextPoint, TextSelection,
};
use sabun::stream::{build_diff_rows, build_file_diff_rows, collapse_file_rows, row_offsets};

fn lines_of(items: &[(Option<u32>, Option<u32>, LineKind, &str)]) -> Vec<(Option<u32>, Option<u32>, LineKind, String)> {
    items
        .iter()
        .map(|(old, new, kind, text)| (*old, *new, *kind, text.to_string()))
        .collect()
}

fn file_diff_rows_for_test(
    file: &DiffFile,
    layout: DiffLayout,
    expansions: &[(ContextGap, ContextExpansion)],
) -> (Vec<DiffDisplayRow>, Vec<ContextGap>) {
    let mut context_gaps = Vec::new();
    let rows = build_file_diff_rows(file, 0, layout, expansions, &mut context_gaps);
    (rows.iter(), context_gaps)
}

#[test]
fn text_selection_ranges_span_lines_in_both_drag_directions() {
    let forward = TextSelection {
        anchor: TextPoint {
            display_index: 2,
            lane: TextLane::Unified,
            offset: 3,
        },
        head: TextPoint {
            display_index: 4,
            lane: TextLane::Unified,
            offset: 2,
        },
        dragging: false,
    };
    assert_eq!(forward.range_for(2, TextLane::Unified, 8), Some(3..8));
    assert_eq!(forward.range_for(3, TextLane::Unified, 6), Some(0..6));
    assert_eq!(forward.range_for(4, TextLane::Unified, 7), Some(0..2));
    assert_eq!(forward.range_for(3, TextLane::Old, 6), None);
    assert_eq!(forward.range_for(3, TextLane::Unified, 0), Some(0..0));

    let reverse = TextSelection {
        anchor: forward.head,
        head: forward.anchor,
        dragging: false,
    };
    assert_eq!(reverse.range_for(2, TextLane::Unified, 8), Some(3..8));
    assert_eq!(reverse.range_for(4, TextLane::Unified, 7), Some(0..2));
}

#[test]
fn header_text_selection_range_handles_both_drag_directions() {
    let forward = HeaderTextSelection {
        file_index: 2,
        sticky_header: false,
        anchor: 3,
        head: 9,
        dragging: false,
    };
    assert_eq!(forward.range(12), Some(3..9));
    assert_eq!(
        HeaderTextSelection {
            anchor: 9,
            head: 3,
            ..forward
        }
        .range(12),
        Some(3..9)
    );
    assert_eq!(
        HeaderTextSelection {
            anchor: 3,
            head: 3,
            ..forward
        }
        .range(12),
        None
    );
    assert_eq!(forward.range(5), Some(3..5));
    assert_eq!(forward.range(2), None);
}

#[test]
fn multiline_text_selection_bridges_only_across_selected_line_edges() {
    assert_eq!(selection_padding_edges(&(0..8), 8), (true, true));
    assert_eq!(selection_padding_edges(&(3..8), 8), (false, true));
    assert_eq!(selection_padding_edges(&(0..5), 8), (true, false));
    assert_eq!(selection_padding_edges(&(2..5), 8), (false, false));
}

#[test]
fn flattened_diff_rows_keep_exact_virtual_height() {
    let lines = (1..=3)
        .map(|number| {
            (
                Some(number),
                Some(number),
                LineKind::Context,
                format!("line {number}"),
            )
        })
        .collect();
    let file = DiffFile {
        old_path: "a/src/main.rs".into(),
        new_path: "b/src/main.rs".into(),
        hunks: vec![DiffHunk::from_lines("@@ -1,3 +1,3 @@", 1, 1, lines)],
        is_new: false,
        is_deleted: false,
    };

    let mut gaps = Vec::new();
    let rows = build_file_diff_rows(&file, 0, DiffLayout::Split, &[], &mut gaps);
    let offsets = row_offsets(&rows);
    assert_eq!(rows.len(), 3);
    assert_eq!(offsets.len(), 4);
    assert_eq!(offsets[3], DIFF_ROW_HEIGHT * 3);
}

fn main_rs() -> DiffFile {
    DiffFile {
        old_path: "a/src/main.rs".into(),
        new_path: "b/src/main.rs".into(),
        hunks: vec![DiffHunk::from_lines(
            "@@ -1 +1 @@",
            1,
            1,
            lines_of(&[(Some(1), Some(1), LineKind::Context, "fn main() {}")]),
        )],
        is_new: false,
        is_deleted: false,
    }
}

#[test]
fn all_files_share_one_virtualized_row_stream() {
    let file = main_rs();

    let (rows, file_starts, _) = build_diff_rows(
        &[file.clone(), file],
        DiffLayout::Unified,
        &HashSet::new(),
        &[],
    );
    assert_eq!(file_starts, vec![0, 3]);
    assert!(matches!(
        rows.get(file_starts[0]).unwrap(),
        DiffDisplayRow::FileHeader { file_index: 0 }
    ));
    assert!(matches!(rows.get(2), Some(DiffDisplayRow::FileGap)));
    assert!(matches!(
        rows.get(file_starts[1]).unwrap(),
        DiffDisplayRow::FileHeader { file_index: 1 }
    ));
    assert!(rows
        .iter()
        .into_iter()
        .skip(file_starts[1])
        .filter_map(|row| row.file_index())
        .all(|index| index == 1));
}

#[test]
fn collapsed_diff_file_keeps_its_header_and_hides_its_body() {
    let file = main_rs();

    let (rows, file_starts, _) = build_diff_rows(
        &[file.clone(), file],
        DiffLayout::Unified,
        &HashSet::from([0]),
        &[],
    );
    assert_eq!(file_starts, vec![0, 1]);
    assert!(matches!(
        rows.get(0).unwrap(),
        DiffDisplayRow::FileHeader { file_index: 0 }
    ));
    assert!(rows
        .iter()
        .into_iter()
        .take(file_starts[1])
        .filter_map(|row| row.file_index())
        .all(|index| index == 0));
    assert!(matches!(
        rows.get(file_starts[1]).unwrap(),
        DiffDisplayRow::FileHeader { file_index: 1 }
    ));
}

#[test]
fn collapsing_diff_file_removes_only_its_body_without_rebuilding_other_rows() {
    let file = main_rs();
    let files = [file.clone(), file];
    let (mut rows, mut file_starts, _) =
        build_diff_rows(&files, DiffLayout::Unified, &HashSet::new(), &[]);
    let mut offsets = row_offsets(&rows);
    let mut layouts = diff_row_layouts(&rows, &files);
    let second_header = rows.get(file_starts[1]).unwrap();

    let removed =
        collapse_file_rows(&mut rows, &mut layouts, &mut offsets, &mut file_starts, 0).unwrap();

    assert_eq!(removed, 1..3);
    assert_eq!(file_starts, vec![0, 1]);
    assert_eq!(rows.len() + 1, offsets.len());
    assert!(matches!(
        rows.get(0).unwrap(),
        DiffDisplayRow::FileHeader { file_index: 0 }
    ));
    assert!(matches!(
        (rows.get(1).unwrap(), second_header),
        (
            DiffDisplayRow::FileHeader { file_index: 1 },
            DiffDisplayRow::FileHeader { file_index: 1 }
        )
    ));
}

#[test]
fn unchanged_context_is_collapsed_and_can_be_expanded() {
    let line = |kind, content: &str| (None, None, kind, content.to_owned());
    let mut lines = (0..3)
        .map(|index| line(LineKind::Context, &format!("leading {index}")))
        .collect::<Vec<_>>();
    lines.push(line(LineKind::Deletion, "old first"));
    lines.push(line(LineKind::Addition, "new first"));
    lines.extend((0..70).map(|index| line(LineKind::Context, &format!("unchanged {index}"))));
    lines.push(line(LineKind::Deletion, "old second"));
    lines.push(line(LineKind::Addition, "new second"));
    lines.extend((0..3).map(|index| line(LineKind::Context, &format!("trailing {index}"))));
    let file = DiffFile {
        old_path: "a/file.rs".into(),
        new_path: "b/file.rs".into(),
        hunks: vec![DiffHunk::from_lines("@@ -1,78 +1,78 @@", 1, 1, lines)],
        is_new: false,
        is_deleted: false,
    };

    let (collapsed, context_gaps) = file_diff_rows_for_test(&file, DiffLayout::Unified, &[]);
    let gap = collapsed
        .iter()
        .find_map(|row| match row {
            DiffDisplayRow::Separator {
                hidden: 64,
                gap_index,
                ..
            } => unpack_diff_row_index(*gap_index)
                .and_then(|index| context_gaps.get(index))
                .copied(),
            _ => None,
        })
        .unwrap();
    assert_eq!(collapsed.len(), 17);
    assert_eq!(
        collapsed
            .iter()
            .find(|row| matches!(row, DiffDisplayRow::Separator { .. }))
            .unwrap()
            .height(),
        DIFF_ROW_HEIGHT * 2
    );

    let mut expansion = ContextExpansion::default();
    assert!(expansion.reveal_step(gap, ContextExpandDirection::Down));
    assert_eq!(expansion.from_start, 30);
    let (partially_expanded, _) =
        file_diff_rows_for_test(&file, DiffLayout::Unified, &[(gap, expansion)]);
    assert_eq!(partially_expanded.len(), 47);
    assert!(partially_expanded
        .iter()
        .any(|row| matches!(row, DiffDisplayRow::Separator { hidden: 34, .. })));

    let (expanded, _) = file_diff_rows_for_test(
        &file,
        DiffLayout::Unified,
        &[(
            gap,
            ContextExpansion {
                from_start: gap.end - gap.start,
                from_end: 0,
            },
        )],
    );
    assert_eq!(expanded.len(), 80);
    assert!(!expanded
        .iter()
        .any(|row| matches!(row, DiffDisplayRow::Separator { .. })));
}

#[test]
fn unchanged_context_at_file_edges_can_be_expanded() {
    let line = |kind, content: &str| (None, None, kind, content.to_owned());
    let mut lines = (0..10)
        .map(|index| line(LineKind::Context, &format!("leading {index}")))
        .collect::<Vec<_>>();
    lines.push(line(LineKind::Deletion, "old"));
    lines.push(line(LineKind::Addition, "new"));
    lines.extend((0..10).map(|index| line(LineKind::Context, &format!("trailing {index}"))));
    let file = DiffFile {
        old_path: "a/file.rs".into(),
        new_path: "b/file.rs".into(),
        hunks: vec![DiffHunk::from_lines("@@ -1,21 +1,21 @@", 1, 1, lines)],
        is_new: false,
        is_deleted: false,
    };

    let (collapsed, context_gaps) = file_diff_rows_for_test(&file, DiffLayout::Unified, &[]);
    let gaps = collapsed
        .iter()
        .filter_map(|row| match row {
            DiffDisplayRow::Separator {
                hidden: 7,
                gap_index,
                ..
            } => unpack_diff_row_index(*gap_index)
                .and_then(|index| context_gaps.get(index))
                .copied(),
            _ => None,
        })
        .collect::<Vec<_>>();
    assert_eq!(gaps.len(), 2);
    assert_eq!(collapsed.len(), 10);
    assert!(matches!(collapsed[0], DiffDisplayRow::Separator { .. }));
    assert_eq!(collapsed[0].height(), DIFF_ROW_HEIGHT);
    assert!(matches!(
        collapsed.last(),
        Some(DiffDisplayRow::Separator { .. })
    ));

    let expansions = gaps
        .into_iter()
        .map(|gap| {
            (
                gap,
                ContextExpansion {
                    from_start: gap.end - gap.start,
                    from_end: 0,
                },
            )
        })
        .collect::<Vec<_>>();
    let (expanded, _) = file_diff_rows_for_test(&file, DiffLayout::Unified, &expansions);
    assert_eq!(expanded.len(), 22);
    assert!(!expanded
        .iter()
        .any(|row| matches!(row, DiffDisplayRow::Separator { .. })));
}

#[test]
fn git_context_gaps_expand_from_source_without_eager_rows() {
    let mut source = String::new();
    for number in 1..=100 {
        source.push_str(&format!("line {number}\n"));
    }
    let file = DiffFile {
        old_path: "a/file.rs".into(),
        new_path: "b/file.rs".into(),
        hunks: vec![
            DiffHunk::from_lines(
                "@@ -4,3 +4,3 @@",
                4,
                4,
                lines_of(&[
                    (Some(4), Some(4), LineKind::Context, "line 4"),
                    (Some(5), None, LineKind::Deletion, "line 5"),
                    (None, Some(5), LineKind::Addition, "changed 5"),
                    (Some(6), Some(6), LineKind::Context, "line 6"),
                ]),
            ),
            DiffHunk::from_lines(
                "@@ -95,3 +95,3 @@",
                95,
                95,
                lines_of(&[
                    (Some(95), Some(95), LineKind::Context, "line 95"),
                    (Some(96), None, LineKind::Deletion, "line 96"),
                    (None, Some(96), LineKind::Addition, "changed 96"),
                    (Some(97), Some(97), LineKind::Context, "line 97"),
                ]),
            ),
        ],
        is_new: false,
        is_deleted: false,
    };
    let mut diff = DiffSet::with_contexts(vec![file], vec![Some(source)]);
    let collapsed = build_diff_row_data(&diff, DiffLayout::Unified, &HashSet::new(), &[]);
    let middle_gap = collapsed
        .context_gaps
        .iter()
        .find(|gap| gap.position == ContextGapPosition::Middle)
        .copied()
        .unwrap();
    assert_eq!(middle_gap.end - middle_gap.start, 88);
    assert!(matches!(middle_gap.source, ContextGapSource::File { .. }));

    let ContextGapSource::File {
        old_start,
        new_start,
    } = middle_gap.source
    else {
        unreachable!();
    };
    assert!(diff.insert_context(0, 0, false, old_start, new_start, 30));
    let expanded = build_diff_row_data(&diff, DiffLayout::Unified, &HashSet::new(), &[]);
    let remaining = expanded
        .context_gaps
        .iter()
        .find(|gap| gap.position == ContextGapPosition::Middle)
        .unwrap();
    assert_eq!(remaining.end - remaining.start, 58);
    let hunk = &diff.files[0].hunks[0];
    let last = hunk.lines.last().unwrap();
    assert_eq!((last.old_number, last.new_number), (Some(36), Some(36)));
    assert_eq!(hunk.line_content(last), "line 36");
    assert_eq!(expanded.rows.len(), collapsed.rows.len() + 30);
}

#[test]
fn file_status_icons_cover_git_change_kinds() {
    let file = |old_path: &str, new_path: &str, is_new, is_deleted| DiffFile {
        old_path: old_path.into(),
        new_path: new_path.into(),
        hunks: Vec::new(),
        is_new,
        is_deleted,
    };

    assert_eq!(
        FileChangeKind::for_file(&file("a/main.rs", "b/main.rs", false, false)),
        FileChangeKind::Modified
    );
    assert_eq!(
        FileChangeKind::for_file(&file("/dev/null", "b/new.rs", true, false)),
        FileChangeKind::Added
    );
    assert_eq!(
        FileChangeKind::for_file(&file("a/old.rs", "/dev/null", false, true)),
        FileChangeKind::Deleted
    );
    assert_eq!(
        FileChangeKind::for_file(&file("a/old.rs", "b/new.rs", false, false)),
        FileChangeKind::Renamed
    );
    assert_eq!(FileChangeKind::Modified.label(), "M");
    assert_eq!(FileChangeKind::Added.label(), "A");
    assert_eq!(FileChangeKind::Deleted.label(), "D");
    assert_eq!(FileChangeKind::Renamed.label(), "R");
}

#[test]
fn inline_highlights_stay_on_utf8_boundaries() {
    let (old, new) = inline_ranges("let message = \"古い値\";", "let message = \"新しい値\";");
    let old_changed = old
        .into_iter()
        .map(|range| &"let message = \"古い値\";"[range])
        .collect::<String>();
    let new_changed = new
        .into_iter()
        .map(|range| &"let message = \"新しい値\";"[range])
        .collect::<String>();
    assert_eq!(old_changed, "古");
    assert_eq!(new_changed, "新し");
}

#[test]
fn inline_highlights_ignore_unrelated_replacement_lines() {
    let (old, new) = inline_ranges(
        "**Inline:** `::alert{type=\"warning\" icon=\"i-lucide-alert\"}`",
        "import { defineHandler, readBody, getQuery } from \"nitro/h3\";",
    );

    assert!(old.is_empty());
    assert!(new.is_empty());
}

#[test]
fn inline_highlights_group_changed_expressions() {
    let old = r#"<div v-for="(categoryExamples, category) in groupedExamples" :key="category">"#;
    let new = r#"<div v-for="group in groups" :key="group.category">"#;
    let (old_ranges, new_ranges) = inline_ranges(old, new);
    let old_changes = old_ranges
        .into_iter()
        .map(|range| &old[range])
        .collect::<Vec<_>>();
    let new_changes = new_ranges
        .into_iter()
        .map(|range| &new[range])
        .collect::<Vec<_>>();

    assert_eq!(
        old_changes,
        vec![
            "(categoryExamples, category) in groupedExamples",
            "category"
        ]
    );
    assert_eq!(new_changes, vec!["group in groups", "group.category"]);
}

#[test]
fn inline_highlights_refine_single_identifier_changes() {
    let old = "  <UPageBody>";
    let new = "  <PageBody>";
    let (old_ranges, new_ranges) = inline_ranges(old, new);

    assert_eq!(
        old_ranges
            .into_iter()
            .map(|range| &old[range])
            .collect::<Vec<_>>(),
        vec!["U"]
    );
    assert!(new_ranges.is_empty());
}

#[test]
fn unified_inline_diff_pairs_changed_lines_by_position() {
    let line = |kind, content: &str| (None, None, kind, content.to_owned());
    let hunk = DiffHunk::from_lines(
        "@@ -1,2 +1,3 @@",
        1,
        1,
        vec![
            line(LineKind::Deletion, "old zero"),
            line(LineKind::Deletion, "old one"),
            line(LineKind::Addition, "new zero"),
            line(LineKind::Addition, "new one"),
            line(LineKind::Addition, "new unpaired"),
        ],
    );

    assert_eq!(
        paired_line(&hunk, 0).map(|line| hunk.line_content(line)),
        Some("new zero")
    );
    assert_eq!(
        paired_line(&hunk, 1).map(|line| hunk.line_content(line)),
        Some("new one")
    );
    assert_eq!(
        paired_line(&hunk, 2).map(|line| hunk.line_content(line)),
        Some("old zero")
    );
    assert_eq!(
        paired_line(&hunk, 3).map(|line| hunk.line_content(line)),
        Some("old one")
    );
    assert!(paired_line(&hunk, 4).is_none());
}

#[test]
fn unified_row_index_resolves_paired_lines_from_compact_chunks() {
    let hunk = DiffHunk::from_lines(
        "@@ -1,2 +1,3 @@",
        1,
        1,
        lines_of(&[
            (Some(1), None, LineKind::Deletion, "old zero"),
            (Some(2), None, LineKind::Deletion, "old one"),
            (None, Some(1), LineKind::Addition, "new zero"),
            (None, Some(2), LineKind::Addition, "new one"),
            (None, Some(3), LineKind::Addition, "new unpaired"),
        ]),
    );
    let file = DiffFile {
        old_path: "a/src/main.rs".into(),
        new_path: "b/src/main.rs".into(),
        hunks: vec![hunk],
        is_new: false,
        is_deleted: false,
    };
    let mut gaps = Vec::new();
    let rows = build_file_diff_rows(&file, 0, DiffLayout::Unified, &[], &mut gaps);
    let resolved = rows
        .iter()
        .into_iter()
        .map(|row| match row {
            DiffDisplayRow::Unified {
                row_index,
                counterpart_index,
                ..
            } => (row_index, unpack_diff_row_index(counterpart_index)),
            _ => panic!("expected unified row"),
        })
        .collect::<Vec<_>>();

    assert_eq!(
        resolved,
        vec![
            (0, Some(2)),
            (1, Some(3)),
            (2, Some(0)),
            (3, Some(1)),
            (4, None)
        ]
    );
    assert_eq!(rows.chunk_count(), 3);
}

fn generated_file() -> DiffFile {
    let lines = (1..=1000)
        .map(|number| {
            (
                None,
                Some(number),
                LineKind::Addition,
                format!("line {number}"),
            )
        })
        .collect();
    DiffFile {
        old_path: "/dev/null".into(),
        new_path: "b/generated.txt".into(),
        hunks: vec![DiffHunk::from_lines("@@ -0,0 +1,1000 @@", 0, 1, lines)],
        is_new: true,
        is_deleted: false,
    }
}

#[test]
fn large_unified_change_uses_one_row_chunk() {
    let file = generated_file();
    let mut gaps = Vec::new();
    let rows = build_file_diff_rows(&file, 0, DiffLayout::Unified, &[], &mut gaps);

    assert_eq!(rows.len(), 1000);
    assert_eq!(rows.chunk_count(), 1);
    assert!(matches!(
        rows.get(999),
        Some(DiffDisplayRow::Unified { row_index: 999, .. })
    ));
}

#[test]
fn large_split_change_uses_one_row_chunk() {
    let file = generated_file();
    let mut gaps = Vec::new();
    let rows = build_file_diff_rows(&file, 0, DiffLayout::Split, &[], &mut gaps);

    assert_eq!(rows.len(), 1000);
    assert_eq!(rows.chunk_count(), 1);
    assert!(matches!(
        rows.get(999),
        Some(DiffDisplayRow::Split {
            old_line_index: NO_DIFF_ROW_INDEX,
            new_line_index: 999,
            ..
        })
    ));
}
