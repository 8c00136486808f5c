use std::collections::HashSet;

use sabun::alignment::paired_line_indices;
use sabun::cli::parse_from;
use sabun::diff::{DiffFile, DiffHunk, LineKind};
use sabun::inline::inline_ranges;
use sabun::rows::{
    DiffDisplayRow, DiffRowIndex, pack_diff_row_index, unpack_diff_row_index, ContextExpandDirection, ContextExpansion, ContextGap,
    ContextGapPosition, ContextGapSource, DiffLayout, NO_DIFF_ROW_INDEX,
};
use sabun::selection::{HeaderTextSelection, TextLane, TextPoint, TextSelection};
use sabun::stream::{build_diff_rows, collapse_file_rows, row_offsets};
use sabun::theme::ThemeMode;

fn hunk(kinds: &[LineKind]) -> DiffHunk {
    DiffHunk::from_lines(
        "@@ -1 +1 @@",
        1,
        1,
        kinds
            .iter()
            .enumerate()
            .map(|(i, kind)| (None, None, *kind, format!("line {i}")))
            .collect(),
    )
}

#[test]
fn paired_lines_point_back_at_each_other() {
    let (a, c, d) = (LineKind::Addition, LineKind::Context, LineKind::Deletion);
    let h = hunk(&[d, d, a, c, a, d, a, a]);
    let pairs = paired_line_indices(&h);
    for (i, pair) in pairs.iter().enumerate() {
        if let Some(j) = pair {
            assert_eq!(pairs[*j], Some(i));
        }
    }
    assert_eq!(pairs[0], Some(2));
    assert_eq!(pairs[1], None);
    assert_eq!(pairs[5], Some(4));
    assert_eq!(pairs[7], None);
}

#[test]
fn selections_mean_the_same_whichever_way_they_were_dragged() {
    let a = TextPoint {
        display_index: 1,
        lane: TextLane::New,
        offset: 4,
    };
    let b = TextPoint {
        display_index: 3,
        lane: TextLane::New,
        offset: 1,
    };
    let forward = TextSelection {
        anchor: a,
        head: b,
        dragging: true,
    };
    let backward = TextSelection {
        anchor: b,
        head: a,
        dragging: false,
    };
    for row in 0..5 {
        assert_eq!(
            forward.range_for(row, TextLane::New, 6),
            backward.range_for(row, TextLane::New, 6)
        );
    }
    let header = HeaderTextSelection {
        file_index: 0,
        sticky_header: true,
        anchor: 7,
        head: 2,
        dragging: false,
    };
    assert_eq!(
        header.range(9),
        HeaderTextSelection {
            anchor: 2,
            head: 7,
            ..header
        }
        .range(9)
    );
}

#[test]
fn collapsing_keeps_offsets_the_running_heights() {
    let file = DiffFile {
        old_path: "a/x".into(),
        new_path: "b/x".into(),
        hunks: vec![hunk(&[LineKind::Context, LineKind::Addition])],
        is_new: false,
        is_deleted: false,
    };
    let files = [file.clone(), file.clone(), file];
    let (mut rows, mut starts, _) = build_diff_rows(&files, DiffLayout::Split, &HashSet::new(), &[]);
    let mut offsets = row_offsets(&rows);
    let mut layouts = vec![(); rows.len()];
    collapse_file_rows(&mut rows, &mut layouts, &mut offsets, &mut starts, 1).unwrap();
    assert_eq!(offsets, row_offsets(&rows));
    assert_eq!(layouts.len(), rows.len());
}

#[test]
fn inline_ranges_fall_on_character_boundaries() {
    let old = "naïve café — déjà vu";
    let new = "naive cafe - deja vu";
    let (a, b) = inline_ranges(old, new);
    for r in &a {
        assert!(old.is_char_boundary(r.start) && old.is_char_boundary(r.end));
    }
    for r in &b {
        assert!(new.is_char_boundary(r.start) && new.is_char_boundary(r.end));
    }
}

#[test]
fn the_theme_switch_undoes_itself() {
    for mode in [ThemeMode::Dark, ThemeMode::Light] {
        assert_ne!(mode.toggled(), mode);
        assert_eq!(mode.toggled().toggled(), mode);
    }
}

#[test]
fn repo_selector_means_the_same_before_or_after_the_command() {
    for command in [
        vec!["show", "HEAD~2", "--", "src"],
        vec!["stash", "show"],
        vec!["diff", "--staged"],
        vec!["bogus"],
    ] {
        let mut before = vec!["--repo", "../r"];
        before.extend(command.iter());
        let mut after = vec![command[0], "--repo", "../r"];
        after.extend(command[1..].iter());
        assert_eq!(parse_from(&before), parse_from(&after));
    }
}

#[test]
fn packed_row_indices_unpack_to_themselves() {
    for index in [0usize, 1, 77, 4_294_967_294] {
        assert_eq!(unpack_diff_row_index(pack_diff_row_index(index)), Some(index));
    }
    assert_eq!(unpack_diff_row_index(NO_DIFF_ROW_INDEX), None);
}

#[test]
fn enough_expansion_steps_reveal_the_whole_gap() {
    let gap = ContextGap {
        file_index: 0,
        hunk_index: 0,
        start: 5,
        end: 75,
        position: ContextGapPosition::Middle,
        source: ContextGapSource::Hunk,
    };
    let mut expansion = ContextExpansion::default();
    assert!(expansion.reveal_step(gap, ContextExpandDirection::Up));
    assert_eq!((expansion.from_start, expansion.from_end), (0, 30));
    assert!(expansion.reveal_step(gap, ContextExpandDirection::Down));
    assert_eq!((expansion.from_start, expansion.from_end), (30, 30));
    assert!(expansion.reveal_step(gap, ContextExpandDirection::Up));
    assert_eq!((expansion.from_start, expansion.from_end), (30, 40));
    assert!(!expansion.reveal_step(gap, ContextExpandDirection::Down));
    assert_eq!((expansion.from_start, expansion.from_end), (30, 40));
}

fn unnumbered(rows: &DiffRowIndex) -> Vec<String> {
    rows.iter()
        .into_iter()
        .map(|row| match row {
            DiffDisplayRow::Separator {
                file_index,
                hidden,
                position,
                ..
            } => format!("{:?}", DiffDisplayRow::Separator {
                file_index,
                hidden,
                gap_index: 0,
                position,
            }),
            other => format!("{other:?}"),
        })
        .collect()
}

#[test]
fn collapsing_a_file_gives_the_rows_of_a_build_with_it_folded() {
    let mut kinds = vec![LineKind::Context; 10];
    kinds.push(LineKind::Addition);
    kinds.extend(vec![LineKind::Context; 10]);
    let file = DiffFile {
        old_path: "a/x".into(),
        new_path: "b/x".into(),
        hunks: vec![hunk(&kinds)],
        is_new: false,
        is_deleted: false,
    };
    let files = [file.clone(), file.clone(), file];
    for index in 0..files.len() {
        let (mut rows, mut starts, _) =
            build_diff_rows(&files, DiffLayout::Unified, &HashSet::new(), &[]);
        let mut offsets = row_offsets(&rows);
        let mut layouts = vec![(); rows.len()];
        assert!(collapse_file_rows(&mut rows, &mut layouts, &mut offsets, &mut starts, index).is_some());
        let (folded, folded_starts, _) =
            build_diff_rows(&files, DiffLayout::Unified, &HashSet::from([index]), &[]);
        assert_eq!(unnumbered(&rows), unnumbered(&folded));
        assert_eq!(starts, folded_starts);
    }
}
