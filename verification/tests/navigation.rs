use std::collections::HashSet;

use sabun::diff::{DiffFile, DiffHunk, DiffSet, LineKind};
use sabun::navigation::{
    context_request, expand_context, expand_file_ancestors, next_file_index,
    previous_file_index, reindex_after_removal, remap_collapsed_files, reselect_file,
    sticky_file_index, toggle_collapsed_file, toggle_directory, ContextRequest,
};
use sabun::rows::{
    ContextExpandDirection, ContextExpansion, ContextGap, ContextGapPosition, ContextGapSource,
    DiffLayout,
};
use sabun::stream::{build_diff_rows, row_offsets};

fn file(path: &str) -> DiffFile {
    DiffFile {
        old_path: format!("a/{path}"),
        new_path: format!("b/{path}"),
        hunks: vec![DiffHunk::from_lines(
            "@@ -1 +1 @@",
            1,
            1,
            vec![(Some(1), Some(1), LineKind::Context, "same".to_string())],
        )],
        is_new: false,
        is_deleted: false,
    }
}

fn gap(position: ContextGapPosition, source: ContextGapSource) -> ContextGap {
    ContextGap {
        file_index: 0,
        hunk_index: 0,
        start: 10,
        end: 60,
        position,
        source,
    }
}

#[test]
fn file_gaps_ask_for_old_lines_next_to_the_right_hunk() {
    let source = ContextGapSource::File {
        old_start: 7,
        new_start: 9,
    };
    assert_eq!(
        context_request(gap(ContextGapPosition::Middle, source), ContextExpandDirection::Up),
        Some(ContextRequest {
            hunk_index: 1,
            at_start: true,
            old_start: 37,
            new_start: 39,
            count: 30
        })
    );
    assert_eq!(
        context_request(gap(ContextGapPosition::Trailing, source), ContextExpandDirection::Down),
        Some(ContextRequest {
            hunk_index: 0,
            at_start: false,
            old_start: 7,
            new_start: 9,
            count: 30
        })
    );
    assert_eq!(
        context_request(gap(ContextGapPosition::Leading, source), ContextExpandDirection::Down),
        None
    );
    assert_eq!(
        context_request(
            gap(ContextGapPosition::Middle, ContextGapSource::Hunk),
            ContextExpandDirection::Up
        ),
        None
    );
}

#[test]
fn hunk_gaps_grow_their_recorded_expansion() {
    let mut diff = DiffSet::with_contexts(vec![file("x.rs")], vec![None]);
    let before = diff.files.clone();
    let mut expansions = Vec::new();
    let g = gap(ContextGapPosition::Middle, ContextGapSource::Hunk);
    assert!(expand_context(&mut diff, &mut expansions, g, ContextExpandDirection::Down));
    assert_eq!(
        expansions,
        vec![(
            g,
            ContextExpansion {
                from_start: 30,
                from_end: 0
            }
        )]
    );
    assert!(expand_context(&mut diff, &mut expansions, g, ContextExpandDirection::Up));
    assert_eq!(expansions[0].1.from_end, 20);
    assert!(!expand_context(&mut diff, &mut expansions, g, ContextExpandDirection::Up));
    assert_eq!(diff.files, before);
}

#[test]
fn stepping_between_files_wraps_around() {
    assert_eq!(next_file_index(2, 3), 0);
    assert_eq!(next_file_index(0, 3), 1);
    assert_eq!(previous_file_index(0, 3), 2);
    assert_eq!(previous_file_index(next_file_index(1, 3), 3), 1);
}

#[test]
fn rows_are_reindexed_around_a_removal() {
    assert_eq!(reindex_after_removal(0, 1..3), Some(0));
    assert_eq!(reindex_after_removal(2, 1..3), None);
    assert_eq!(reindex_after_removal(5, 1..3), Some(3));
}

#[test]
fn folding_toggles_files_and_directories() {
    let mut files = HashSet::new();
    assert!(toggle_collapsed_file(&mut files, 4));
    assert!(files.contains(&4));
    assert!(!toggle_collapsed_file(&mut files, 4));
    assert!(files.is_empty());

    let mut directories = vec!["src".to_string()];
    assert!(!toggle_directory(&mut directories, "src"));
    assert!(directories.is_empty());
    assert!(toggle_directory(&mut directories, "docs"));
    assert_eq!(directories, vec!["docs".to_string()]);
}

#[test]
fn selecting_a_file_unfolds_its_directories() {
    let mut directories = vec![
        "src".to_string(),
        "src/ui".to_string(),
        "docs".to_string(),
    ];
    assert!(expand_file_ancestors(&mut directories, &file("src/ui/button.rs")));
    assert_eq!(directories, vec!["docs".to_string()]);
    assert!(!expand_file_ancestors(&mut directories, &file("README.md")));
}

#[test]
fn reloading_keeps_the_selection_and_folds_by_path() {
    let old = vec![file("a.rs"), file("b.rs"), file("c.rs")];
    let new = vec![file("c.rs"), file("a.rs")];
    assert_eq!(reselect_file(&old, 2, &new), 0);
    assert_eq!(reselect_file(&old, 0, &new), 1);
    assert_eq!(reselect_file(&old, 1, &new), 0);
    assert_eq!(reselect_file(&old, 1, &[]), 0);
    let folded = HashSet::from([0, 2]);
    assert_eq!(remap_collapsed_files(&old, &folded, &new), vec![0, 1]);
}

#[test]
fn sticky_header_belongs_to_the_file_scrolled_past() {
    let files = [file("a.rs"), file("b.rs")];
    let (rows, starts, _) = build_diff_rows(&files, DiffLayout::Unified, &HashSet::new(), &[]);
    let offsets = row_offsets(&rows);
    assert_eq!(sticky_file_index(&rows, &starts, &offsets, 0), None);
    assert_eq!(sticky_file_index(&rows, &starts, &offsets, 50), Some(0));
    let second = offsets[starts[1]];
    assert_eq!(sticky_file_index(&rows, &starts, &offsets, second), None);
    assert_eq!(sticky_file_index(&rows, &starts, &offsets, second + 1), Some(1));
}

#[test]
fn scrollbars_and_smooth_scrolling_lead_back_to_each_other() {
    use_targets();
}

fn use_targets() {
    use_target(sabun::scrolling::ScrollbarTarget::Files);
    use_target(sabun::scrolling::ScrollbarTarget::DiffVertical);
    assert_eq!(sabun::scrolling::ScrollbarTarget::SourcePicker.smooth_target(), None);
}

fn use_target(target: sabun::scrolling::ScrollbarTarget) {
    let smooth = target.smooth_target().unwrap();
    assert_eq!(smooth.scrollbar_target(), target);
}
