use std::collections::HashSet;

use sabun::copying::{path_to_copy, selected_text, text_content, CopyPathKind};
use sabun::diff::{DiffFile, DiffHunk, LineKind};
use sabun::file_meta::FileViewMeta;
use sabun::language::LanguageCatalog;
use sabun::rows::DiffLayout;
use sabun::selection::{HeaderTextSelection, TextLane, TextPoint, TextSelection};
use sabun::stream::build_diff_rows;

fn changed_file() -> DiffFile {
    DiffFile {
        old_path: "a/src/lib.rs".into(),
        new_path: "b/src/lib.rs".into(),
        hunks: vec![DiffHunk::from_lines(
            "@@ -1,2 +1,2 @@",
            1,
            1,
            vec![
                (Some(1), None, LineKind::Deletion, "alpha one".to_owned()),
                (Some(2), None, LineKind::Deletion, "beta two".to_owned()),
                (None, Some(1), LineKind::Addition, "gamma three".to_owned()),
                (None, Some(2), LineKind::Addition, "delta four".to_owned()),
            ],
        )],
        is_new: false,
        is_deleted: false,
    }
}

fn point(display_index: usize, lane: TextLane, offset: usize) -> TextPoint {
    TextPoint {
        display_index,
        lane,
        offset,
    }
}

fn selection(anchor: TextPoint, head: TextPoint) -> TextSelection {
    TextSelection {
        anchor,
        head,
        dragging: false,
    }
}

#[test]
fn unified_rows_read_back_their_lines() {
    let files = vec![changed_file()];
    let (rows, _, _) = build_diff_rows(&files, DiffLayout::Unified, &HashSet::new(), &[]);
    assert_eq!(text_content(&rows, &files, 0, TextLane::Unified), None);
    assert_eq!(text_content(&rows, &files, 1, TextLane::Unified), Some("alpha one"));
    assert_eq!(text_content(&rows, &files, 4, TextLane::Unified), Some("delta four"));
    assert_eq!(text_content(&rows, &files, 1, TextLane::Old), None);
    assert_eq!(text_content(&rows, &files, 9, TextLane::Unified), None);
}

#[test]
fn split_rows_read_back_each_side() {
    let files = vec![changed_file()];
    let (rows, _, _) = build_diff_rows(&files, DiffLayout::Split, &HashSet::new(), &[]);
    assert_eq!(text_content(&rows, &files, 1, TextLane::Old), Some("alpha one"));
    assert_eq!(text_content(&rows, &files, 1, TextLane::New), Some("gamma three"));
    assert_eq!(text_content(&rows, &files, 2, TextLane::New), Some("delta four"));
    assert_eq!(text_content(&rows, &files, 2, TextLane::Unified), None);
}

#[test]
fn copying_a_selection_joins_the_selected_parts_of_its_rows() {
    let files = vec![changed_file()];
    let (rows, _, _) = build_diff_rows(&files, DiffLayout::Unified, &HashSet::new(), &[]);
    let forward = selection(point(1, TextLane::Unified, 6), point(3, TextLane::Unified, 5));
    let text = selected_text(&rows, &files, &[], None, Some(forward));
    assert_eq!(text.as_deref(), Some("one\nbeta two\ngamma"));

    let backward = selection(forward.head, forward.anchor);
    assert_eq!(selected_text(&rows, &files, &[], None, Some(backward)), text);

    let within = selection(point(2, TextLane::Unified, 0), point(2, TextLane::Unified, 4));
    assert_eq!(
        selected_text(&rows, &files, &[], None, Some(within)).as_deref(),
        Some("beta")
    );
}

#[test]
fn an_empty_selection_copies_nothing() {
    let files = vec![changed_file()];
    let (rows, _, _) = build_diff_rows(&files, DiffLayout::Unified, &HashSet::new(), &[]);
    let empty = selection(point(1, TextLane::Unified, 3), point(1, TextLane::Unified, 3));
    assert_eq!(selected_text(&rows, &files, &[], None, Some(empty)), None);
    assert_eq!(selected_text(&rows, &files, &[], None, None), None);
    let header_only = selection(point(0, TextLane::Unified, 0), point(0, TextLane::Unified, 4));
    assert_eq!(selected_text(&rows, &files, &[], None, Some(header_only)), None);
}

#[test]
fn a_header_selection_copies_part_of_the_header_path() {
    let files = vec![changed_file()];
    let (rows, _, _) = build_diff_rows(&files, DiffLayout::Unified, &HashSet::new(), &[]);
    let catalog = LanguageCatalog::bundled();
    let metas = vec![FileViewMeta::new(&files[0], Some("/work"), &catalog)];
    assert_eq!(metas[0].header_path, "src / lib.rs");
    let header = HeaderTextSelection {
        file_index: 0,
        sticky_header: false,
        anchor: 40,
        head: 6,
        dragging: false,
    };
    let code = selection(point(1, TextLane::Unified, 0), point(2, TextLane::Unified, 3));
    assert_eq!(
        selected_text(&rows, &files, &metas, Some(header), Some(code)).as_deref(),
        Some("lib.rs")
    );
    let missing = HeaderTextSelection {
        file_index: 3,
        ..header
    };
    assert_eq!(selected_text(&rows, &files, &metas, Some(missing), Some(code)), None);
}

#[test]
fn copied_paths_prefer_the_repository_relative_one() {
    let catalog = LanguageCatalog::bundled();
    let inside = FileViewMeta::new(&changed_file(), Some("/work"), &catalog);
    let outside_file = DiffFile {
        old_path: "/etc/hosts".into(),
        new_path: "/etc/hosts".into(),
        hunks: Vec::new(),
        is_new: false,
        is_deleted: false,
    };
    let outside = FileViewMeta::new(&outside_file, None, &catalog);
    let metas = vec![inside, outside];

    assert_eq!(path_to_copy(&metas, 0, CopyPathKind::Shown).as_deref(), Some("src/lib.rs"));
    assert_eq!(
        path_to_copy(&metas, 0, CopyPathKind::Absolute).as_deref(),
        Some("/work/src/lib.rs")
    );
    assert_eq!(path_to_copy(&metas, 0, CopyPathKind::Relative).as_deref(), Some("src/lib.rs"));
    assert_eq!(path_to_copy(&metas, 1, CopyPathKind::Shown).as_deref(), Some("/etc/hosts"));
    assert_eq!(path_to_copy(&metas, 1, CopyPathKind::Relative), None);
    assert_eq!(path_to_copy(&metas, 2, CopyPathKind::Shown), None);
}
