use sabun::file_kind::trim_diff_prefix;
use sabun::layout::{build_diff_row_data, code_columns, DiffRowLayout, DiffRowLayoutKind};
use sabun::parse::{demo_diff, demo_patch};
use sabun::rows::{DiffDisplayRow, DiffLayout};
use sabun::source::{
    comparison_patch, file_comparison_input, file_label, load_request, patch_input,
    patch_source_name, reads_stdin, GitDiffSource, LoadRequest,
};
use sabun::cli::PatchOptions;
use sabun::diff::DiffSet;
use sabun::source::{changes_input, commit_input, shown_commit, shown_stash, stash_input};
use std::collections::HashSet;

#[test]
fn patch_reads_stdin_and_file_comparison_uses_two_existing_files() {
    let patch = "--- a/old.txt\n+++ b/old.txt\n@@ -1 +1 @@\n-before\n+after\n";
    let loaded = patch_input(patch.to_string(), None);
    assert_eq!(loaded.diff.files.len(), 1);
    assert_eq!(loaded.diff.files[0].display_path(), "old.txt");
    assert_eq!(loaded.source_name, "stdin");
    assert_eq!(loaded.comparison_label, "before");
    assert_eq!(loaded.target_label, "after");

    let compared = comparison_patch("before\n", "after\n", "/tmp/before.txt", "/tmp/after.txt");
    let input = file_comparison_input(compared, file_label("/tmp/before.txt"), file_label("/tmp/after.txt"));
    assert_eq!(input.diff.files.len(), 1);
    assert_eq!(input.diff.additions(), 1);
    assert_eq!(input.diff.deletions(), 1);
    assert_eq!(input.comparison_label, "before.txt");
    assert_eq!(input.target_label, "after.txt");
    assert_eq!(input.source_name, "File comparison");
}

#[test]
fn patch_read_from_a_file_is_named_by_the_file() {
    let patch = "--- a/old.txt\n+++ b/old.txt\n@@ -1 +1 @@\n-before\n+after\n";
    let loaded = patch_input(patch.to_string(), Some("/work/changes.patch"));
    assert_eq!(loaded.source_name, "changes.patch");
    assert!(loaded.path_root.is_none());
    assert_eq!(loaded.diff.files.len(), 1);
    let unnamed = patch_input(patch.to_string(), Some("/"));
    assert_eq!(unnamed.source_name, "Local patch");
}

#[test]
fn comparison_keeps_every_line_as_context() {
    let before = "one\ntwo\nthree\nfour\nfive\nsix\nseven\neight\n";
    let after = "one\ntwo\nthree\nfour\nFIVE\nsix\nseven\neight\n";
    let patch = comparison_patch(before, after, "a", "b");
    let input = file_comparison_input(patch, "a".into(), "b".into());
    assert_eq!(input.diff.files[0].hunks.len(), 1);
    assert_eq!(input.diff.files[0].hunks[0].lines.len(), 9);
}

#[test]
fn patch_names_and_stdin_choice() {
    assert_eq!(patch_source_name("/tmp/changes.patch"), "changes.patch");
    assert_eq!(patch_source_name("/"), "Local patch");
    assert_eq!(file_label(".."), "file");
    assert!(reads_stdin(&PatchOptions { file: None }));
    assert!(reads_stdin(&PatchOptions { file: Some("-".into()) }));
    assert!(!reads_stdin(&PatchOptions { file: Some("x.diff".into()) }));
}

#[test]
fn side_prefixes_are_trimmed_once() {
    assert_eq!(trim_diff_prefix("a/src/lib.rs"), "src/lib.rs");
    assert_eq!(trim_diff_prefix("b/b/x"), "b/x");
    assert_eq!(trim_diff_prefix("c/x"), "c/x");
    assert_eq!(trim_diff_prefix("a"), "a");
}

#[test]
fn demo_patch_reads_into_three_files() {
    assert!(demo_patch().starts_with("diff --git a/src/auth/session.rs"));
    let diff = demo_diff();
    assert_eq!(diff.files[2].display_path(), "README.md");
}

#[test]
fn row_layouts_wrap_code_rows_and_fix_the_rest() {
    let diff = demo_diff();
    let data = build_diff_row_data(&diff, DiffLayout::Unified, &HashSet::new(), &[]);
    assert_eq!(data.layouts.len(), data.rows.len());
    assert_eq!(data.offsets.len(), data.rows.len() + 1);
    assert_eq!(data.file_row_indices.len(), 3);
    assert_eq!(
        data.layouts[0],
        DiffRowLayout {
            value: 44,
            kind: DiffRowLayoutKind::Fixed
        }
    );
    let first_code = (0..data.rows.len())
        .find(|&i| matches!(data.rows.get(i), Some(DiffDisplayRow::Unified { .. })))
        .unwrap();
    assert_eq!(data.layouts[first_code].kind, DiffRowLayoutKind::Wrapped);
    let Some(DiffDisplayRow::Unified {
        file_index,
        hunk_index,
        row_index,
        ..
    }) = data.rows.get(first_code)
    else {
        unreachable!();
    };
    let hunk = &diff.files[file_index as usize].hunks[hunk_index as usize];
    let text = hunk.line_content(&hunk.lines[row_index as usize]);
    assert_eq!(data.layouts[first_code].value, code_columns(text));
    assert!(data.layouts[first_code].value > 0);
}

#[test]
fn each_source_reads_what_it_shows() {
    let paths = vec!["src".to_owned()];
    assert_eq!(
        load_request(&GitDiffSource::Changes, true, &paths),
        LoadRequest::Diff {
            target: None,
            staged: false,
            include_untracked: true,
            pathspecs: paths.clone(),
        }
    );
    assert_eq!(
        load_request(&GitDiffSource::Staged(Some("HEAD~1".into())), true, &paths),
        LoadRequest::Diff {
            target: Some("HEAD~1".into()),
            staged: true,
            include_untracked: false,
            pathspecs: paths.clone(),
        }
    );
    assert_eq!(
        load_request(&GitDiffSource::Comparison("main".into()), false, &paths),
        LoadRequest::Diff {
            target: Some("main".into()),
            staged: false,
            include_untracked: false,
            pathspecs: paths.clone(),
        }
    );
    assert_eq!(
        load_request(&GitDiffSource::Commit(None), true, &paths),
        LoadRequest::Show {
            target: None,
            pathspecs: paths.clone(),
        }
    );
    assert_eq!(
        load_request(&GitDiffSource::Stash(Some("stash@{1}".into())), true, &paths),
        LoadRequest::Stash {
            reference: Some("stash@{1}".into()),
        }
    );
}

#[test]
fn git_views_name_their_sides_and_their_empty_state() {
    let empty = || DiffSet { files: Vec::new(), contexts: Vec::new() };

    let working = changes_input(empty(), Some("/repo".into()), "repo".into(), "main".into(), None, false);
    assert_eq!(working.target_label, "working tree");
    assert_eq!(working.comparison_label, "main");
    assert_eq!(working.path_root.as_deref(), Some("/repo"));
    assert_eq!(working.empty_title, "Working tree is clean");
    assert_eq!(working.empty_detail, "No matching textual or metadata changes were found.");

    let staged = changes_input(empty(), None, "repo".into(), "HEAD~1".into(), None, true);
    assert_eq!(staged.target_label, "index");
    assert_eq!(staged.empty_title, "No staged changes");
    assert_eq!(staged.empty_detail, "The index contains no changes for this comparison.");

    let range = changes_input(empty(), None, "repo".into(), "main".into(), Some("topic".into()), false);
    assert_eq!(range.target_label, "topic");

    assert_eq!(shown_commit(None), "HEAD");
    assert_eq!(shown_commit(Some("abc123")), "abc123");
    let root = commit_input(empty(), None, "repo".into(), None, "HEAD");
    assert_eq!(root.comparison_label, "empty tree");
    assert_eq!(root.target_label, "HEAD");
    assert_eq!(root.empty_title, "Commit has no matching changes");
    let child = commit_input(empty(), None, "repo".into(), Some("1a2b3c4".into()), "HEAD");
    assert_eq!(child.comparison_label, "1a2b3c4");

    assert_eq!(shown_stash(None), "stash@{0}");
    assert_eq!(shown_stash(Some("stash@{2}")), "stash@{2}");
    let stash = stash_input(empty(), None, "repo".into(), "9f8e7d6".into(), "stash@{0}");
    assert_eq!(stash.comparison_label, "9f8e7d6");
    assert_eq!(stash.target_label, "stash@{0}");
    assert_eq!(stash.empty_title, "Stash has no changes");
    assert_eq!(stash.empty_detail, "The selected stash contains no textual or metadata changes.");
}
