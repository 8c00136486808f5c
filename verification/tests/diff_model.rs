use std::sync::Arc;

use sabun::diff::{DiffFileContext, DiffSet};
use sabun::parse::{demo_diff, parse_unified_diff};

#[test]
fn parses_multiple_files_and_line_numbers() {
    let diff = demo_diff();
    assert_eq!(diff.files.len(), 3);
    assert_eq!(diff.files[0].display_path(), "src/auth/session.rs");
    assert_eq!(diff.files[0].hunks.len(), 2);
    assert_eq!(diff.files[0].hunks[0].lines[0].old_number, Some(18));
    assert_eq!(diff.files[0].hunks[0].lines[0].new_number, Some(18));
    assert!(diff.additions() > diff.deletions());
}

#[test]
fn aligns_additions_and_deletions_by_kind() {
    let file = &demo_diff().files[1];
    assert_eq!(file.additions(), 4);
    assert_eq!(file.deletions(), 2);
}

#[test]
fn handles_patch_without_diff_git_header() {
    let diff = parse_unified_diff("--- a/a.txt\n+++ b/a.txt\n@@ -1 +1 @@\n-old\n+new\n".to_string());
    assert_eq!(diff.files.len(), 1);
    assert_eq!(diff.files[0].deletions(), 1);
    assert_eq!(diff.files[0].additions(), 1);
}

#[test]
fn retains_files_with_metadata_only_changes() {
    let diff = parse_unified_diff(
        "diff --git a/script.sh b/script.sh\nold mode 100644\nnew mode 100755\n".to_string(),
    );
    assert_eq!(diff.files.len(), 1);
    assert_eq!(diff.files[0].display_path(), "script.sh");
    assert!(diff.files[0].hunks.is_empty());
}

#[test]
fn owned_patch_buffer_is_shared_without_copying_line_content() {
    let patch = String::from(
        "diff --git a/a.txt b/a.txt\n--- a/a.txt\n+++ b/a.txt\n@@ -1 +1 @@\n-old\n+new\n@@ -3 +3 @@\n-before\n+after\n",
    );
    let patch_buffer = patch.as_ptr();
    let diff = parse_unified_diff(patch);
    let hunks = &diff.files[0].hunks;

    assert_eq!(hunks[0].content.as_ptr(), patch_buffer);
    assert!(Arc::ptr_eq(&hunks[0].content, &hunks[1].content));
    assert_eq!(hunks[0].line_content(&hunks[0].lines[0]), "old");
    assert_eq!(hunks[1].line_content(&hunks[1].lines[1]), "after");
}

#[test]
fn shared_patch_ranges_strip_crlf_line_endings() {
    let diff = parse_unified_diff(
        "--- a/a.txt\r\n+++ b/a.txt\r\n@@ -1 +1 @@\r\n-old\r\n+new\r\n".to_string(),
    );
    let hunk = &diff.files[0].hunks[0];

    assert_eq!(hunk.line_content(&hunk.lines[0]), "old");
    assert_eq!(hunk.line_content(&hunk.lines[1]), "new");
}

#[test]
fn git_context_indexes_lines_lazily_and_strips_crlf() {
    let context = DiffFileContext::new("one\r\ntwo\r\nthree".into());

    assert_eq!(context.line_count(), 3);
    assert_eq!(context.lines(2, 2).unwrap(), ["two", "three"]);
}

#[test]
fn syntax_source_reconstructs_each_requested_side_of_a_git_diff() {
    let mut diff = parse_unified_diff(
        "diff --git a/file.astro b/file.astro\n--- a/file.astro\n+++ b/file.astro\n@@ -2,3 +2,3 @@\n before\n-old\n+new\n after\n".to_string(),
    );
    diff.contexts = vec![Some(DiffFileContext::new(
        "zero\nbefore\nold\nafter\ntail\n".into(),
    ))];

    let old = diff.syntax_source(0, true);
    let new = diff.syntax_source(0, false);

    assert_eq!(
        old.as_deref().map(String::as_str),
        Some("zero\nbefore\nold\nafter\ntail\n")
    );
    assert_eq!(
        new.as_deref().map(String::as_str),
        Some("zero\nbefore\nnew\nafter\ntail\n")
    );
}

#[test]
fn syntax_source_recovers_a_deleted_files_complete_old_side() {
    let diff = parse_unified_diff(
        "diff --git a/file.astro b/file.astro\ndeleted file mode 100644\n--- a/file.astro\n+++ /dev/null\n@@ -1,2 +0,0 @@\n----\n-const title = \"Sabun\";\n".to_string(),
    );

    let old = diff.syntax_source(0, true);
    let new = diff.syntax_source(0, false);

    assert_eq!(
        old.as_deref().map(String::as_str),
        Some("---\nconst title = \"Sabun\";\n")
    );
    assert_eq!(new.as_deref().map(String::as_str), Some(""));
}

#[test]
fn file_names_and_parents_come_from_the_shown_path() {
    let diff = demo_diff();
    assert_eq!(diff.files[1].file_name(), "avatar.tsx");
    assert_eq!(diff.files[1].parent_path(), "src/components");
    assert_eq!(diff.files[2].parent_path(), "");
    assert_eq!(diff.files[2].path(), "b/README.md");
}

#[test]
fn deleted_file_is_named_by_its_old_path() {
    let diff = parse_unified_diff(
        "diff --git a/gone.txt b/gone.txt\ndeleted file mode 100644\n--- a/gone.txt\n+++ /dev/null\n@@ -1 +0,0 @@\n-bye\n".to_string(),
    );
    assert_eq!(diff.files[0].path(), "a/gone.txt");
    assert_eq!(diff.files[0].display_path(), "gone.txt");
    assert!(diff.files[0].is_deleted);
}

#[test]
fn hunk_header_without_numbers_starts_at_line_one() {
    let diff = parse_unified_diff("--- a/x\n+++ b/x\n@@ nonsense @@\n same\n+added\n".to_string());
    let hunk = &diff.files[0].hunks[0];
    assert_eq!(hunk.old_start, 1);
    assert_eq!(hunk.new_start, 1);
    assert_eq!(hunk.lines[1].new_number, Some(2));
    assert_eq!(hunk.lines[1].old_number, None);
}

#[test]
fn context_lines_outside_the_text_are_not_given() {
    let context = DiffFileContext::new("a\nb\n".into());
    assert_eq!(context.line_count(), 2);
    assert!(context.lines(0, 1).is_none());
    assert!(context.lines(2, 2).is_none());
    assert_eq!(context.lines(1, 2).unwrap(), ["a", "b"]);
}

#[test]
fn old_line_counts_come_from_the_known_old_texts() {
    let diff = DiffSet::with_contexts(
        demo_diff().files[..2].to_vec(),
        vec![Some("one\ntwo\nthree".into()), None],
    );
    assert_eq!(diff.old_line_count(0), Some(3));
    assert_eq!(diff.old_line_count(1), None);
    assert_eq!(diff.old_line_count(7), None);
}

#[test]
fn parsed_lines_are_numbered_on_from_the_hunk_starts_and_read_after_their_marker() {
    let patch = "diff --git a/x.rs b/x.rs\n--- a/x.rs\n+++ b/x.rs\n@@ -3,2 +7,3 @@\n ctx\r\n-old\n+new1\n+new2\n";
    let diff = parse_unified_diff(patch.to_owned());
    let hunk = &diff.files[0].hunks[0];
    let numbers: Vec<(Option<u32>, Option<u32>)> = hunk
        .lines
        .iter()
        .map(|line| (line.old_number, line.new_number))
        .collect();
    assert_eq!(
        numbers,
        vec![(Some(3), Some(7)), (Some(4), None), (None, Some(8)), (None, Some(9))]
    );
    let texts: Vec<&str> = hunk.lines.iter().map(|line| hunk.line_content(line)).collect();
    assert_eq!(texts, vec!["ctx", "old", "new1", "new2"]);
    assert_eq!(hunk.lines[0].content_from(patch), "ctx");
}

#[test]
fn joined_patches_count_the_lines_of_both() {
    let a = "diff --git a/x b/x\n--- a/x\n+++ b/x\n@@ -1,2 +1,2 @@\n-one\n+uno\n two\n".to_owned();
    let b = "diff --git a/y b/y\n--- a/y\n+++ b/y\n@@ -1 +1,3 @@\n-gone\n+first\n+second\n+third\n".to_owned();
    let joined = parse_unified_diff(a.clone() + &b);
    let first = parse_unified_diff(a);
    let second = parse_unified_diff(b);
    assert_eq!(joined.additions(), first.additions() + second.additions());
    assert_eq!(joined.deletions(), first.deletions() + second.deletions());
    assert_eq!((joined.additions(), joined.deletions()), (4, 2));
    assert_eq!(
        joined.deletions(),
        joined.files.iter().map(|file| file.deletions()).sum::<usize>()
    );
}
