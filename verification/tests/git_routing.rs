use sabun::diff::{DiffFile, LineKind};
use sabun::git_delta::{finish_git_diff, git_diff_step, DeltaStatus, GitDiffBuilder, GitDiffEvent};

fn feed(state: &mut GitDiffBuilder, event: GitDiffEvent) -> bool {
    assert!(state.fits(&event));
    git_diff_step(state, event)
}

fn hunk(header: &str, old_start: u32, new_start: u32) -> GitDiffEvent {
    GitDiffEvent::Hunk { header: header.to_string(), old_start, new_start }
}

fn line(
    kind: Option<LineKind>,
    old_number: Option<u32>,
    new_number: Option<u32>,
    content: &str,
) -> GitDiffEvent {
    GitDiffEvent::Line {
        hunk: None,
        kind,
        old_number,
        new_number,
        content: content.to_string(),
    }
}

fn added_lines(file: &DiffFile) -> Vec<String> {
    file.hunks
        .iter()
        .flat_map(|hunk| {
            hunk.lines
                .iter()
                .filter(|line| line.kind == LineKind::Addition)
                .map(move |line| hunk.line_content(line).to_string())
        })
        .collect()
}

#[test]
fn git_events_keep_hunks_attached_to_their_files() {
    let mut state = GitDiffBuilder::new(vec![
        (DeltaStatus::Changed, "rename.txt".to_string(), "renamed.txt".to_string()),
        (DeltaStatus::Changed, "second.txt".to_string(), "second.txt".to_string()),
        (DeltaStatus::Changed, "tracked.txt".to_string(), "tracked.txt".to_string()),
    ]);
    assert!(feed(&mut state, GitDiffEvent::File));
    assert!(feed(&mut state, GitDiffEvent::File));
    assert!(feed(&mut state, hunk("@@ -1 +1 @@\n", 1, 1)));
    assert!(feed(&mut state, line(Some(LineKind::Deletion), Some(1), None, "second initial\n")));
    assert!(feed(&mut state, line(Some(LineKind::Addition), None, Some(1), "second changed\n")));
    assert!(feed(&mut state, GitDiffEvent::File));
    assert!(feed(&mut state, hunk("@@ -1 +1 @@\n", 1, 1)));
    assert!(feed(&mut state, line(Some(LineKind::Deletion), Some(1), None, "initial\n")));
    assert!(feed(&mut state, line(Some(LineKind::Addition), None, Some(1), "first changed\r\n")));
    let files = finish_git_diff(state);

    assert_eq!(files.len(), 3);
    assert_eq!(files[0].display_path(), "renamed.txt");
    assert!(files[0].hunks.is_empty());
    assert_eq!(files[1].display_path(), "second.txt");
    assert_eq!(added_lines(&files[1]), ["second changed"]);
    assert_eq!(files[2].display_path(), "tracked.txt");
    assert_eq!(added_lines(&files[2]), ["first changed"]);
    assert_eq!(files[2].hunks[0].header, "@@ -1 +1 @@");
    assert_eq!(files[2].hunks[0].lines[0].old_number, Some(1));
    assert_eq!(files[2].hunks[0].lines[1].new_number, Some(1));
}

#[test]
fn git_events_past_the_last_change_stop_the_walk() {
    let mut state = GitDiffBuilder::new(vec![(
        DeltaStatus::Added,
        "new.txt".to_string(),
        "new.txt".to_string(),
    )]);
    assert!(feed(&mut state, GitDiffEvent::File));
    assert!(!feed(&mut state, GitDiffEvent::File));
    assert!(feed(&mut state, hunk("@@ -0,0 +1 @@", 0, 1)));
    assert!(feed(&mut state, line(Some(LineKind::Addition), None, Some(1), "dropped")));
    let files = finish_git_diff(state);
    assert_eq!(files.len(), 1);
    assert_eq!(files[0].old_path, "/dev/null");
    assert_eq!(files[0].new_path, "new.txt");
    assert!(files[0].is_new);
    assert!(files[0].hunks.is_empty());
}

#[test]
fn git_line_without_a_hunk_opens_its_own_and_other_origins_are_skipped() {
    let mut state = GitDiffBuilder::new(vec![(
        DeltaStatus::Deleted,
        "gone.txt".to_string(),
        "gone.txt".to_string(),
    )]);
    assert!(feed(&mut state, line(Some(LineKind::Deletion), Some(1), None, "before any file")));
    assert!(feed(&mut state, GitDiffEvent::File));
    assert!(feed(&mut state, line(Some(LineKind::Deletion), Some(1), None, "no hunk named")));
    assert!(feed(
        &mut state,
        GitDiffEvent::Line {
            hunk: Some(("@@ -1,2 +0,0 @@\r\n".to_string(), 1, 0)),
            kind: Some(LineKind::Deletion),
            old_number: Some(1),
            new_number: None,
            content: "gone one\n".to_string(),
        },
    ));
    assert!(feed(&mut state, line(None, None, None, "\n\\ No newline at end of file\n")));
    assert!(feed(&mut state, line(Some(LineKind::Deletion), Some(2), None, "gone two")));
    let files = finish_git_diff(state);
    assert_eq!(files.len(), 1);
    assert_eq!(files[0].new_path, "/dev/null");
    assert!(files[0].is_deleted);
    assert_eq!(files[0].hunks.len(), 1);
    let hunk = &files[0].hunks[0];
    assert_eq!(hunk.header, "@@ -1,2 +0,0 @@");
    assert_eq!((hunk.old_start, hunk.new_start), (1, 0));
    assert_eq!(hunk.lines.len(), 2);
    assert_eq!(hunk.line_content(&hunk.lines[0]), "gone one");
    assert_eq!(hunk.line_content(&hunk.lines[1]), "gone two");
    assert_eq!(hunk.lines[1].old_number, Some(2));
}
