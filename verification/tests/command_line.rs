use sabun::cli::{
    parse_from, CliErrorKind, Command, DiffOptions, Options, PatchOptions, ShowOptions,
    StashShowOptions,
};
use sabun::source::{
    abbreviated, diff_plan, history_page, line_count, range_labels, source_selection,
    stash_index, validate_options, GitDiffSource,
};

fn parse_command(args: &[&str]) -> Command {
    parse_from(args).unwrap().command
}

#[test]
fn cli_parses_diff_options_targets_and_strict_pathspecs() {
    assert_eq!(
        parse_command(&[
            "diff",
            "--staged",
            "--exclude-untracked",
            "HEAD",
            "--",
            "src",
            "README.md",
        ]),
        Command::Diff(DiffOptions {
            watch: false,
            staged: true,
            exclude_untracked: true,
            targets: vec!["HEAD".into()],
            pathspecs: vec!["src".into(), "README.md".into()],
        })
    );
    assert!(parse_from(&["diff", "--cached"]).is_err());
    assert_eq!(
        parse_command(&["diff", "--", "src"]),
        Command::Diff(DiffOptions {
            watch: false,
            staged: false,
            exclude_untracked: false,
            targets: Vec::new(),
            pathspecs: vec!["src".into()],
        })
    );
}

#[test]
fn cli_parses_show_stash_show_and_patch() {
    assert_eq!(
        parse_command(&["show", "HEAD~1", "--", "src/lib.rs"]),
        Command::Show(ShowOptions {
            target: Some("HEAD~1".into()),
            pathspecs: vec!["src/lib.rs".into()],
        })
    );
    assert_eq!(
        parse_command(&["stash", "show", "stash@{2}"]),
        Command::StashShow(StashShowOptions {
            reference: Some("stash@{2}".into()),
        })
    );
    assert_eq!(
        parse_command(&["stash", "show"]),
        Command::StashShow(StashShowOptions { reference: None })
    );
    assert_eq!(
        parse_command(&["patch", "-"]),
        Command::Patch(PatchOptions {
            file: Some("-".into()),
        })
    );
    assert_eq!(
        parse_command(&["patch"]),
        Command::Patch(PatchOptions { file: None })
    );
    assert_eq!(
        parse_command(&["show", "--", "src"]),
        Command::Show(ShowOptions {
            target: None,
            pathspecs: vec!["src".into()],
        })
    );
}

#[test]
fn cli_parses_watch_and_rejects_removed_demo_mode() {
    assert_eq!(
        parse_command(&["diff", "--watch"]),
        Command::Diff(DiffOptions {
            watch: true,
            staged: false,
            exclude_untracked: false,
            targets: Vec::new(),
            pathspecs: Vec::new(),
        })
    );
    assert!(parse_from(&["--demo"]).is_err());
}

#[test]
fn cli_parses_global_repo_selector() {
    let expected = Options {
        repo: Some("../nitro".into()),
        command: Command::Diff(DiffOptions {
            watch: false,
            staged: false,
            exclude_untracked: false,
            targets: Vec::new(),
            pathspecs: Vec::new(),
        }),
    };
    assert_eq!(
        parse_from(&["--repo", "../nitro", "diff"]).unwrap(),
        expected
    );
    assert_eq!(
        parse_from(&["diff", "--repo", "../nitro"]).unwrap(),
        expected
    );
}

#[test]
fn repo_selector_is_rejected_for_patch_input() {
    let error = validate_options(&Options {
        repo: Some("/tmp/checkout".into()),
        command: Command::Patch(PatchOptions { file: None }),
    })
    .err()
    .unwrap();
    assert_eq!(error, "--repo cannot be used with patch");
}

#[test]
fn refused_command_lines_say_why() {
    assert_eq!(parse_from(&[]).unwrap_err().kind, CliErrorKind::MissingCommand);
    assert_eq!(parse_from(&["stash"]).unwrap_err().kind, CliErrorKind::MissingCommand);
    let unknown = parse_from(&["stash", "list"]).unwrap_err();
    assert_eq!(unknown.kind, CliErrorKind::UnknownCommand);
    assert_eq!(unknown.argument, "list");
    assert_eq!(parse_from(&["diff", "--repo"]).unwrap_err().kind, CliErrorKind::MissingValue);
    assert_eq!(
        parse_from(&["patch", "a.diff", "b.diff"]).unwrap_err().kind,
        CliErrorKind::UnexpectedArgument
    );
    assert_eq!(parse_from(&["--", "diff"]).unwrap_err().kind, CliErrorKind::UnexpectedArgument);
    assert_eq!(parse_from(&["show", "--help"]).unwrap_err().kind, CliErrorKind::HelpRequested);
    assert_eq!(parse_from(&["-V"]).unwrap_err().kind, CliErrorKind::VersionRequested);
    let flag = parse_from(&["show", "--staged"]).unwrap_err();
    assert_eq!(flag.kind, CliErrorKind::UnknownFlag);
    assert_eq!(flag.argument, "--staged");
}

#[test]
fn repo_value_can_be_joined_to_its_flag() {
    let options = parse_from(&["show", "--repo=../x", "HEAD"]).unwrap();
    assert_eq!(options.repo.as_deref(), Some("../x"));
    assert_eq!(
        options.command,
        Command::Show(ShowOptions {
            target: Some("HEAD".into()),
            pathspecs: Vec::new(),
        })
    );
}

#[test]
fn source_labels_name_each_kind_of_source() {
    assert_eq!(GitDiffSource::Changes.label(), "Changes");
    assert_eq!(GitDiffSource::Staged(None).label(), "Staged changes");
    assert_eq!(GitDiffSource::Comparison("main".into()).label(), "Compare main");
    assert_eq!(
        GitDiffSource::Commit(Some("0123456789abcdef".into())).label(),
        "Commit 0123456"
    );
    assert_eq!(GitDiffSource::Commit(Some("abc".into())).label(), "Commit abc");
    assert_eq!(GitDiffSource::Commit(None).label(), "Latest commit");
    assert_eq!(GitDiffSource::Stash(Some("stash@{1}".into())).label(), "stash@{1}");
    assert_eq!(GitDiffSource::Stash(None).label(), "Latest stash");
    assert_eq!(abbreviated("HEAD~10"), "HEAD~10");
}

#[test]
fn diff_plan_takes_extra_targets_as_paths() {
    let options = DiffOptions {
        watch: false,
        staged: false,
        exclude_untracked: true,
        targets: vec!["HEAD".into(), "src".into(), "docs".into()],
        pathspecs: Vec::new(),
    };
    let plan = diff_plan(&options).unwrap();
    assert_eq!(plan.target.as_deref(), Some("HEAD"));
    assert_eq!(plan.pathspecs, vec!["src".to_string(), "docs".to_string()]);
    assert!(!plan.include_untracked);

    let staged = DiffOptions {
        staged: true,
        ..options
    };
    assert_eq!(
        diff_plan(&staged).unwrap_err(),
        "diff accepts at most one Git target when --staged or pathspecs after -- are used"
    );
}

#[test]
fn source_selection_follows_the_command() {
    let diff = Command::Diff(DiffOptions {
        watch: false,
        staged: true,
        exclude_untracked: false,
        targets: vec!["HEAD~2".into()],
        pathspecs: vec!["src".into()],
    });
    let selection = source_selection(&diff, false).unwrap();
    assert_eq!(selection.source, GitDiffSource::Staged(Some("HEAD~2".into())));
    assert!(selection.include_untracked);
    assert_eq!(selection.pathspecs, vec!["src".to_string()]);
    assert!(source_selection(&diff, true).is_none());
    assert!(source_selection(&Command::Patch(PatchOptions { file: None }), false).is_none());
    let stash = source_selection(
        &Command::StashShow(StashShowOptions { reference: None }),
        false,
    )
    .unwrap();
    assert_eq!(stash.source, GitDiffSource::Stash(None));
}

#[test]
fn stash_references_and_ranges_are_read() {
    assert_eq!(stash_index("stash@{2}"), Some(2));
    assert_eq!(stash_index("stash@{12}"), Some(12));
    assert_eq!(stash_index("stash@{}"), None);
    assert_eq!(stash_index("stash@{x}"), None);
    assert_eq!(stash_index("refs/stash"), None);
    assert_eq!(
        range_labels("HEAD~1...HEAD"),
        ("HEAD~1".to_string(), "HEAD".to_string())
    );
    assert_eq!(
        range_labels("main..topic"),
        ("main".to_string(), "topic".to_string())
    );
    assert_eq!(range_labels("HEAD"), ("HEAD".to_string(), "range".to_string()));
}

#[test]
fn history_pages_hold_at_most_a_page() {
    let (page, more) = history_page((0..55).collect::<Vec<u32>>(), 50);
    assert_eq!(page.len(), 50);
    assert!(more);
    let (page, more) = history_page(vec![1, 2, 3], 50);
    assert_eq!(page, vec![1, 2, 3]);
    assert!(!more);
}

#[test]
fn line_counts_follow_str_lines() {
    assert_eq!(line_count(""), 0);
    assert_eq!(line_count("a"), 1);
    assert_eq!(line_count("a\n"), 1);
    assert_eq!(line_count("a\nb"), 2);
    assert_eq!(line_count("a\r\nb\r\n"), 2);
}
