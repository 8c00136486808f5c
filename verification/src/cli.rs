//! The command line: `diff`, `show`, `stash show` and `patch`, with the global
//! `--repo` selector, read into options; and the decisions taken on those options
//! before any repository or file is read.

use vstd::prelude::*;
use vstd::string::StrSliceExecFns;

use crate::text::{str_equal, str_starts_with};

verus! {

/// The options of `diff`.
#[derive(Clone, Debug, PartialEq, Eq)]
pub struct DiffOptions {
    pub watch: bool,
    pub staged: bool,
    pub exclude_untracked: bool,
    pub targets: Vec<String>,
    pub pathspecs: Vec<String>,
}

/// The options of `show`.
#[derive(Clone, Debug, PartialEq, Eq)]
pub struct ShowOptions {
    pub target: Option<String>,
    pub pathspecs: Vec<String>,
}

/// The options of `stash show`.
#[derive(Clone, Debug, PartialEq, Eq)]
pub struct StashShowOptions {
    pub reference: Option<String>,
}

/// The options of `patch`.
#[derive(Clone, Debug, PartialEq, Eq)]
pub struct PatchOptions {
    pub file: Option<String>,
}

/// The command to run.
#[derive(Clone, Debug, PartialEq, Eq)]
pub enum Command {
    Diff(DiffOptions),
    Show(ShowOptions),
    StashShow(StashShowOptions),
    Patch(PatchOptions),
}

/// Everything the command line says: the repository to read and the command.
#[derive(Clone, Debug, PartialEq, Eq)]
pub struct Options {
    pub repo: Option<String>,
    pub command: Command,
}

/// Why a command line was refused, or that it asked for help or the version.
#[derive(Clone, Copy, Debug, PartialEq, Eq, Structural)]
pub enum CliErrorKind {
    UnknownFlag,
    MissingValue,
    MissingCommand,
    UnknownCommand,
    UnexpectedArgument,
    HelpRequested,
    VersionRequested,
}

/// A refused command line: why, and the argument at fault.
#[derive(Clone, Debug, PartialEq, Eq)]
pub struct CliError {
    pub kind: CliErrorKind,
    pub argument: String,
}

/// How far the command has been read.
#[derive(Clone, Copy, Debug, PartialEq, Eq, Structural)]
pub enum Stage {
    Start,
    Stash,
    Diff,
    Show,
    StashShow,
    Patch,
}

/// A command, its strings taken as characters.
pub enum CommandModel {
    Diff {
        watch: bool,
        staged: bool,
        exclude_untracked: bool,
        targets: Seq<Seq<char>>,
        pathspecs: Seq<Seq<char>>,
    },
    Show { target: Option<Seq<char>>, pathspecs: Seq<Seq<char>> },
    StashShow { reference: Option<Seq<char>> },
    Patch { file: Option<Seq<char>> },
}

/// The arguments read so far.
pub struct ParseModel {
    pub repo: Option<Seq<char>>,
    pub stage: Stage,
    pub after_dashes: bool,
    pub watch: bool,
    pub staged: bool,
    pub exclude_untracked: bool,
    pub targets: Seq<Seq<char>>,
    pub pathspecs: Seq<Seq<char>>,
    pub operand: Option<Seq<char>>,
}

/// The characters of each string.
pub open spec fn strings_view(v: Seq<String>) -> Seq<Seq<char>> {
    v.map_values(|s: String| s@)
}

/// The characters of an optional string.
pub open spec fn opt_view(o: Option<String>) -> Option<Seq<char>> {
    match o {
        Some(s) => Some(s@),
        None => None,
    }
}

impl Command {
    /// The command, its strings taken as characters.
    pub open spec fn model(self) -> CommandModel {
        match self {
            Command::Diff(o) => CommandModel::Diff {
                watch: o.watch,
                staged: o.staged,
                exclude_untracked: o.exclude_untracked,
                targets: strings_view(o.targets@),
                pathspecs: strings_view(o.pathspecs@),
            },
            Command::Show(o) => CommandModel::Show {
                target: opt_view(o.target),
                pathspecs: strings_view(o.pathspecs@),
            },
            Command::StashShow(o) => CommandModel::StashShow { reference: opt_view(o.reference) },
            Command::Patch(o) => CommandModel::Patch { file: opt_view(o.file) },
        }
    }
}

/// Nothing read yet.
pub open spec fn initial_model() -> ParseModel {
    ParseModel {
        repo: None,
        stage: Stage::Start,
        after_dashes: false,
        watch: false,
        staged: false,
        exclude_untracked: false,
        targets: seq![],
        pathspecs: seq![],
        operand: None,
    }
}

/// Whether an argument is an option: a `-` followed by more.
pub open spec fn is_flag(a: Seq<char>) -> bool {
    a.len() >= 2 && a[0] == '-'
}

/// An argument that is not an option: a command name, a target, a path or a reference.
pub open spec fn take_operand(st: ParseModel, a: Seq<char>) -> Result<ParseModel, (CliErrorKind, Seq<char>)> {
    match st.stage {
        Stage::Start => if a == "diff"@ {
            Ok(ParseModel { stage: Stage::Diff, ..st })
        } else if a == "show"@ {
            Ok(ParseModel { stage: Stage::Show, ..st })
        } else if a == "stash"@ {
            Ok(ParseModel { stage: Stage::Stash, ..st })
        } else if a == "patch"@ {
            Ok(ParseModel { stage: Stage::Patch, ..st })
        } else {
            Err((CliErrorKind::UnknownCommand, a))
        },
        Stage::Stash => if a == "show"@ {
            Ok(ParseModel { stage: Stage::StashShow, ..st })
        } else {
            Err((CliErrorKind::UnknownCommand, a))
        },
        Stage::Diff => if st.after_dashes {
            Ok(ParseModel { pathspecs: st.pathspecs.push(a), ..st })
        } else {
            Ok(ParseModel { targets: st.targets.push(a), ..st })
        },
        Stage::Show => if st.after_dashes {
            Ok(ParseModel { pathspecs: st.pathspecs.push(a), ..st })
        } else if st.operand is None {
            Ok(ParseModel { operand: Some(a), ..st })
        } else {
            Err((CliErrorKind::UnexpectedArgument, a))
        },
        _ => if st.operand is None {
            Ok(ParseModel { operand: Some(a), ..st })
        } else {
            Err((CliErrorKind::UnexpectedArgument, a))
        },
    }
}

/// The arguments from `i` on, read into `st`: `--repo` takes the next argument
/// wherever it stands, `--` ends the options, `diff` knows its three flags, and any
/// other option is refused.
pub open spec fn parse_args(args: Seq<Seq<char>>, i: int, st: ParseModel) -> Result<ParseModel, (CliErrorKind, Seq<char>)>
    decreases args.len() - i,
{
    if i < 0 || i >= args.len() {
        Ok(st)
    } else {
        let a = args[i];
        if st.after_dashes {
            match take_operand(st, a) {
                Ok(next) => parse_args(args, i + 1, next),
                Err(e) => Err(e),
            }
        } else if a == "--"@ {
            if st.stage == Stage::Start || st.stage == Stage::Stash {
                Err((CliErrorKind::UnexpectedArgument, a))
            } else {
                parse_args(args, i + 1, ParseModel { after_dashes: true, ..st })
            }
        } else if a == "--repo"@ {
            if i + 1 < args.len() {
                parse_args(args, i + 2, ParseModel { repo: Some(args[i + 1]), ..st })
            } else {
                Err((CliErrorKind::MissingValue, a))
            }
        } else if a.len() >= 7 && a.subrange(0, 7) == "--repo="@ {
            parse_args(args, i + 1, ParseModel { repo: Some(a.subrange(7, a.len() as int)), ..st })
        } else if a == "--help"@ || a == "-h"@ {
            Err((CliErrorKind::HelpRequested, a))
        } else if a == "--version"@ || a == "-V"@ {
            Err((CliErrorKind::VersionRequested, a))
        } else if st.stage == Stage::Diff && a == "--watch"@ {
            parse_args(args, i + 1, ParseModel { watch: true, ..st })
        } else if st.stage == Stage::Diff && a == "--staged"@ {
            parse_args(args, i + 1, ParseModel { staged: true, ..st })
        } else if st.stage == Stage::Diff && a == "--exclude-untracked"@ {
            parse_args(args, i + 1, ParseModel { exclude_untracked: true, ..st })
        } else if is_flag(a) {
            Err((CliErrorKind::UnknownFlag, a))
        } else {
            match take_operand(st, a) {
                Ok(next) => parse_args(args, i + 1, next),
                Err(e) => Err(e),
            }
        }
    }
}

/// The options that a fully read command line gives.
pub open spec fn finish_model(st: ParseModel) -> Result<(Option<Seq<char>>, CommandModel), (CliErrorKind, Seq<char>)> {
    match st.stage {
        Stage::Start => Err((CliErrorKind::MissingCommand, seq![])),
        Stage::Stash => Err((CliErrorKind::MissingCommand, seq![])),
        Stage::Diff => Ok(
            (
                st.repo,
                CommandModel::Diff {
                    watch: st.watch,
                    staged: st.staged,
                    exclude_untracked: st.exclude_untracked,
                    targets: st.targets,
                    pathspecs: st.pathspecs,
                },
            ),
        ),
        Stage::Show => Ok((st.repo, CommandModel::Show { target: st.operand, pathspecs: st.pathspecs })),
        Stage::StashShow => Ok((st.repo, CommandModel::StashShow { reference: st.operand })),
        Stage::Patch => Ok((st.repo, CommandModel::Patch { file: st.operand })),
    }
}

/// What a command line means: its options, or why it is refused.
pub open spec fn command_line(args: Seq<Seq<char>>) -> Result<(Option<Seq<char>>, CommandModel), (CliErrorKind, Seq<char>)> {
    match parse_args(args, 0, initial_model()) {
        Ok(st) => finish_model(st),
        Err(e) => Err(e),
    }
}

/// The arguments read so far, as they are held while reading.
struct ParseState {
    repo: Option<String>,
    stage: Stage,
    after_dashes: bool,
    watch: bool,
    staged: bool,
    exclude_untracked: bool,
    targets: Vec<String>,
    pathspecs: Vec<String>,
    operand: Option<String>,
}

impl ParseState {
    spec fn model(self) -> ParseModel {
        ParseModel {
            repo: opt_view(self.repo),
            stage: self.stage,
            after_dashes: self.after_dashes,
            watch: self.watch,
            staged: self.staged,
            exclude_untracked: self.exclude_untracked,
            targets: strings_view(self.targets@),
            pathspecs: strings_view(self.pathspecs@),
            operand: opt_view(self.operand),
        }
    }
}

fn cli_error(kind: CliErrorKind, argument: &str) -> (r: CliError)
    ensures
        r.kind == kind,
        r.argument@ == argument@,
{
    CliError { kind, argument: argument.to_owned() }
}

/// The error and argument of a refusal.
pub open spec fn error_model(e: CliError) -> (CliErrorKind, Seq<char>) {
    (e.kind, e.argument@)
}

/// Reads an argument that is not an option into the state.
fn take_operand_into(st: &mut ParseState, a: &str) -> (r: Result<(), CliError>)
    ensures
        match take_operand(old(st).model(), a@) {
            Ok(next) => r is Ok && final(st).model() == next,
            Err(e) => r matches Err(err) && error_model(err) == e,
        },
{
    proof {
        reveal_strlit("diff");
        reveal_strlit("show");
        reveal_strlit("stash");
        reveal_strlit("patch");
    }
    match st.stage {
        Stage::Start => {
            if str_equal(a, "diff") {
                st.stage = Stage::Diff;
            } else if str_equal(a, "show") {
                st.stage = Stage::Show;
            } else if str_equal(a, "stash") {
                st.stage = Stage::Stash;
            } else if str_equal(a, "patch") {
                st.stage = Stage::Patch;
            } else {
                return Err(cli_error(CliErrorKind::UnknownCommand, a));
            }
        },
        Stage::Stash => {
            if str_equal(a, "show") {
                st.stage = Stage::StashShow;
            } else {
                return Err(cli_error(CliErrorKind::UnknownCommand, a));
            }
        },
        Stage::Diff => {
            if st.after_dashes {
                st.pathspecs.push(a.to_owned());
                proof {
                    assert(strings_view(st.pathspecs@) =~= strings_view(old(st).pathspecs@).push(a@));
                }
            } else {
                st.targets.push(a.to_owned());
                proof {
                    assert(strings_view(st.targets@) =~= strings_view(old(st).targets@).push(a@));
                }
            }
        },
        Stage::Show => {
            if st.after_dashes {
                st.pathspecs.push(a.to_owned());
                proof {
                    assert(strings_view(st.pathspecs@) =~= strings_view(old(st).pathspecs@).push(a@));
                }
            } else if st.operand.is_none() {
                st.operand = Some(a.to_owned());
            } else {
                return Err(cli_error(CliErrorKind::UnexpectedArgument, a));
            }
        },
        _ => {
            if st.operand.is_none() {
                st.operand = Some(a.to_owned());
            } else {
                return Err(cli_error(CliErrorKind::UnexpectedArgument, a));
            }
        },
    }
    Ok(())
}

/// The characters of each argument.
pub open spec fn args_view(args: Seq<&str>) -> Seq<Seq<char>> {
    args.map_values(|a: &str| a@)
}

/// Reads a command line (without the program name), as `command_line` describes it.
pub fn parse_from(args: &[&str]) -> (r: Result<Options, CliError>)
    ensures
        match command_line(args_view(args@)) {
            Ok((repo, command)) => r matches Ok(o) && opt_view(o.repo) == repo && o.command.model()
                == command,
            Err(e) => r matches Err(err) && error_model(err) == e,
        },
{
    proof {
        reveal_strlit("");
    }
    let ghost view = args_view(args@);
    let mut st = ParseState {
        repo: None,
        stage: Stage::Start,
        after_dashes: false,
        watch: false,
        staged: false,
        exclude_untracked: false,
        targets: Vec::new(),
        pathspecs: Vec::new(),
        operand: None,
    };
    proof {
        assert(strings_view(st.targets@) =~= seq![]);
        assert(strings_view(st.pathspecs@) =~= seq![]);
        assert(st.model() == initial_model());
    }
    let mut i: usize = 0;
    while i < args.len()
        invariant
            view == args_view(args@),
            i <= args@.len(),
            parse_args(view, 0, initial_model()) == parse_args(view, i as int, st.model()),
        decreases args@.len() - i,
    {
        let a = args[i];
        assert(view[i as int] == a@);
        proof {
            reveal_strlit("--");
            reveal_strlit("--repo");
            reveal_strlit("--repo=");
            reveal_strlit("--help");
            reveal_strlit("-h");
            reveal_strlit("--version");
            reveal_strlit("-V");
            reveal_strlit("--watch");
            reveal_strlit("--staged");
            reveal_strlit("--exclude-untracked");
        }

        if st.after_dashes {
            match take_operand_into(&mut st, a) {
                Ok(()) => {},
                Err(e) => {
                    return Err(e);
                },
            }
            i += 1;
        } else if str_equal(a, "--") {
            if st.stage == Stage::Start || st.stage == Stage::Stash {
                return Err(cli_error(CliErrorKind::UnexpectedArgument, a));
            }
            st.after_dashes = true;
            i += 1;
        } else if str_equal(a, "--repo") {
            if i + 1 < args.len() {
                assert(view[i + 1] == args@[i + 1]@);
                st.repo = Some(args[i + 1].to_owned());
                i += 2;
            } else {
                return Err(cli_error(CliErrorKind::MissingValue, a));
            }
        } else if str_starts_with(a, "--repo=") {
            let n = a.unicode_len();
            st.repo = Some(a.substring_char(7, n).to_owned());
            i += 1;
        } else if str_equal(a, "--help") || str_equal(a, "-h") {
            return Err(cli_error(CliErrorKind::HelpRequested, a));
        } else if str_equal(a, "--version") || str_equal(a, "-V") {
            return Err(cli_error(CliErrorKind::VersionRequested, a));
        } else if st.stage == Stage::Diff && str_equal(a, "--watch") {
            st.watch = true;
            i += 1;
        } else if st.stage == Stage::Diff && str_equal(a, "--staged") {
            st.staged = true;
            i += 1;
        } else if st.stage == Stage::Diff && str_equal(a, "--exclude-untracked") {
            st.exclude_untracked = true;
            i += 1;
        } else if a.unicode_len() >= 2 && a.get_char(0) == '-' {
            return Err(cli_error(CliErrorKind::UnknownFlag, a));
        } else {
            match take_operand_into(&mut st, a) {
                Ok(()) => {},
                Err(e) => {
                    return Err(e);
                },
            }
            i += 1;
        }
    }
    let ParseState {
        repo,
        stage,
        watch,
        staged,
        exclude_untracked,
        targets,
        pathspecs,
        operand,
        ..
    } = st;
    let command = match stage {
        Stage::Start => {
            return Err(cli_error(CliErrorKind::MissingCommand, ""));
        },
        Stage::Stash => {
            return Err(cli_error(CliErrorKind::MissingCommand, ""));
        },
        Stage::Diff => Command::Diff(
            DiffOptions { watch, staged, exclude_untracked, targets, pathspecs },
        ),
        Stage::Show => Command::Show(ShowOptions { target: operand, pathspecs }),
        Stage::StashShow => Command::StashShow(StashShowOptions { reference: operand }),
        Stage::Patch => Command::Patch(PatchOptions { file: operand }),
    };
    Ok(Options { repo, command })
}

/// Reading from `i` on depends on the arguments from `i` on only.
proof fn lemma_parse_tail(a1: Seq<Seq<char>>, a2: Seq<Seq<char>>, i: int, st: ParseModel)
    requires
        0 <= i,
        a1.len() == a2.len(),
        forall|j: int| i <= j < a1.len() ==> a1[j] == a2[j],
    ensures
        parse_args(a1, i, st) == parse_args(a2, i, st),
    decreases a1.len() - i,
{
    if i < a1.len() {
        let a = a1[i];
        assert(a2[i] == a);
        if i + 1 < a1.len() {
            assert(a2[i + 1] == a1[i + 1]);
        }
        if st.after_dashes {
            if let Ok(next) = take_operand(st, a) {
                lemma_parse_tail(a1, a2, i + 1, next);
            }
        } else if a == "--"@ {
            lemma_parse_tail(a1, a2, i + 1, ParseModel { after_dashes: true, ..st });
        } else if a == "--repo"@ {
            if i + 1 < a1.len() {
                lemma_parse_tail(a1, a2, i + 2, ParseModel { repo: Some(a1[i + 1]), ..st });
            }
        } else if a.len() >= 7 && a.subrange(0, 7) == "--repo="@ {
            lemma_parse_tail(
                a1,
                a2,
                i + 1,
                ParseModel { repo: Some(a.subrange(7, a.len() as int)), ..st },
            );
        } else if a == "--help"@ || a == "-h"@ || a == "--version"@ || a == "-V"@ {
        } else if st.stage == Stage::Diff && a == "--watch"@ {
            lemma_parse_tail(a1, a2, i + 1, ParseModel { watch: true, ..st });
        } else if st.stage == Stage::Diff && a == "--staged"@ {
            lemma_parse_tail(a1, a2, i + 1, ParseModel { staged: true, ..st });
        } else if st.stage == Stage::Diff && a == "--exclude-untracked"@ {
            lemma_parse_tail(a1, a2, i + 1, ParseModel { exclude_untracked: true, ..st });
        } else if is_flag(a) {
        } else {
            if let Ok(next) = take_operand(st, a) {
                lemma_parse_tail(a1, a2, i + 1, next);
            }
        }
    }
}

/// `--repo` is global: `--repo PATH` means the same before the first argument as after
/// it, unless that argument is itself a `--repo` option.
pub proof fn lemma_repo_selector_anywhere(path: Seq<char>, a: Seq<char>, rest: Seq<Seq<char>>)
    requires
        a != "--repo"@,
        !(a.len() >= 7 && a.subrange(0, 7) == "--repo="@),
    ensures
        command_line(seq!["--repo"@, path, a] + rest) == command_line(
            seq![a, "--repo"@, path] + rest,
        ),
{
    reveal_strlit("--");
    reveal_strlit("--repo");
    reveal_strlit("--repo=");
    reveal_strlit("--help");
    reveal_strlit("-h");
    reveal_strlit("--version");
    reveal_strlit("-V");
    reveal_strlit("--watch");
    reveal_strlit("--staged");
    reveal_strlit("--exclude-untracked");
    let a1 = seq!["--repo"@, path, a] + rest;
    let a2 = seq![a, "--repo"@, path] + rest;
    let st0 = initial_model();
    let with_repo = ParseModel { repo: Some(path), ..st0 };
    assert(a1[0] == "--repo"@ && a1[1] == path && a1[2] == a);
    assert(a2[0] == a && a2[1] == "--repo"@ && a2[2] == path);
    assert(forall|j: int| 3 <= j < a1.len() ==> a1[j] == a2[j]);
    // Both lines reach the same state after their first three arguments, or fail alike.
    assert(parse_args(a1, 0, st0) == parse_args(a1, 2, with_repo));
    assert(a != "--repo"@);
    if a == "--"@ {
        assert(parse_args(a1, 2, with_repo) == Err::<ParseModel, (CliErrorKind, Seq<char>)>((CliErrorKind::UnexpectedArgument, a)));
        assert(parse_args(a2, 0, st0) == Err::<ParseModel, (CliErrorKind, Seq<char>)>((CliErrorKind::UnexpectedArgument, a)));
    } else if a == "--help"@ || a == "-h"@ {
        assert(parse_args(a1, 2, with_repo) == Err::<ParseModel, (CliErrorKind, Seq<char>)>((CliErrorKind::HelpRequested, a)));
        assert(parse_args(a2, 0, st0) == Err::<ParseModel, (CliErrorKind, Seq<char>)>((CliErrorKind::HelpRequested, a)));
    } else if a == "--version"@ || a == "-V"@ {
        assert(parse_args(a1, 2, with_repo) == Err::<ParseModel, (CliErrorKind, Seq<char>)>((CliErrorKind::VersionRequested, a)));
        assert(parse_args(a2, 0, st0) == Err::<ParseModel, (CliErrorKind, Seq<char>)>((CliErrorKind::VersionRequested, a)));
    } else if is_flag(a) {
        assert(parse_args(a1, 2, with_repo) == Err::<ParseModel, (CliErrorKind, Seq<char>)>((CliErrorKind::UnknownFlag, a)));
        assert(parse_args(a2, 0, st0) == Err::<ParseModel, (CliErrorKind, Seq<char>)>((CliErrorKind::UnknownFlag, a)));
    } else {
        match take_operand(st0, a) {
            Ok(next) => {
                let next_with = ParseModel { repo: Some(path), ..next };
                assert(take_operand(with_repo, a) == Ok::<ParseModel, (CliErrorKind, Seq<char>)>(next_with));
                assert(parse_args(a1, 2, with_repo) == parse_args(a1, 3, next_with));
                assert(parse_args(a2, 0, st0) == parse_args(a2, 1, next));
                assert(!next.after_dashes);
                assert(parse_args(a2, 1, next) == parse_args(a2, 3, next_with));
                lemma_parse_tail(a1, a2, 3, next_with);
            },
            Err(e) => {
                assert(take_operand(with_repo, a) == Err::<ParseModel, (CliErrorKind, Seq<char>)>(e));
                assert(parse_args(a1, 2, with_repo) == Err::<ParseModel, (CliErrorKind, Seq<char>)>(e));
                assert(parse_args(a2, 0, st0) == Err::<ParseModel, (CliErrorKind, Seq<char>)>(e));
            },
        }
    }
}

} // verus!
