//! Where a diff comes from, and the decisions taken on the command line's options
//! before a repository, a patch or two files are read.

use vstd::prelude::*;
use vstd::string::StrSliceExecFns;
use vstd::utf8::*;

use crate::cli::{
    opt_view, strings_view, Command, CommandModel, DiffOptions, Options, PatchOptions,
};
use crate::diff::DiffSet;
use crate::hunk_header::{all_digits, digits_value, is_digit};
use crate::parse::{diff_model, files_match, parse_unified_diff};
use crate::path::{path_file_name, path_file_name_of};
use crate::text::{chars_of, has_prefix, str_equal, str_starts_with, utf8};

verus! {

broadcast use vstd::utf8::encode_utf8_valid_utf8, vstd::utf8::encode_utf8_decode_utf8;

/// Which changes of a repository are shown.
#[derive(Clone, Debug, PartialEq, Eq)]
pub enum GitDiffSource {
    Changes,
    Staged(Option<String>),
    Comparison(String),
    Commit(Option<String>),
    Stash(Option<String>),
}

/// The first seven characters of a revision, or all of it when it is shorter.
pub open spec fn abbreviated_of(value: Seq<char>) -> Seq<char> {
    if value.len() >= 7 {
        value.subrange(0, 7)
    } else {
        value
    }
}

/// The first seven characters of a revision, or all of it when it is shorter.
pub fn abbreviated(value: &str) -> (r: &str)
    ensures
        r@ == abbreviated_of(value@),
{
    let n = value.unicode_len();
    if n >= 7 {
        value.substring_char(0, 7)
    } else {
        value
    }
}

/// The name of a source in the source picker.
pub open spec fn source_label(source: GitDiffSource) -> Seq<char> {
    match source {
        GitDiffSource::Changes => "Changes"@,
        GitDiffSource::Staged(_) => "Staged changes"@,
        GitDiffSource::Comparison(target) => "Compare "@ + target@,
        GitDiffSource::Commit(Some(target)) => "Commit "@ + abbreviated_of(target@),
        GitDiffSource::Commit(None) => "Latest commit"@,
        GitDiffSource::Stash(Some(reference)) => reference@,
        GitDiffSource::Stash(None) => "Latest stash"@,
    }
}

impl GitDiffSource {
    /// The name of the source in the source picker.
    pub fn label(&self) -> (r: String)
        ensures
            r@ == source_label(*self),
    {
        match self {
            GitDiffSource::Changes => String::from_str("Changes"),
            GitDiffSource::Staged(_) => String::from_str("Staged changes"),
            GitDiffSource::Comparison(target) => {
                let mut s = String::from_str("Compare ");
                s.append(target.as_str());
                s
            },
            GitDiffSource::Commit(Some(target)) => {
                let mut s = String::from_str("Commit ");
                s.append(abbreviated(target.as_str()));
                s
            },
            GitDiffSource::Commit(None) => String::from_str("Latest commit"),
            GitDiffSource::Stash(Some(reference)) => reference.clone(),
            GitDiffSource::Stash(None) => String::from_str("Latest stash"),
        }
    }
}

/// Why a repository is read with `--repo`: refused for a patch, which names no repository.
pub open spec fn options_rejected(repo: Option<Seq<char>>, command: CommandModel) -> bool {
    repo is Some && command is Patch
}

/// Refuses `--repo` together with `patch`; accepts every other command line.
pub fn validate_options(options: &Options) -> (r: Result<(), String>)
    ensures
        r is Err <==> options_rejected(opt_view(options.repo), options.command.model()),
        r matches Err(message) ==> message@ == "--repo cannot be used with patch"@,
{
    if options.repo.is_some() {
        if let Command::Patch(_) = &options.command {
            return Err(String::from_str("--repo cannot be used with patch"));
        }
    }
    Ok(())
}

/// Whether `diff` names two existing files to compare: two targets, no `--staged` and no
/// paths after `--` (whether both are files is for the caller to see).
pub fn names_two_files(options: &DiffOptions) -> (r: bool)
    ensures
        r == (options.targets@.len() == 2 && !options.staged && options.pathspecs@.len() == 0),
{
    options.targets.len() == 2 && !options.staged && options.pathspecs.len() == 0
}

/// The Git comparison that `diff` asks for.
#[derive(Clone, Debug, PartialEq, Eq)]
pub struct DiffPlan {
    pub target: Option<String>,
    pub staged: bool,
    pub include_untracked: bool,
    pub pathspecs: Vec<String>,
}

/// The paths a Git diff is limited to: those after `--`, or, when there are none, the
/// targets after the first.
pub open spec fn plan_pathspecs(targets: Seq<Seq<char>>, pathspecs: Seq<Seq<char>>) -> Seq<Seq<char>> {
    if pathspecs.len() == 0 && targets.len() > 1 {
        targets.subrange(1, targets.len() as int)
    } else {
        pathspecs
    }
}

/// The message for more than one target with `--staged` or paths after `--`.
pub open spec fn too_many_targets_message() -> Seq<char> {
    "diff accepts at most one Git target when --staged or pathspecs after -- are used"@
}

fn clone_strings(v: &[String]) -> (r: Vec<String>)
    ensures
        strings_view(r@) == strings_view(v@),
{
    let mut out: Vec<String> = Vec::new();
    let mut i: usize = 0;
    while i < v.len()
        invariant
            i <= v@.len(),
            out@.len() == i,
            forall|k: int| 0 <= k < i ==> #[trigger] out@[k]@ == v@[k]@,
        decreases v@.len() - i,
    {
        let x = v[i].clone();
        out.push(x);
        i += 1;
    }
    assert(strings_view(out@) =~= strings_view(v@));
    out
}

fn clone_strings_from(v: &Vec<String>, from: usize) -> (r: Vec<String>)
    requires
        from <= v@.len(),
    ensures
        strings_view(r@) == strings_view(v@).subrange(from as int, v@.len() as int),
{
    let mut out: Vec<String> = Vec::new();
    let mut i: usize = from;
    while i < v.len()
        invariant
            from <= i <= v@.len(),
            out@.len() == i - from,
            forall|k: int| 0 <= k < i - from ==> #[trigger] out@[k]@ == v@[from + k]@,
        decreases v@.len() - i,
    {
        let x = v[i].clone();
        out.push(x);
        i += 1;
    }
    assert(strings_view(out@) =~= strings_view(v@).subrange(from as int, v@.len() as int));
    out
}

/// The Git comparison of a `diff` that does not compare two files: refused when more
/// than one target comes with `--staged` or with paths after `--`.
pub fn diff_plan(options: &DiffOptions) -> (r: Result<DiffPlan, String>)
    ensures
        r is Err <==> (options.targets@.len() > 1 && (options.staged || options.pathspecs@.len()
            > 0)),
        r matches Err(message) ==> message@ == too_many_targets_message(),
        r matches Ok(plan) ==> {
            &&& opt_view(plan.target) == (if options.targets@.len() > 0 {
                Some(options.targets@[0]@)
            } else {
                None
            })
            &&& plan.staged == options.staged
            &&& plan.include_untracked == !options.exclude_untracked
            &&& strings_view(plan.pathspecs@) == plan_pathspecs(
                strings_view(options.targets@),
                strings_view(options.pathspecs@),
            )
        },
{
    if options.targets.len() > 1 && (options.staged || options.pathspecs.len() > 0) {
        return Err(
            String::from_str(
                "diff accepts at most one Git target when --staged or pathspecs after -- are used",
            ),
        );
    }
    let target = if options.targets.len() > 0 {
        Some(options.targets[0].clone())
    } else {
        None
    };
    let pathspecs = if options.pathspecs.len() == 0 && options.targets.len() > 1 {
        clone_strings_from(&options.targets, 1)
    } else {
        clone_strings(options.pathspecs.as_slice())
    };
    Ok(
        DiffPlan {
            target,
            staged: options.staged,
            include_untracked: !options.exclude_untracked,
            pathspecs,
        },
    )
}

/// What the source picker starts from: the source, whether untracked files are shown,
/// and the paths the diff is limited to.
pub struct SourceSelection {
    pub source: GitDiffSource,
    pub include_untracked: bool,
    pub pathspecs: Vec<String>,
}

/// The source of the first diff shown in a repository, or `None` for a patch or a
/// comparison of two files, which have no source picker.
pub fn source_selection(command: &Command, compares_files: bool) -> (r: Option<SourceSelection>)
    ensures
        r is None <==> (command is Patch || (command is Diff && compares_files)),
        r matches Some(sel) ==> match *command {
            Command::Diff(o) => {
                let target = if o.targets@.len() > 0 {
                    Some(o.targets@[0]@)
                } else {
                    None
                };
                &&& (if o.staged {
                    sel.source matches GitDiffSource::Staged(t) && opt_view(t) == target
                } else if o.targets@.len() > 0 {
                    sel.source matches GitDiffSource::Comparison(t) && Some(t@) == target
                } else {
                    sel.source == GitDiffSource::Changes
                })
                &&& sel.include_untracked == !o.exclude_untracked
                &&& strings_view(sel.pathspecs@) == plan_pathspecs(
                    strings_view(o.targets@),
                    strings_view(o.pathspecs@),
                )
            },
            Command::Show(o) => {
                &&& sel.source matches GitDiffSource::Commit(t) && opt_view(t) == opt_view(o.target)
                &&& sel.include_untracked
                &&& strings_view(sel.pathspecs@) == strings_view(o.pathspecs@)
            },
            Command::StashShow(o) => {
                &&& sel.source matches GitDiffSource::Stash(t) && opt_view(t) == opt_view(
                    o.reference,
                )
                &&& sel.include_untracked
                &&& sel.pathspecs@.len() == 0
            },
            Command::Patch(_) => false,
        },
{
    match command {
        Command::Diff(o) => {
            if compares_files {
                return None;
            }
            let target = if o.targets.len() > 0 {
                Some(o.targets[0].clone())
            } else {
                None
            };
            let pathspecs = if o.pathspecs.len() == 0 && o.targets.len() > 1 {
                clone_strings_from(&o.targets, 1)
            } else {
                clone_strings(o.pathspecs.as_slice())
            };
            let source = if o.staged {
                GitDiffSource::Staged(target)
            } else {
                match target {
                    Some(t) => GitDiffSource::Comparison(t),
                    None => GitDiffSource::Changes,
                }
            };
            Some(SourceSelection { source, include_untracked: !o.exclude_untracked, pathspecs })
        },
        Command::Show(o) => Some(
            SourceSelection {
                source: GitDiffSource::Commit(o.target.clone()),
                include_untracked: true,
                pathspecs: clone_strings(o.pathspecs.as_slice()),
            },
        ),
        Command::StashShow(o) => Some(
            SourceSelection {
                source: GitDiffSource::Stash(o.reference.clone()),
                include_untracked: true,
                pathspecs: Vec::new(),
            },
        ),
        Command::Patch(_) => None,
    }
}

/// What is read from a repository to show a source.
#[derive(Clone, Debug, PartialEq, Eq)]
pub enum LoadRequest {
    /// A diff of the working tree or the index, against a target when one is named.
    Diff { target: Option<String>, staged: bool, include_untracked: bool, pathspecs: Vec<String> },
    /// The changes of a commit, the latest one when none is named.
    Show { target: Option<String>, pathspecs: Vec<String> },
    /// The changes of a stash, the latest one when none is named.
    Stash { reference: Option<String> },
}

/// What is read to show a source: the working tree's changes and a comparison keep the
/// choice of showing untracked files, staged changes never show them; every source but a
/// stash keeps the paths the diff is limited to.
pub fn load_request(source: &GitDiffSource, include_untracked: bool, pathspecs: &[String]) -> (r: LoadRequest)
    ensures
        match *source {
            GitDiffSource::Changes => r matches LoadRequest::Diff { target, staged, include_untracked: u, pathspecs: p }
                && target is None && !staged && u == include_untracked
                && strings_view(p@) == strings_view(pathspecs@),
            GitDiffSource::Staged(t) => r matches LoadRequest::Diff { target, staged, include_untracked: u, pathspecs: p }
                && opt_view(target) == opt_view(t) && staged && !u
                && strings_view(p@) == strings_view(pathspecs@),
            GitDiffSource::Comparison(t) => r matches LoadRequest::Diff { target, staged, include_untracked: u, pathspecs: p }
                && opt_view(target) == Some(t@) && !staged && u == include_untracked
                && strings_view(p@) == strings_view(pathspecs@),
            GitDiffSource::Commit(t) => r matches LoadRequest::Show { target, pathspecs: p }
                && opt_view(target) == opt_view(t) && strings_view(p@) == strings_view(pathspecs@),
            GitDiffSource::Stash(t) => r matches LoadRequest::Stash { reference } && opt_view(reference)
                == opt_view(t),
        },
{
    match source {
        GitDiffSource::Changes => LoadRequest::Diff {
            target: None,
            staged: false,
            include_untracked,
            pathspecs: clone_strings(pathspecs),
        },
        GitDiffSource::Staged(target) => LoadRequest::Diff {
            target: target.clone(),
            staged: true,
            include_untracked: false,
            pathspecs: clone_strings(pathspecs),
        },
        GitDiffSource::Comparison(target) => LoadRequest::Diff {
            target: Some(target.clone()),
            staged: false,
            include_untracked,
            pathspecs: clone_strings(pathspecs),
        },
        GitDiffSource::Commit(target) => LoadRequest::Show {
            target: target.clone(),
            pathspecs: clone_strings(pathspecs),
        },
        GitDiffSource::Stash(reference) => LoadRequest::Stash { reference: reference.clone() },
    }
}

/// The index in a reference of the form `stash@{N}`.
pub open spec fn stash_index_of(reference: Seq<char>) -> Option<nat> {
    if reference.len() >= 8 && reference.subrange(0, 7) == "stash@{"@ && reference.last() == '}' {
        let digits = reference.subrange(7, reference.len() - 1);
        if digits.len() > 0 && all_digits(digits) {
            Some(digits_value(digits))
        } else {
            None
        }
    } else {
        None
    }
}

/// Splits `stash@{N}` into `N`, as the stash list numbers it; `None` for any other
/// reference, or a number beyond `usize`.
pub fn stash_index(reference: &str) -> (r: Option<usize>)
    ensures
        r matches Some(n) ==> stash_index_of(reference@) == Some(n as nat),
        r is None ==> (stash_index_of(reference@) matches Some(n) ==> n > usize::MAX) || stash_index_of(
            reference@,
        ) is None,
{
    proof {
        reveal_strlit("stash@{");
    }
    let c = chars_of(reference);
    if c.len() < 8 || !str_starts_with(reference, "stash@{") || c[c.len() - 1] != '}' {
        return None;
    }
    let end = c.len() - 1;
    let ghost digits = reference@.subrange(7, end as int);
    let mut value: usize = 0;
    let mut i: usize = 7;
    if i == end {
        return None;
    }
    while i < end
        invariant
            c@ == reference@,
            7 <= i <= end,
            end == c@.len() - 1,
            digits == reference@.subrange(7, end as int),
            forall|k: int| 7 <= k < i ==> is_digit(#[trigger] reference@[k]),
            value == digits_value(reference@.subrange(7, i as int)),
        decreases end - i,
    {
        let ch = c[i];
        if !('0' <= ch && ch <= '9') {
            proof {
                assert(digits[i - 7] == ch);
                assert(!all_digits(digits));
            }
            return None;
        }
        proof {
            assert(reference@.subrange(7, i + 1).drop_last() =~= reference@.subrange(7, i as int));
        }
        let d = (ch as u32 - '0' as u32) as usize;
        match value.checked_mul(10) {
            Some(m) => match m.checked_add(d) {
                Some(v) => {
                    value = v;
                },
                None => {
                    proof {
                        lemma_digits_prefix_bound(digits, i + 1 - 7);
                        assert(digits.subrange(0, i + 1 - 7) =~= reference@.subrange(7, i + 1));
                    }
                    return None;
                },
            },
            None => {
                proof {
                    lemma_digits_prefix_bound(digits, i + 1 - 7);
                    assert(digits.subrange(0, i + 1 - 7) =~= reference@.subrange(7, i + 1));
                    assert(digits_value(reference@.subrange(7, i + 1)) >= value * 10);
                }
                return None;
            },
        }
        i += 1;
    }
    proof {
        assert(reference@.subrange(7, i as int) =~= digits);
        assert forall|k: int| 0 <= k < digits.len() implies is_digit(#[trigger] digits[k]) by {
            assert(digits[k] == reference@[7 + k]);
        }
    }
    Some(value)
}

/// A longer run of digits is worth at least as much as its prefix.
proof fn lemma_digits_prefix_bound(d: Seq<char>, k: int)
    requires
        0 <= k <= d.len(),
        (forall|j: int| 0 <= j < k ==> is_digit(#[trigger] d[j])) ==> true,
    ensures
        all_digits(d) ==> digits_value(d.subrange(0, k)) <= digits_value(d),
    decreases d.len(),
{
    if all_digits(d) {
        if k < d.len() {
            assert(d.drop_last().subrange(0, k) =~= d.subrange(0, k));
            assert forall|j: int| 0 <= j < d.drop_last().len() implies is_digit(
                #[trigger] d.drop_last()[j],
            ) by {
                assert(d.drop_last()[j] == d[j]);
            }
            lemma_digits_prefix_bound(d.drop_last(), k);
        } else {
            assert(d.subrange(0, k) =~= d);
        }
    }
}

/// Where `sep` first occurs in `s`, when it does.
pub open spec fn first_occurrence(s: Seq<char>, sep: Seq<char>, i: int) -> Option<int>
    decreases s.len() - i,
{
    if i < 0 || i >= s.len() || i + sep.len() > s.len() {
        None
    } else if s.subrange(i, i + sep.len()) == sep {
        Some(i)
    } else {
        first_occurrence(s, sep, i + 1)
    }
}

/// The two labels of a revision range: the sides of its first `...`, else of its first
/// `..`, else the range itself and `range`.
pub open spec fn range_labels_of(target: Seq<char>) -> (Seq<char>, Seq<char>) {
    match first_occurrence(target, "..."@, 0) {
        Some(i) => (target.subrange(0, i), target.subrange(i + 3, target.len() as int)),
        None => match first_occurrence(target, ".."@, 0) {
            Some(i) => (target.subrange(0, i), target.subrange(i + 2, target.len() as int)),
            None => (target, "range"@),
        },
    }
}

fn find_dots(c: &Vec<char>, count: usize) -> (r: Option<usize>)
    requires
        count == 2 || count == 3,
    ensures
        r == match first_occurrence(c@, Seq::new(count as nat, |k: int| '.'), 0) {
            Some(i) => Some(i as usize),
            None => None::<usize>,
        },
{
    let ghost sep = Seq::new(count as nat, |k: int| '.');
    let mut i: usize = 0;
    while i < c.len() && count <= c.len() - i
        invariant
            sep == Seq::new(count as nat, |k: int| '.'),
            count == 2 || count == 3,
            i <= c@.len(),
            first_occurrence(c@, sep, i as int) == first_occurrence(c@, sep, 0),
        decreases c@.len() - i,
    {
        let all = c[i] == '.' && c[i + 1] == '.' && (count == 2 || c[i + 2] == '.');
        if all {
            assert(c@.subrange(i as int, i + count) =~= sep);
            return Some(i);
        }
        proof {
            if c@.subrange(i as int, i + count) == sep {
                assert(c@.subrange(i as int, i + count)[0] == sep[0]);
                assert(c@.subrange(i as int, i + count)[1] == sep[1]);
                if count == 3 {
                    assert(c@.subrange(i as int, i + count)[2] == sep[2]);
                }
            }
        }
        i += 1;
    }
    None
}

proof fn lemma_first_occurrence(s: Seq<char>, sep: Seq<char>, j: int)
    requires
        0 <= j,
    ensures
        first_occurrence(s, sep, j) matches Some(i) ==> j <= i && i + sep.len() <= s.len(),
    decreases s.len() - j,
{
    if j < s.len() && j + sep.len() <= s.len() && s.subrange(j, j + sep.len()) != sep {
        lemma_first_occurrence(s, sep, j + 1);
    }
}

/// The labels of the two sides of a revision range.
pub fn range_labels(target: &str) -> (r: (String, String))
    ensures
        (r.0@, r.1@) == range_labels_of(target@),
{
    proof {
        reveal_strlit("...");
        reveal_strlit("..");
        assert("..."@ =~= Seq::new(3, |k: int| '.'));
        assert(".."@ =~= Seq::new(2, |k: int| '.'));
    }
    let c = chars_of(target);
    let n = c.len();
    proof {
        lemma_first_occurrence(target@, "..."@, 0);
        lemma_first_occurrence(target@, ".."@, 0);
    }
    match find_dots(&c, 3) {
        Some(i) => (
            target.substring_char(0, i).to_owned(),
            target.substring_char(i + 3, n).to_owned(),
        ),
        None => match find_dots(&c, 2) {
            Some(i) => (
                target.substring_char(0, i).to_owned(),
                target.substring_char(i + 2, n).to_owned(),
            ),
            None => (target.to_owned(), String::from_str("range")),
        },
    }
}

/// A page of history: at most `page_size` items, and whether more came after them.
pub fn history_page<T>(items: Vec<T>, page_size: usize) -> (r: (Vec<T>, bool))
    ensures
        r.1 == (items@.len() > page_size),
        r.0@ == (if items@.len() > page_size {
            items@.subrange(0, page_size as int)
        } else {
            items@
        }),
{
    let has_more = items.len() > page_size;
    let mut items = items;
    items.truncate(page_size);
    (items, has_more)
}

/// What the view shows: a diff and the words around it.
pub struct Input {
    pub diff: DiffSet,
    pub path_root: Option<String>,
    pub source_name: String,
    pub comparison_label: String,
    pub target_label: String,
    pub empty_title: String,
    pub empty_detail: String,
}

/// The view of a patch read from the file at `patch_path`, or from stdin where there
/// is no path: it is named by the file's name, or `stdin`.
pub fn patch_input(contents: String, patch_path: Option<&str>) -> (r: Input)
    requires
        utf8(contents@).len() <= u32::MAX,
    ensures
        files_match(r.diff.files@, diff_model(utf8(contents@)), contents@),
        r.diff.contexts@.len() == 0,
        r.path_root is None,
        r.source_name@ == match patch_path {
            Some(p) => match path_file_name(p@) {
                Some(f) => f,
                None => "Local patch"@,
            },
            None => "stdin"@,
        },
        r.comparison_label@ == "before"@,
        r.target_label@ == "after"@,
        r.empty_title@ == "No changes in this patch"@,
        r.empty_detail@ == "The patch contains no textual or metadata changes."@,
{
    let source_name = match patch_path {
        Some(p) => patch_source_name(p),
        None => String::from_str("stdin"),
    };
    proof {
        reveal_strlit("stdin");
    }
    Input {
        diff: parse_unified_diff(contents),
        path_root: None,
        source_name,
        comparison_label: String::from_str("before"),
        target_label: String::from_str("after"),
        empty_title: String::from_str("No changes in this patch"),
        empty_detail: String::from_str("The patch contains no textual or metadata changes."),
    }
}

/// The name a patch file is shown by: its file name, or `Local patch`.
pub fn patch_source_name(path: &str) -> (r: String)
    ensures
        r@ == match path_file_name(path@) {
            Some(f) => f,
            None => "Local patch"@,
        },
{
    match path_file_name_of(path) {
        Some(f) => f.to_owned(),
        None => String::from_str("Local patch"),
    }
}

/// Whether a patch is read from stdin: no file, or `-`.
pub fn reads_stdin(options: &PatchOptions) -> (r: bool)
    ensures
        r == match options.file {
            Some(f) => f@ == "-"@,
            None => true,
        },
{
    match &options.file {
        Some(f) => str_equal(f.as_str(), "-"),
        None => true,
    }
}

/// The label of a compared file: its file name, or `file`.
pub fn file_label(path: &str) -> (r: String)
    ensures
        r@ == match path_file_name(path@) {
            Some(f) => f,
            None => "file"@,
        },
{
    match path_file_name_of(path) {
        Some(f) => f.to_owned(),
        None => String::from_str("file"),
    }
}

/// The number of lines `str::lines` yields: one per line break, and one more for text
/// after the last.
pub open spec fn line_count_of(b: Seq<u8>) -> nat {
    b.filter(|x: u8| x == 10u8).len() + if b.len() > 0 && b.last() != 10u8 {
        1nat
    } else {
        0nat
    }
}

/// The number of lines of a text.
pub fn line_count(s: &str) -> (r: usize)
    ensures
        r == line_count_of(utf8(s@)),
{
    let b = s.as_bytes();
    let mut count: usize = 0;
    let mut i: usize = 0;
    while i < b.len()
        invariant
            i <= b@.len(),
            count == b@.take(i as int).filter(|x: u8| x == 10u8).len(),
            count <= i,
            i > 0 && b@[i - 1] != 10 ==> count < i,
        decreases b@.len() - i,
    {
        proof {
            reveal(Seq::filter);
            assert(b@.take(i + 1).drop_last() =~= b@.take(i as int));
        }
        if b[i] == 10 {
            count += 1;
        }
        i += 1;
    }
    proof {
        assert(b@.take(b@.len() as int) =~= b@);
    }
    if b.len() > 0 && b[b.len() - 1] != 10 {
        count + 1
    } else {
        count
    }
}

/// The unified diff that `similar` writes for two texts.
pub uninterp spec fn unified_diff_text(
    before: Seq<char>,
    after: Seq<char>,
    context: usize,
    before_label: Seq<char>,
    after_label: Seq<char>,
) -> Seq<char>;

/// Calls `similar::TextDiff::from_lines(..).unified_diff()` with the given context
/// radius and header, and writes it out; the text is named by `unified_diff_text`.
#[verifier::external_body]
fn unified_diff(
    before: &str,
    after: &str,
    context: usize,
    before_label: &str,
    after_label: &str,
) -> (r: String)
    ensures
        r@ == unified_diff_text(before@, after@, context, before_label@, after_label@),
{
    similar::TextDiff::from_lines(before, after).unified_diff().context_radius(context).header(
        before_label,
        after_label,
    ).to_string()
}

/// The larger of the line counts of two texts.
pub open spec fn comparison_context(before: Seq<char>, after: Seq<char>) -> usize {
    let a = line_count_of(utf8(before));
    let b = line_count_of(utf8(after));
    (if a >= b {
        a
    } else {
        b
    }) as usize
}

/// The unified diff of two files' texts, every line of both kept as context.
pub fn comparison_patch(before: &str, after: &str, before_label: &str, after_label: &str) -> (r:
    String)
    ensures
        r@ == unified_diff_text(
            before@,
            after@,
            comparison_context(before@, after@),
            before_label@,
            after_label@,
        ),
{
    let a = line_count(before);
    let b = line_count(after);
    let context = if a >= b {
        a
    } else {
        b
    };
    unified_diff(before, after, context, before_label, after_label)
}

/// The view of a comparison of two files, from the patch that compares them.
pub fn file_comparison_input(patch: String, comparison_label: String, target_label: String) -> (r:
    Input)
    requires
        utf8(patch@).len() <= u32::MAX,
    ensures
        files_match(r.diff.files@, diff_model(utf8(patch@)), patch@),
        r.diff.contexts@.len() == 0,
        r.path_root is None,
        r.source_name@ == "File comparison"@,
        r.comparison_label@ == comparison_label@,
        r.target_label@ == target_label@,
        r.empty_title@ == "Files are identical"@,
        r.empty_detail@ == "No textual changes were found between the two files."@,
{
    Input {
        diff: parse_unified_diff(patch),
        path_root: None,
        source_name: String::from_str("File comparison"),
        comparison_label,
        target_label,
        empty_title: String::from_str("Files are identical"),
        empty_detail: String::from_str("No textual changes were found between the two files."),
    }
}

/// The view of Git's changes: the working tree against a base, or, when `staged`, the
/// index against a base. A range of revisions names its own right side; otherwise the
/// right side is the index or the working tree.
pub fn changes_input(
    diff: DiffSet,
    path_root: Option<String>,
    source_name: String,
    comparison_label: String,
    target_label: Option<String>,
    staged: bool,
) -> (r: Input)
    ensures
        r.diff == diff,
        r.path_root == path_root,
        r.source_name@ == source_name@,
        r.comparison_label@ == comparison_label@,
        r.target_label@ == match target_label {
            Some(t) => t@,
            None => if staged {
                "index"@
            } else {
                "working tree"@
            },
        },
        r.empty_title@ == if staged {
            "No staged changes"@
        } else {
            "Working tree is clean"@
        },
        r.empty_detail@ == if staged {
            "The index contains no changes for this comparison."@
        } else {
            "No matching textual or metadata changes were found."@
        },
{
    let target_label = match target_label {
        Some(t) => t,
        None => if staged {
            String::from_str("index")
        } else {
            String::from_str("working tree")
        },
    };
    Input {
        diff,
        path_root,
        source_name,
        comparison_label,
        target_label,
        empty_title: if staged {
            String::from_str("No staged changes")
        } else {
            String::from_str("Working tree is clean")
        },
        empty_detail: if staged {
            String::from_str("The index contains no changes for this comparison.")
        } else {
            String::from_str("No matching textual or metadata changes were found.")
        },
    }
}

/// The commit that `show` shows: the one named, or `HEAD`.
pub fn shown_commit(target: Option<&str>) -> (r: &str)
    ensures
        r@ == match target {
            Some(t) => t@,
            None => "HEAD"@,
        },
{
    match target {
        Some(t) => t,
        None => "HEAD",
    }
}

/// The view of one commit against its first parent; a root commit is compared with
/// the empty tree.
pub fn commit_input(
    diff: DiffSet,
    path_root: Option<String>,
    source_name: String,
    parent_label: Option<String>,
    requested: &str,
) -> (r: Input)
    ensures
        r.diff == diff,
        r.path_root == path_root,
        r.source_name@ == source_name@,
        r.comparison_label@ == match parent_label {
            Some(p) => p@,
            None => "empty tree"@,
        },
        r.target_label@ == requested@,
        r.empty_title@ == "Commit has no matching changes"@,
        r.empty_detail@ == "No textual or metadata changes matched this comparison."@,
{
    Input {
        diff,
        path_root,
        source_name,
        comparison_label: match parent_label {
            Some(p) => p,
            None => String::from_str("empty tree"),
        },
        target_label: requested.to_owned(),
        empty_title: String::from_str("Commit has no matching changes"),
        empty_detail: String::from_str("No textual or metadata changes matched this comparison."),
    }
}

/// The stash that `stash show` shows: the one named, or the latest.
pub fn shown_stash(reference: Option<&str>) -> (r: &str)
    ensures
        r@ == match reference {
            Some(t) => t@,
            None => "stash@{0}"@,
        },
{
    match reference {
        Some(t) => t,
        None => "stash@{0}",
    }
}

/// The view of a stash against the commit it was made on.
pub fn stash_input(
    diff: DiffSet,
    path_root: Option<String>,
    source_name: String,
    base_label: String,
    requested: &str,
) -> (r: Input)
    ensures
        r.diff == diff,
        r.path_root == path_root,
        r.source_name@ == source_name@,
        r.comparison_label@ == base_label@,
        r.target_label@ == requested@,
        r.empty_title@ == "Stash has no changes"@,
        r.empty_detail@ == "The selected stash contains no textual or metadata changes."@,
{
    Input {
        diff,
        path_root,
        source_name,
        comparison_label: base_label,
        target_label: requested.to_owned(),
        empty_title: String::from_str("Stash has no changes"),
        empty_detail: String::from_str("The selected stash contains no textual or metadata changes."),
    }
}

} // verus!
