//! The sidebar's tree of changed files: directories and files in the order the diff
//! first reaches them, chains of lone subdirectories folded into one row, and the
//! directories that stay pinned while the tree scrolls.

use vstd::prelude::*;
use vstd::string::StrSliceExecFns;
use vstd::utf8::*;

use crate::diff::DiffFile;
use crate::language::display_chars;
use crate::text::{chars_of, str_equal, utf8};
use vstd::string::StringExecFns;

verus! {

broadcast use vstd::utf8::encode_utf8_valid_utf8, vstd::utf8::encode_utf8_decode_utf8;

/// Whether `c` separates path components.
pub open spec fn is_separator(c: char) -> bool {
    c == '/' || c == '\\'
}

/// The first index at or after `i` that is not a separator.
pub open spec fn skip_separators(s: Seq<char>, i: int) -> int
    decreases s.len() - i,
{
    if i < 0 || i >= s.len() || !is_separator(s[i]) {
        i
    } else {
        skip_separators(s, i + 1)
    }
}

/// The first index at or after `i` that is a separator.
pub open spec fn component_end(s: Seq<char>, i: int) -> int
    decreases s.len() - i,
{
    if i < 0 || i >= s.len() || is_separator(s[i]) {
        i
    } else {
        component_end(s, i + 1)
    }
}

/// Skipping separators stops within the path.
pub proof fn lemma_skip_separators(s: Seq<char>, i: int)
    requires
        0 <= i <= s.len(),
    ensures
        i <= skip_separators(s, i) <= s.len(),
    decreases s.len() - i,
{
    if i < s.len() && is_separator(s[i]) {
        lemma_skip_separators(s, i + 1);
    }
}

/// A component ends within the path, past its start when it starts on a character that is
/// not a separator.
pub proof fn lemma_component_end(s: Seq<char>, i: int)
    requires
        0 <= i <= s.len(),
    ensures
        i <= component_end(s, i) <= s.len(),
        i < s.len() && !is_separator(s[i]) ==> i < component_end(s, i),
    decreases s.len() - i,
{
    if i < s.len() && !is_separator(s[i]) {
        lemma_component_end(s, i + 1);
    }
}

/// The non-empty components of `s[i..]` between `'/'` and `'\\'` separators.
pub open spec fn components_from(s: Seq<char>, i: int) -> Seq<Seq<char>>
    decreases s.len() - i,
{
    let a = skip_separators(s, i);
    if i < 0 || a < i || a >= s.len() {
        seq![]
    } else {
        let b = component_end(s, a);
        proof {
            lemma_component_end(s, a);
        }
        if b <= a {
            seq![]
        } else {
            seq![s.subrange(a, b)] + components_from(s, b)
        }
    }
}

/// The non-empty components of a path, split at `'/'` and at `'\\'`.
pub open spec fn path_components(p: Seq<char>) -> Seq<Seq<char>> {
    components_from(p, 0)
}

/// The characters of each string slice.
pub open spec fn strs_view(v: Seq<&str>) -> Seq<Seq<char>> {
    v.map_values(|s: &str| s@)
}

/// The non-empty components of a path, as `path_components` describes them.
pub fn normalized_path_components(path: &str) -> (r: Vec<&str>)
    ensures
        strs_view(r@) == path_components(path@),
{
    let c = chars_of(path);
    let mut out: Vec<&str> = Vec::new();
    let mut i: usize = 0;
    let ghost mut done: Seq<Seq<char>> = seq![];
    loop
        invariant
            c@ == path@,
            i <= c@.len(),
            strs_view(out@) == done,
            components_from(path@, 0) == done + components_from(path@, i as int),
        ensures
            strs_view(out@) == done,
            components_from(path@, 0) == done,
        decreases c@.len() - i,
    {
        let mut a = i;
        while a < c.len() && (c[a] == '/' || c[a] == '\\')
            invariant
                c@ == path@,
                i <= a <= c@.len(),
                skip_separators(path@, a as int) == skip_separators(path@, i as int),
            decreases c@.len() - a,
        {
            a += 1;
        }
        if a >= c.len() {
            proof {
                assert(components_from(path@, i as int) =~= seq![]);
                assert(done + seq![] =~= done);
            }
            break;
        }
        let mut b = a;
        while b < c.len() && !(c[b] == '/' || c[b] == '\\')
            invariant
                c@ == path@,
                a <= b <= c@.len(),
                component_end(path@, b as int) == component_end(path@, a as int),
            decreases c@.len() - b,
        {
            b += 1;
        }
        let w = path.substring_char(a, b);
        proof {
            lemma_component_end(path@, a as int);
            let ws = components_from(path@, i as int);
            assert(ws == seq![path@.subrange(a as int, b as int)] + components_from(
                path@,
                b as int,
            ));
            assert(done + ws =~= (done.push(w@)) + components_from(path@, b as int));
            done = done.push(w@);
        }
        out.push(w);
        proof {
            assert(strs_view(out@) =~= done);
        }
        i = b;
    }
    out
}

/// An entry of a directory: a subdirectory by name, or a file by its index in the diff.
pub enum EntryModel {
    Directory(Seq<char>),
    File(usize),
}

/// Whether the components `c` lie strictly below the directory `pre`.
pub open spec fn lies_under(c: Seq<Seq<char>>, pre: Seq<Seq<char>>) -> bool {
    pre.len() < c.len() && c.subrange(0, pre.len() as int) == pre
}

/// The entries of the directory `pre` that the first `n` files make, in the order
/// the files first reach them: a file directly in it, or a subdirectory.
pub open spec fn entries_upto(comps: Seq<Seq<Seq<char>>>, pre: Seq<Seq<char>>, n: int) -> Seq<
    EntryModel,
>
    decreases n,
{
    if n <= 0 || n > comps.len() {
        seq![]
    } else {
        let es = entries_upto(comps, pre, n - 1);
        let c = comps[n - 1];
        if lies_under(c, pre) {
            if c.len() == pre.len() + 1 {
                es.push(EntryModel::File((n - 1) as usize))
            } else if es.contains(EntryModel::Directory(c[pre.len() as int])) {
                es
            } else {
                es.push(EntryModel::Directory(c[pre.len() as int]))
            }
        } else {
            es
        }
    }
}

/// The entries of the directory `pre`.
pub open spec fn entries_of(comps: Seq<Seq<Seq<char>>>, pre: Seq<Seq<char>>) -> Seq<EntryModel> {
    entries_upto(comps, pre, comps.len() as int)
}

/// The most components any file has.
pub open spec fn max_depth(comps: Seq<Seq<Seq<char>>>) -> int
    decreases comps.len(),
{
    if comps.len() == 0 {
        0
    } else {
        let m = max_depth(comps.drop_last());
        if comps.last().len() > m {
            comps.last().len() as int
        } else {
            m
        }
    }
}

proof fn lemma_max_depth(comps: Seq<Seq<Seq<char>>>, i: int)
    requires
        0 <= i < comps.len(),
    ensures
        comps[i].len() <= max_depth(comps),
        max_depth(comps) >= 0,
    decreases comps.len(),
{
    if i < comps.len() - 1 {
        lemma_max_depth(comps.drop_last(), i);
    }
}

proof fn lemma_max_depth_nonnegative(comps: Seq<Seq<Seq<char>>>)
    ensures
        max_depth(comps) >= 0,
    decreases comps.len(),
{
    if comps.len() > 0 {
        lemma_max_depth_nonnegative(comps.drop_last());
    }
}

/// Every entry comes from a file below the directory: a subdirectory from one below it.
proof fn lemma_entries_witness(comps: Seq<Seq<Seq<char>>>, pre: Seq<Seq<char>>, n: int)
    requires
        0 <= n <= comps.len(),
    ensures
        entries_upto(comps, pre, n).len() > 0 ==> pre.len() < max_depth(comps),
        forall|x: Seq<char>|
            #[trigger] entries_upto(comps, pre, n).contains(EntryModel::Directory(x)) ==> pre.push(
                x,
            ).len() < max_depth(comps),
    decreases n,
{
    lemma_max_depth_nonnegative(comps);
    if n > 0 {
        lemma_entries_witness(comps, pre, n - 1);
        let es = entries_upto(comps, pre, n - 1);
        let c = comps[n - 1];
        lemma_max_depth(comps, n - 1);
        if lies_under(c, pre) {
            let all = entries_upto(comps, pre, n);
            assert forall|x: Seq<char>| #[trigger]
                all.contains(EntryModel::Directory(x)) implies pre.push(x).len() < max_depth(
                comps,
            ) by {
                if !es.contains(EntryModel::Directory(x)) {
                    let k = choose|k: int| 0 <= k < all.len() && all[k] == EntryModel::Directory(x);
                    assert(k == es.len());
                }
            }
        }
    }
}

/// Where a folded chain of lone subdirectories ends: while the directory holds exactly
/// one entry, a subdirectory, and its path is not collapsed, the row goes down into it.
pub open spec fn chain_end(
    comps: Seq<Seq<Seq<char>>>,
    pre: Seq<Seq<char>>,
    path: Seq<char>,
    name: Seq<char>,
    collapsed: Seq<Seq<char>>,
) -> (Seq<Seq<char>>, Seq<char>, Seq<char>)
    decreases max_depth(comps) - pre.len(),
{
    let es = entries_of(comps, pre);
    if pre.len() < max_depth(comps) && es.len() == 1 && es[0] is Directory && !collapsed.contains(
        path,
    ) {
        let x = es[0]->Directory_0;
        chain_end(comps, pre.push(x), path + "/"@ + x, name + "/"@ + x, collapsed)
    } else {
        (pre, path, name)
    }
}

/// A folded chain ends no higher than it starts, and no deeper than the deepest file.
pub proof fn lemma_chain_end(
    comps: Seq<Seq<Seq<char>>>,
    pre: Seq<Seq<char>>,
    path: Seq<char>,
    name: Seq<char>,
    collapsed: Seq<Seq<char>>,
)
    ensures
        chain_end(comps, pre, path, name, collapsed).0.len() >= pre.len(),
        pre.len() <= max_depth(comps) ==> chain_end(comps, pre, path, name, collapsed).0.len()
            <= max_depth(comps),
    decreases max_depth(comps) - pre.len(),
{
    let es = entries_of(comps, pre);
    if pre.len() < max_depth(comps) && es.len() == 1 && es[0] is Directory && !collapsed.contains(
        path,
    ) {
        let x = es[0]->Directory_0;
        lemma_chain_end(comps, pre.push(x), path + "/"@ + x, name + "/"@ + x, collapsed);
    }
}

/// A row of the tree, its strings taken as characters.
pub enum RowModel {
    Directory { path: Seq<char>, name: Seq<char>, depth: int, expanded: bool },
    File { file_index: usize, depth: int },
}

/// The path of a directory named `x` inside the directory at `parent_path`.
pub open spec fn child_path(parent_path: Seq<char>, x: Seq<char>) -> Seq<char> {
    if parent_path.len() == 0 {
        x
    } else {
        parent_path + "/"@ + x
    }
}

/// The rows of the directory `pre`, shown at `depth`, its path being `parent_path`.
pub open spec fn node_rows(
    comps: Seq<Seq<Seq<char>>>,
    pre: Seq<Seq<char>>,
    parent_path: Seq<char>,
    depth: int,
    collapsed: Seq<Seq<char>>,
) -> Seq<RowModel>
    decreases max_depth(comps) - pre.len(), entries_of(comps, pre).len() + 1,
{
    entry_rows(comps, pre, parent_path, depth, collapsed, 0)
}

/// The rows of the entries of the directory `pre` from the `k`-th on: a file is one
/// row; a subdirectory is a row for its folded chain and, unless it is collapsed, the
/// rows of the directory the chain ends in, one level deeper.
pub open spec fn entry_rows(
    comps: Seq<Seq<Seq<char>>>,
    pre: Seq<Seq<char>>,
    parent_path: Seq<char>,
    depth: int,
    collapsed: Seq<Seq<char>>,
    k: int,
) -> Seq<RowModel>
    decreases max_depth(comps) - pre.len(), entries_of(comps, pre).len() - k,
{
    let es = entries_of(comps, pre);
    if k < 0 || k >= es.len() {
        seq![]
    } else {
        let here = match es[k] {
            EntryModel::File(i) => seq![RowModel::File { file_index: i, depth }],
            EntryModel::Directory(x) => {
                let (pre2, path2, name2) = chain_end(
                    comps,
                    pre.push(x),
                    child_path(parent_path, x),
                    x,
                    collapsed,
                );
                let expanded = !collapsed.contains(path2);
                proof {
                    lemma_chain_end(comps, pre.push(x), child_path(parent_path, x), x, collapsed);
                }
                seq![RowModel::Directory { path: path2, name: name2, depth, expanded }] + if expanded
                    && pre2.len() <= max_depth(comps) {
                    node_rows(comps, pre2, path2, depth + 1, collapsed)
                } else {
                    seq![]
                }
            },
        };
        here + entry_rows(comps, pre, parent_path, depth, collapsed, k + 1)
    }
}

/// The rows of the whole tree of the given paths' components.
pub open spec fn tree_rows(comps: Seq<Seq<Seq<char>>>, collapsed: Seq<Seq<char>>) -> Seq<RowModel> {
    node_rows(comps, seq![], seq![], 0, collapsed)
}

/// The components of each file's shown path.
pub open spec fn file_components(files: Seq<DiffFile>) -> Seq<Seq<Seq<char>>> {
    files.map_values(|f: DiffFile| path_components(display_chars(f)))
}

/// The characters of each string.
pub open spec fn strings_chars(v: Seq<String>) -> Seq<Seq<char>> {
    v.map_values(|s: String| s@)
}

/// A row of the file tree.
#[derive(Clone, Debug, PartialEq, Eq)]
pub enum FileTreeRow {
    Directory { path: String, name: String, depth: usize, expanded: bool },
    File { file_index: usize, depth: usize },
}

impl FileTreeRow {
    /// The row, its strings taken as characters.
    pub open spec fn model(self) -> RowModel {
        match self {
            FileTreeRow::Directory { path, name, depth, expanded } => RowModel::Directory {
                path: path@,
                name: name@,
                depth: depth as int,
                expanded,
            },
            FileTreeRow::File { file_index, depth } => RowModel::File {
                file_index,
                depth: depth as int,
            },
        }
    }
}

/// The rows, their strings taken as characters.
pub open spec fn rows_model(rows: Seq<FileTreeRow>) -> Seq<RowModel> {
    rows.map_values(|r: FileTreeRow| r.model())
}

/// An entry of a directory while the tree is built.
#[derive(Clone, Copy)]
enum TreeEntry<'a> {
    Directory(&'a str),
    File(usize),
}

impl<'a> TreeEntry<'a> {
    spec fn model(self) -> EntryModel {
        match self {
            TreeEntry::Directory(x) => EntryModel::Directory(x@),
            TreeEntry::File(i) => EntryModel::File(i),
        }
    }
}

spec fn entries_view(es: Seq<TreeEntry>) -> Seq<EntryModel> {
    es.map_values(|e: TreeEntry| e.model())
}

/// The components of each path, taken as characters.
pub open spec fn comps_view(c: Seq<Vec<&str>>) -> Seq<Seq<Seq<char>>> {
    c.map_values(|v: Vec<&str>| strs_view(v@))
}

/// Whether the components `c` lie strictly below the directory `pre`.
fn lies_under_of(c: &Vec<&str>, pre: &Vec<&str>) -> (r: bool)
    ensures
        r == lies_under(strs_view(c@), strs_view(pre@)),
{
    if pre.len() >= c.len() {
        return false;
    }
    let mut k: usize = 0;
    while k < pre.len()
        invariant
            pre@.len() < c@.len(),
            k <= pre@.len(),
            forall|j: int| 0 <= j < k ==> c@[j]@ == pre@[j]@,
        decreases pre@.len() - k,
    {
        if !str_equal(c[k], pre[k]) {
            proof {
                assert(strs_view(c@).subrange(0, pre@.len() as int)[k as int] != strs_view(pre@)[k as int]);
            }
            return false;
        }
        k += 1;
    }
    assert(strs_view(c@).subrange(0, pre@.len() as int) =~= strs_view(pre@));
    true
}

/// Whether the entries hold a subdirectory named `name`.
fn has_directory(es: &Vec<TreeEntry>, name: &str) -> (r: bool)
    ensures
        r == entries_view(es@).contains(EntryModel::Directory(name@)),
{
    let mut k: usize = 0;
    while k < es.len()
        invariant
            k <= es@.len(),
            forall|j: int| 0 <= j < k ==> entries_view(es@)[j] != EntryModel::Directory(name@),
        decreases es@.len() - k,
    {
        match es[k] {
            TreeEntry::Directory(x) => {
                if str_equal(x, name) {
                    assert(entries_view(es@)[k as int] == EntryModel::Directory(name@));
                    return true;
                }
            },
            TreeEntry::File(_) => {},
        }
        k += 1;
    }
    false
}

/// The entries of the directory `pre`, as `entries_of` describes them.
fn directory_entries<'a>(comps: &Vec<Vec<&'a str>>, pre: &Vec<&str>) -> (r: Vec<TreeEntry<'a>>)
    ensures
        entries_view(r@) == entries_of(comps_view(comps@), strs_view(pre@)),
{
    let ghost cv = comps_view(comps@);
    let ghost pv = strs_view(pre@);
    let mut out: Vec<TreeEntry<'a>> = Vec::new();
    let mut n: usize = 0;
    while n < comps.len()
        invariant
            cv == comps_view(comps@),
            pv == strs_view(pre@),
            n <= comps@.len(),
            entries_view(out@) == entries_upto(cv, pv, n as int),
        decreases comps@.len() - n,
    {
        let c = &comps[n];
        assert(cv[n as int] == strs_view(c@));
        if lies_under_of(c, pre) {
            if c.len() == pre.len() + 1 {
                out.push(TreeEntry::File(n));
                proof {
                    assert(entries_view(out@) =~= entries_upto(cv, pv, n as int).push(
                        EntryModel::File(n),
                    ));
                }
            } else {
                let name = c[pre.len()];
                assert(cv[n as int][pv.len() as int] == name@);
                if !has_directory(&out, name) {
                    out.push(TreeEntry::Directory(name));
                    proof {
                        assert(entries_view(out@) =~= entries_upto(cv, pv, n as int).push(
                            EntryModel::Directory(name@),
                        ));
                    }
                }
            }
        }
        n += 1;
    }
    out
}

/// Whether a directory path is collapsed.
fn is_collapsed(collapsed: &[String], path: &str) -> (r: bool)
    ensures
        r == strings_chars(collapsed@).contains(path@),
{
    let mut k: usize = 0;
    while k < collapsed.len()
        invariant
            k <= collapsed@.len(),
            forall|j: int| 0 <= j < k ==> strings_chars(collapsed@)[j] != path@,
        decreases collapsed@.len() - k,
    {
        if str_equal(collapsed[k].as_str(), path) {
            assert(strings_chars(collapsed@)[k as int] == path@);
            return true;
        }
        k += 1;
    }
    false
}

/// The rows of the directory `pre` appended to `rows`, as `node_rows` describes them.
fn flatten_file_tree<'a>(
    comps: &Vec<Vec<&'a str>>,
    pre: &Vec<&'a str>,
    parent_path: &str,
    depth: usize,
    collapsed: &[String],
    rows: &mut Vec<FileTreeRow>,
)
    requires
        pre@.len() <= max_depth(comps_view(comps@)),
        depth <= pre@.len(),
    ensures
        rows_model(final(rows)@) == rows_model(old(rows)@) + node_rows(
            comps_view(comps@),
            strs_view(pre@),
            parent_path@,
            depth as int,
            strings_chars(collapsed@),
        ),
    decreases max_depth(comps_view(comps@)) - pre@.len(),
{
    let ghost cv = comps_view(comps@);
    let ghost pv = strs_view(pre@);
    let ghost col = strings_chars(collapsed@);
    let ghost start = rows_model(rows@);
    let es = directory_entries(comps, pre);
    let mut k: usize = 0;
    proof {
        assert(start + entry_rows(cv, pv, parent_path@, depth as int, col, 0) =~= rows_model(rows@)
            + entry_rows(cv, pv, parent_path@, depth as int, col, 0));
    }
    while k < es.len()
        invariant
            cv == comps_view(comps@),
            pv == strs_view(pre@),
            col == strings_chars(collapsed@),
            entries_view(es@) == entries_of(cv, pv),
            pre@.len() <= max_depth(cv),
            depth <= pre@.len(),
            k <= es@.len(),
            start + entry_rows(cv, pv, parent_path@, depth as int, col, 0) == rows_model(rows@)
                + entry_rows(cv, pv, parent_path@, depth as int, col, k as int),
        decreases es@.len() - k,
    {
        let ghost before = rows_model(rows@);
        match es[k] {
            TreeEntry::File(i) => {
                assert(entries_of(cv, pv)[k as int] == EntryModel::File(i));
                rows.push(FileTreeRow::File { file_index: i, depth });
                proof {
                    assert(rows_model(rows@) =~= before + seq![RowModel::File { file_index: i, depth: depth as int }]);
                }
            },
            TreeEntry::Directory(x) => {
                assert(entries_of(cv, pv)[k as int] == EntryModel::Directory(x@));
                proof {
                    lemma_entries_witness(cv, pv, cv.len() as int);
                    assert(entries_of(cv, pv).contains(EntryModel::Directory(x@)));
                }
                let mut cur: Vec<&'a str> = Vec::new();
                let mut j: usize = 0;
                while j < pre.len()
                    invariant
                        j <= pre@.len(),
                        cur@ == pre@.take(j as int),
                    decreases pre@.len() - j,
                {
                    cur.push(pre[j]);
                    proof {
                        assert(cur@ =~= pre@.take(j + 1));
                    }
                    j += 1;
                }
                cur.push(x);
                proof {
                    assert(pre@.take(pre@.len() as int) =~= pre@);
                    assert(strs_view(cur@) =~= pv.push(x@));
                }
                let mut path: String = if parent_path.unicode_len() == 0 {
                    x.to_owned()
                } else {
                    let mut p = parent_path.to_owned();
                    p.append("/");
                    p.append(x);
                    p
                };
                let mut name: String = x.to_owned();
                let ghost target = chain_end(cv, pv.push(x@), child_path(parent_path@, x@), x@, col);
                loop
                    invariant
                        cv == comps_view(comps@),
                        col == strings_chars(collapsed@),
                        chain_end(cv, strs_view(cur@), path@, name@, col) == target,
                        cur@.len() <= max_depth(cv),
                        cur@.len() >= pre@.len() + 1,
                    ensures
                        target == (strs_view(cur@), path@, name@),
                        cur@.len() <= max_depth(cv),
                        cur@.len() >= pre@.len() + 1,
                    decreases max_depth(cv) - cur@.len(),
                {
                    let inner = directory_entries(comps, &cur);
                    let closed = is_collapsed(collapsed, path.as_str());
                    let step: Option<&'a str> = if inner.len() == 1 && !closed {
                        match inner[0] {
                            TreeEntry::Directory(y) => Some(y),
                            TreeEntry::File(_) => None,
                        }
                    } else {
                        None
                    };
                    match step {
                        Some(y) => {
                            proof {
                                lemma_entries_witness(cv, strs_view(cur@), cv.len() as int);
                                assert(entries_of(cv, strs_view(cur@))[0] == EntryModel::Directory(y@));
                            }
                            let ghost old_cur = strs_view(cur@);
                            cur.push(y);
                            path.append("/");
                            path.append(y);
                            name.append("/");
                            name.append(y);
                            proof {
                                assert(strs_view(cur@) =~= old_cur.push(y@));
                            }
                        },
                        None => {
                            proof {
                                if inner@.len() == 1 && !closed {
                                    assert(!(entries_of(cv, strs_view(cur@))[0] is Directory));
                                }
                            }
                            break;
                        },
                    }
                }
                let expanded = !is_collapsed(collapsed, path.as_str());
                rows.push(
                    FileTreeRow::Directory { path: path.clone(), name, depth, expanded },
                );
                let ghost mid = rows_model(rows@);
                proof {
                    assert(mid =~= before + seq![RowModel::Directory { path: target.1, name: target.2, depth: depth as int, expanded }]);
                }
                if expanded {
                    let cur_len = cur.len();
                    assert(depth < cur_len);
                    flatten_file_tree(comps, &cur, path.as_str(), depth + 1, collapsed, rows);
                }
            },
        }
        k += 1;
    }
    proof {
        assert(rows_model(rows@) + entry_rows(cv, pv, parent_path@, depth as int, col, k as int)
            =~= rows_model(rows@));
    }
}

/// The rows of the file tree, as `tree_rows` describes them for the files' shown paths.
pub fn build_file_tree_rows(files: &[DiffFile], collapsed_directories: &[String]) -> (r: Vec<
    FileTreeRow,
>)
    ensures
        rows_model(r@) == tree_rows(file_components(files@), strings_chars(collapsed_directories@)),
{
    let mut comps: Vec<Vec<&str>> = Vec::new();
    let mut i: usize = 0;
    while i < files.len()
        invariant
            i <= files@.len(),
            comps@.len() == i,
            comps_view(comps@) == file_components(files@).take(i as int),
        decreases files@.len() - i,
    {
        let shown = files[i].display_path();
        proof {
            assert(decode_utf8(utf8(shown@)) == shown@);
            assert(shown@ == display_chars(files@[i as int]));
        }
        let parts = normalized_path_components(shown);
        let ghost old_comps = comps@;
        comps.push(parts);
        proof {
            assert(comps@ == old_comps.push(parts));
            assert(comps_view(comps@)[i as int] == strs_view(parts@));
            assert(file_components(files@)[i as int] == path_components(display_chars(files@[i as int])));
            assert forall|j: int| 0 <= j < i implies #[trigger] comps_view(comps@)[j] == comps_view(old_comps)[j] by {
                assert(comps@[j] == old_comps[j]);
            }
            assert(comps_view(comps@) =~= file_components(files@).take(i + 1));
        }
        i += 1;
    }
    proof {
        assert(comps_view(comps@) =~= file_components(files@));
        lemma_max_depth_nonnegative(comps_view(comps@));
        reveal_strlit("");
    }
    let pre: Vec<&str> = Vec::new();
    let mut rows: Vec<FileTreeRow> = Vec::new();
    let top: &str = "";
    proof {
        assert(strs_view(pre@) =~= seq![]);
        assert(rows_model(rows@) =~= seq![]);
        assert(top@ =~= seq![]);
    }
    flatten_file_tree(&comps, &pre, top, 0, collapsed_directories, &mut rows);
    proof {
        assert(seq![] + tree_rows(file_components(files@), strings_chars(collapsed_directories@))
            =~= tree_rows(file_components(files@), strings_chars(collapsed_directories@)));
    }
    rows
}

/// The height of every row of the file tree, in pixels.
pub const TREE_ROW_HEIGHT: u64 = 28;

/// Where each row of the tree starts, and where the last one ends.
pub open spec fn tree_offsets(n: int) -> Seq<u64> {
    Seq::new((n + 1) as nat, |i: int| (28 * i) as u64)
}

/// Where each row of the tree starts, and where the last one ends.
pub fn file_tree_row_offsets(rows: &[FileTreeRow]) -> (r: Vec<u64>)
    requires
        28 * rows@.len() <= u64::MAX,
    ensures
        r@ == tree_offsets(rows@.len() as int),
{
    let mut offsets: Vec<u64> = Vec::new();
    let mut total: u64 = 0;
    offsets.push(total);
    let mut i: usize = 0;
    while i < rows.len()
        invariant
            i <= rows@.len(),
            28 * rows@.len() <= u64::MAX,
            total == 28 * i,
            offsets@ == tree_offsets(i as int),
        decreases rows@.len() - i,
    {
        total = total + TREE_ROW_HEIGHT;
        offsets.push(total);
        proof {
            assert(offsets@ =~= tree_offsets(i + 1));
        }
        i += 1;
    }
    offsets
}

/// The first index at or after `i` whose offset lies beyond `position`.
pub open spec fn first_above(s: Seq<u64>, position: u64, i: int) -> int
    decreases s.len() - i,
{
    if i < 0 || i >= s.len() {
        s.len() as int
    } else if s[i] > position {
        i
    } else {
        first_above(s, position, i + 1)
    }
}

/// Whether the offsets never decrease.
pub open spec fn nondecreasing_offsets(s: Seq<u64>) -> bool {
    forall|i: int, j: int| 0 <= i <= j < s.len() ==> s[i] <= s[j]
}

proof fn lemma_first_above(s: Seq<u64>, position: u64, m: int, i: int)
    requires
        0 <= i <= m <= s.len(),
        forall|j: int| 0 <= j < m ==> s[j] <= position,
        m == s.len() || s[m] > position,
    ensures
        first_above(s, position, i) == m,
    decreases m - i,
{
    if i < m {
        lemma_first_above(s, position, m, i + 1);
    }
}

/// How many offsets lie at or before `position`, found by halving: the offsets of
/// rows never decrease.
fn partition_point(s: &[u64], position: u64) -> (r: usize)
    requires
        nondecreasing_offsets(s@),
    ensures
        r == first_above(s@, position, 0),
{
    let mut lo: usize = 0;
    let mut hi: usize = s.len();
    while lo < hi
        invariant
            nondecreasing_offsets(s@),
            lo <= hi <= s@.len(),
            forall|j: int| 0 <= j < lo ==> s@[j] <= position,
            forall|j: int| hi <= j < s@.len() ==> s@[j] > position,
        decreases hi - lo,
    {
        let mid = lo + (hi - lo) / 2;
        if s[mid] <= position {
            lo = mid + 1;
        } else {
            hi = mid;
        }
    }
    proof {
        lemma_first_above(s@, position, lo as int, 0);
    }
    lo
}

/// The row at a position: the last row that starts at or before it, within the rows.
pub open spec fn row_index_at(s: Seq<u64>, position: u64, row_count: int) -> int {
    let p = first_above(s, position, 0);
    let a = if p > 0 {
        p - 1
    } else {
        0
    };
    let b = if row_count > 0 {
        row_count - 1
    } else {
        0
    };
    if a <= b {
        a
    } else {
        b
    }
}

/// The row at a position, as `row_index_at` describes it.
pub fn row_index_at_position(offsets: &[u64], position: u64, row_count: usize) -> (r: usize)
    requires
        nondecreasing_offsets(offsets@),
    ensures
        r == row_index_at(offsets@, position, row_count as int),
{
    let p = partition_point(offsets, position);
    let a = if p > 0 {
        p - 1
    } else {
        0
    };
    let b = if row_count > 0 {
        row_count - 1
    } else {
        0
    };
    if a <= b {
        a
    } else {
        b
    }
}

/// The last directory row at depth `d` among `rows[lo..hi]`.
pub open spec fn last_directory(rows: Seq<RowModel>, d: int, lo: int, hi: int) -> Option<RowModel>
    decreases hi - lo,
{
    if hi <= lo || hi > rows.len() || lo < 0 {
        None
    } else if rows[hi - 1] matches RowModel::Directory { depth, .. } && depth == d {
        Some(rows[hi - 1])
    } else {
        last_directory(rows, d, lo, hi - 1)
    }
}

/// The rows found for the depths from `d` up to `n`, skipping depths that have none.
pub open spec fn pinned_from(rows: Seq<RowModel>, active: int, d: int, n: int) -> Seq<RowModel>
    decreases n - d,
{
    if d >= n {
        seq![]
    } else {
        (match last_directory(rows, d, 0, active + 1) {
            Some(r) => seq![r],
            None => seq![],
        }) + pinned_from(rows, active, d + 1, n)
    }
}

/// The directories that stay pinned above the tree when it is scrolled to `position`:
/// for each level above the row at the top, the nearest directory of that level at or
/// before it; nothing when the tree is not scrolled.
pub open spec fn sticky_rows(rows: Seq<RowModel>, offsets: Seq<u64>, position: u64) -> Seq<RowModel> {
    if position == 0 || rows.len() == 0 {
        seq![]
    } else {
        let active = row_index_at(offsets, position, rows.len() as int);
        let n = match rows[active] {
            RowModel::Directory { depth, .. } => depth + 1,
            RowModel::File { depth, .. } => depth,
        };
        pinned_from(rows, active, 0, n)
    }
}

/// A copy of a row.
fn copy_row(row: &FileTreeRow) -> (r: FileTreeRow)
    ensures
        r.model() == row.model(),
{
    match row {
        FileTreeRow::Directory { path, name, depth, expanded } => FileTreeRow::Directory {
            path: path.clone(),
            name: name.clone(),
            depth: *depth,
            expanded: *expanded,
        },
        FileTreeRow::File { file_index, depth } => FileTreeRow::File {
            file_index: *file_index,
            depth: *depth,
        },
    }
}

spec fn found_model(o: Option<FileTreeRow>) -> Option<RowModel> {
    match o {
        Some(r) => Some(r.model()),
        None => None,
    }
}

proof fn lemma_last_directory_extend(rows: Seq<RowModel>, d: int, lo: int, hi: int)
    requires
        0 < lo <= hi <= rows.len(),
    ensures
        last_directory(rows, d, lo - 1, hi) == match last_directory(rows, d, lo, hi) {
            Some(r) => Some(r),
            None => if rows[lo - 1] matches RowModel::Directory { depth, .. } && depth == d {
                Some(rows[lo - 1])
            } else {
                None
            },
        },
    decreases hi - lo,
{
    reveal_with_fuel(last_directory, 2);
    if hi > lo {
        lemma_last_directory_extend(rows, d, lo, hi - 1);
    }
}

/// The directories pinned above the tree, as `sticky_rows` describes them.
pub fn sticky_file_tree_directories(rows: &[FileTreeRow], offsets: &[u64], scroll_position: u64) -> (r:
    Vec<FileTreeRow>)
    requires
        nondecreasing_offsets(offsets@),
        forall|i: int|
            0 <= i < rows@.len() ==> (#[trigger] rows@[i] matches FileTreeRow::Directory {
                depth,
                ..
            } ==> depth < usize::MAX),
    ensures
        rows_model(r@) == sticky_rows(rows_model(rows@), offsets@, scroll_position),
{
    let ghost rm = rows_model(rows@);
    if scroll_position == 0 || rows.len() == 0 {
        proof {
            assert(rows_model(Seq::<FileTreeRow>::empty()) =~= seq![]);
        }
        return Vec::new();
    }
    let active = row_index_at_position(offsets, scroll_position, rows.len());
    let depth_count: usize = match &rows[active] {
        FileTreeRow::Directory { depth, .. } => *depth + 1,
        FileTreeRow::File { depth, .. } => *depth,
    };
    let mut found: Vec<Option<FileTreeRow>> = Vec::new();
    let mut d: usize = 0;
    while d < depth_count
        invariant
            d <= depth_count,
            found@.len() == d,
            forall|k: int| 0 <= k < d ==> #[trigger] found@[k] is None,
        decreases depth_count - d,
    {
        found.push(None);
        d += 1;
    }
    let mut lo: usize = active + 1;
    while lo > 0
        invariant
            active < rows@.len(),
            rm == rows_model(rows@),
            lo <= active + 1,
            found@.len() == depth_count,
            forall|k: int|
                0 <= k < depth_count ==> #[trigger] found_model(found@[k]) == last_directory(
                    rm,
                    k,
                    lo as int,
                    active + 1,
                ),
        decreases lo,
    {
        lo -= 1;
        let ghost before = found@;
        let row_depth: Option<usize> = match &rows[lo] {
            FileTreeRow::Directory { depth, .. } => Some(*depth),
            FileTreeRow::File { .. } => None,
        };
        proof {
            assert(rm[lo as int] == rows@[lo as int].model());
        }
        if let Some(dd) = row_depth {
            if dd < found.len() && found[dd].is_none() {
                found.set(dd, Some(copy_row(&rows[lo])));
            }
        }
        proof {
            assert forall|k: int| 0 <= k < depth_count implies #[trigger] found_model(found@[k])
                == last_directory(rm, k, lo as int, active + 1) by {
                lemma_last_directory_extend(rm, k, lo + 1, active + 1);
                assert(found_model(before[k]) == last_directory(rm, k, lo + 1, active + 1));
                if row_depth == Some(k as usize) {
                    assert(rm[lo as int] matches RowModel::Directory { depth, .. } && depth == k);
                } else {
                    assert(!(rm[lo as int] matches RowModel::Directory { depth, .. } && depth == k));
                    assert(found@[k] == before[k]);
                }
            }
        }
    }
    let mut out: Vec<FileTreeRow> = Vec::new();
    let mut k: usize = 0;
    let ghost n = match rm[active as int] {
        RowModel::Directory { depth, .. } => depth + 1,
        RowModel::File { depth, .. } => depth,
    };
    proof {
        assert(rm[active as int] == rows@[active as int].model());
    }
    while k < found.len()
        invariant
            found@.len() == depth_count,
            k <= depth_count,
            forall|j: int|
                0 <= j < depth_count ==> #[trigger] found_model(found@[j]) == last_directory(
                    rm,
                    j,
                    0,
                    active + 1,
                ),
            rows_model(out@) + pinned_from(rm, active as int, k as int, depth_count as int)
                == pinned_from(rm, active as int, 0, depth_count as int),
        decreases depth_count - k,
    {
        let ghost before = rows_model(out@);
        proof {
            assert(pinned_from(rm, active as int, k as int, depth_count as int) == (match last_directory(rm, k as int, 0, active + 1) {
                Some(r) => seq![r],
                None => seq![],
            }) + pinned_from(rm, active as int, k + 1, depth_count as int));
        }
        match &found[k] {
            Some(row) => {
                let c = copy_row(row);
                out.push(c);
                proof {
                    assert(found@[k as int] == Some(*row));
                    assert(found_model(found@[k as int]) == last_directory(rm, k as int, 0, active + 1));
                    assert(last_directory(rm, k as int, 0, active + 1) == Some(row.model()));
                    assert(rows_model(out@) =~= before.push(row.model()));
                    assert(rows_model(out@) + pinned_from(rm, active as int, k + 1, depth_count as int)
                        =~= before + (seq![row.model()] + pinned_from(rm, active as int, k + 1, depth_count as int)));
                }
            },
            None => {
                proof {
                    assert(found@[k as int] is None);
                    assert(found_model(found@[k as int]) == last_directory(rm, k as int, 0, active + 1));
                    assert(last_directory(rm, k as int, 0, active + 1) is None);
                    assert(rows_model(out@) + pinned_from(rm, active as int, k + 1, depth_count as int)
                        =~= before + (seq![] + pinned_from(rm, active as int, k + 1, depth_count as int)));
                }
            },
        }
        proof {
            assert(rows_model(out@) + pinned_from(rm, active as int, k + 1, depth_count as int)
                =~= before + pinned_from(rm, active as int, k as int, depth_count as int));
        }
        k += 1;
    }
    proof {
        assert(rows_model(out@) + seq![] =~= rows_model(out@));
    }
    out
}

/// How many rows show the file `f`.
pub open spec fn file_row_count(rows: Seq<RowModel>, f: usize) -> nat
    decreases rows.len(),
{
    if rows.len() == 0 {
        0
    } else {
        file_row_count(rows.drop_last(), f) + if rows.last() matches RowModel::File {
            file_index,
            ..
        } && file_index == f {
            1nat
        } else {
            0nat
        }
    }
}

proof fn lemma_file_row_count_single(r: RowModel, f: usize)
    ensures
        file_row_count(seq![r], f) == if r matches RowModel::File { file_index, .. } && file_index
            == f {
            1nat
        } else {
            0nat
        },
{
    assert(seq![r].drop_last() =~= Seq::<RowModel>::empty());
    reveal_with_fuel(file_row_count, 2);
}

proof fn lemma_file_row_count_concat(a: Seq<RowModel>, b: Seq<RowModel>, f: usize)
    ensures
        file_row_count(a + b, f) == file_row_count(a, f) + file_row_count(b, f),
    decreases b.len(),
{
    if b.len() == 0 {
        assert(a + b =~= a);
    } else {
        lemma_file_row_count_concat(a, b.drop_last(), f);
        assert((a + b).drop_last() =~= a + b.drop_last());
    }
}

/// Whether an entry of the directory `pre` holds the file `f`: the file itself, or the
/// subdirectory it lies in.
pub open spec fn entry_covers(comps: Seq<Seq<Seq<char>>>, pre: Seq<Seq<char>>, e: EntryModel, f: usize) -> bool {
    match e {
        EntryModel::File(i) => i == f,
        EntryModel::Directory(x) => f < comps.len() && lies_under(comps[f as int], pre.push(x)),
    }
}

/// How many of the entries from the `k`-th on hold the file `f`.
pub open spec fn covering_entries(comps: Seq<Seq<Seq<char>>>, pre: Seq<Seq<char>>, es: Seq<EntryModel>, k: int, f: usize) -> nat
    decreases es.len() - k,
{
    if k < 0 || k >= es.len() {
        0
    } else {
        covering_entries(comps, pre, es, k + 1, f) + if entry_covers(comps, pre, es[k], f) {
            1nat
        } else {
            0nat
        }
    }
}

/// What the entries of a directory are: a file entry for each file directly in it, and
/// one directory entry for each subdirectory that holds a file, none twice.
proof fn lemma_entries_facts(comps: Seq<Seq<Seq<char>>>, pre: Seq<Seq<char>>, n: int)
    requires
        0 <= n <= comps.len(),
        comps.len() <= usize::MAX,
    ensures
        ({
            let es = entries_upto(comps, pre, n);
            &&& forall|a: int, b: int| 0 <= a < b < es.len() ==> es[a] != es[b]
            &&& forall|j: int|
                0 <= j < es.len() ==> (#[trigger] es[j] matches EntryModel::File(i) ==> i < n
                    && lies_under(comps[i as int], pre) && comps[i as int].len() == pre.len() + 1)
            &&& forall|j: int|
                0 <= j < es.len() ==> (#[trigger] es[j] matches EntryModel::Directory(x) ==> exists|i: int|
                    0 <= i < n && lies_under(#[trigger] comps[i], pre.push(x)))
            &&& forall|i: int|
                0 <= i < n && lies_under(#[trigger] comps[i], pre) ==> (if comps[i].len() == pre.len() + 1 {
                    es.contains(EntryModel::File(i as usize))
                } else {
                    es.contains(EntryModel::Directory(comps[i][pre.len() as int]))
                })
        }),
    decreases n,
{
    if n > 0 {
        lemma_entries_facts(comps, pre, n - 1);
        let es0 = entries_upto(comps, pre, n - 1);
        let es = entries_upto(comps, pre, n);
        let c = comps[n - 1];
        let m = pre.len() as int;
        // The entry the file `n - 1` adds, if any.
        let added: Option<EntryModel> = if lies_under(c, pre) {
            if c.len() == m + 1 {
                Some(EntryModel::File((n - 1) as usize))
            } else if es0.contains(EntryModel::Directory(c[m])) {
                None
            } else {
                Some(EntryModel::Directory(c[m]))
            }
        } else {
            None
        };
        assert(es == match added {
            Some(e) => es0.push(e),
            None => es0,
        });
        assert forall|j: int| 0 <= j < es0.len() implies #[trigger] es[j] == es0[j] by {}
        if let Some(EntryModel::Directory(x)) = added {
            assert(c.subrange(0, m + 1) =~= pre.push(x));
        }
        assert forall|i: int|
            0 <= i < n && lies_under(#[trigger] comps[i], pre) implies (if comps[i].len() == pre.len() + 1 {
                es.contains(EntryModel::File(i as usize))
            } else {
                es.contains(EntryModel::Directory(comps[i][pre.len() as int]))
            }) by {
            if i < n - 1 {
                if comps[i].len() == pre.len() + 1 {
                    let t = choose|t: int| 0 <= t < es0.len() && es0[t] == EntryModel::File(i as usize);
                    assert(es[t] == es0[t]);
                } else {
                    let t = choose|t: int| 0 <= t < es0.len() && es0[t] == EntryModel::Directory(comps[i][pre.len() as int]);
                    assert(es[t] == es0[t]);
                }
            } else {
                if comps[i].len() == pre.len() + 1 {
                    assert(es[es0.len() as int] == EntryModel::File(i as usize));
                } else if !es0.contains(EntryModel::Directory(c[m])) {
                    assert(es[es0.len() as int] == EntryModel::Directory(c[m]));
                }
            }
        }
        assert forall|j: int|
            0 <= j < es.len() implies (#[trigger] es[j] matches EntryModel::File(i) ==> i < n
                && lies_under(comps[i as int], pre) && comps[i as int].len() == pre.len() + 1) by {
            if j < es0.len() {
                assert(es[j] == es0[j]);
            }
        }
        assert forall|j: int|
            0 <= j < es.len() implies (#[trigger] es[j] matches EntryModel::Directory(x) ==> exists|i: int|
                0 <= i < n && lies_under(#[trigger] comps[i], pre.push(x))) by {
            if j < es0.len() {
                assert(es[j] == es0[j]);
            } else if let Some(EntryModel::Directory(x)) = added {
                assert(es[j] == EntryModel::Directory(x));
                assert(lies_under(comps[n - 1], pre.push(x)));
            }
        }
        assert forall|a: int, b: int| 0 <= a < b < es.len() implies es[a] != es[b] by {
            if b >= es0.len() {
                assert(es[a] == es0[a]);
                match added {
                    Some(EntryModel::File(_)) => {
                        assert(es[b] == EntryModel::File((n - 1) as usize));
                        if let EntryModel::File(i) = es0[a] {
                            assert(i < n - 1);
                        }
                    },
                    Some(EntryModel::Directory(x)) => {
                        assert(es[b] == EntryModel::Directory(x));
                        assert(es0[a] != EntryModel::Directory(x));
                    },
                    None => {},
                }
            } else {
                assert(es[b] == es0[b]);
                assert(es[a] == es0[a]);
            }
        }
    }
}

/// A file lies below a subdirectory of `pre` only if it lies below `pre`.
proof fn lemma_under_push(c: Seq<Seq<char>>, pre: Seq<Seq<char>>, x: Seq<char>)
    requires
        lies_under(c, pre.push(x)),
    ensures
        lies_under(c, pre),
        c[pre.len() as int] == x,
{
    let n = pre.len() as int;
    let s = c.subrange(0, n + 1);
    assert(s == pre.push(x));
    assert forall|j: int| 0 <= j < n implies #[trigger] c.subrange(0, n)[j] == pre[j] by {
        assert(s[j] == c[j]);
        assert(pre.push(x)[j] == pre[j]);
    }
    assert(c.subrange(0, n) =~= pre);
    assert(s[n] == c[n]);
    assert(pre.push(x)[n] == x);
}

/// The entries of a directory hold each file below it once, and no other file.
proof fn lemma_entries_cover_once(comps: Seq<Seq<Seq<char>>>, pre: Seq<Seq<char>>, f: usize)
    requires
        comps.len() <= usize::MAX,
    ensures
        covering_entries(comps, pre, entries_of(comps, pre), 0, f) == if f < comps.len() && lies_under(comps[f as int], pre) {
            1nat
        } else {
            0nat
        },
{
    let es = entries_of(comps, pre);
    lemma_entries_facts(comps, pre, comps.len() as int);
    // At most one entry holds the file.
    assert forall|a: int, b: int|
        0 <= a < es.len() && 0 <= b < es.len() && entry_covers(comps, pre, es[a], f) && entry_covers(comps, pre, es[b], f) implies a == b by {
        if a != b {
            assert(es[a] != es[b]) by {
                if a < b {
                } else {
                }
            }
            match (es[a], es[b]) {
                (EntryModel::File(i), EntryModel::File(j)) => {},
                (EntryModel::File(i), EntryModel::Directory(y)) => {
                    lemma_under_push(comps[f as int], pre, y);
                },
                (EntryModel::Directory(x), EntryModel::File(j)) => {
                    lemma_under_push(comps[f as int], pre, x);
                },
                (EntryModel::Directory(x), EntryModel::Directory(y)) => {
                    lemma_under_push(comps[f as int], pre, x);
                    lemma_under_push(comps[f as int], pre, y);
                },
            }
        }
    }
    if f < comps.len() && lies_under(comps[f as int], pre) {
        let t = if comps[f as int].len() == pre.len() + 1 {
            choose|t: int| 0 <= t < es.len() && es[t] == EntryModel::File(f)
        } else {
            choose|t: int| 0 <= t < es.len() && es[t] == EntryModel::Directory(comps[f as int][pre.len() as int])
        };
        if comps[f as int].len() > pre.len() + 1 {
            let x = comps[f as int][pre.len() as int];
            assert(comps[f as int].subrange(0, pre.len() as int + 1) =~= pre.push(x));
        }
        assert(entry_covers(comps, pre, es[t], f));
        lemma_count_single(comps, pre, es, 0, f, t);
    } else {
        assert forall|j: int| 0 <= j < es.len() implies !entry_covers(comps, pre, #[trigger] es[j], f) by {
            if let EntryModel::Directory(x) = es[j] {
                if f < comps.len() && lies_under(comps[f as int], pre.push(x)) {
                    lemma_under_push(comps[f as int], pre, x);
                }
            }
        }
        lemma_count_none(comps, pre, es, 0, f);
    }
}

proof fn lemma_count_none(comps: Seq<Seq<Seq<char>>>, pre: Seq<Seq<char>>, es: Seq<EntryModel>, k: int, f: usize)
    requires
        0 <= k,
        forall|j: int| 0 <= j < es.len() ==> !entry_covers(comps, pre, #[trigger] es[j], f),
    ensures
        covering_entries(comps, pre, es, k, f) == 0,
    decreases es.len() - k,
{
    if k < es.len() {
        lemma_count_none(comps, pre, es, k + 1, f);
    }
}

proof fn lemma_count_single(comps: Seq<Seq<Seq<char>>>, pre: Seq<Seq<char>>, es: Seq<EntryModel>, k: int, f: usize, t: int)
    requires
        0 <= k <= t < es.len(),
        entry_covers(comps, pre, es[t], f),
        forall|a: int, b: int|
            0 <= a < es.len() && 0 <= b < es.len() && entry_covers(comps, pre, es[a], f) && entry_covers(comps, pre, es[b], f) ==> a == b,
    ensures
        covering_entries(comps, pre, es, k, f) == 1,
    decreases es.len() - k,
{
    if k < t {
        lemma_count_single(comps, pre, es, k + 1, f, t);
    } else {
        assert forall|j: int| 0 <= j < es.len() && j > t implies !entry_covers(comps, pre, #[trigger] es[j], f) by {}
        lemma_count_after(comps, pre, es, t + 1, f, t);
    }
}

proof fn lemma_count_after(comps: Seq<Seq<Seq<char>>>, pre: Seq<Seq<char>>, es: Seq<EntryModel>, k: int, f: usize, t: int)
    requires
        t < k,
        forall|j: int| 0 <= j < es.len() && j > t ==> !entry_covers(comps, pre, #[trigger] es[j], f),
    ensures
        covering_entries(comps, pre, es, k, f) == 0,
    decreases es.len() - k,
{
    if 0 <= k < es.len() {
        lemma_count_after(comps, pre, es, k + 1, f, t);
    }
}

/// Along a folded chain every file below its start lies below its end.
proof fn lemma_chain_keeps_files(comps: Seq<Seq<Seq<char>>>, pre: Seq<Seq<char>>, path: Seq<char>, name: Seq<char>, f: usize)
    requires
        comps.len() <= usize::MAX,
        f < comps.len(),
    ensures
        lies_under(comps[f as int], pre) <==> lies_under(comps[f as int], chain_end(comps, pre, path, name, seq![]).0),
    decreases max_depth(comps) - pre.len(),
{
    let es = entries_of(comps, pre);
    if pre.len() < max_depth(comps) && es.len() == 1 && es[0] is Directory && !Seq::<Seq<char>>::empty().contains(path) {
        let y = es[0]->Directory_0;
        lemma_entries_facts(comps, pre, comps.len() as int);
        if lies_under(comps[f as int], pre) {
            if comps[f as int].len() == pre.len() + 1 {
                assert(es.contains(EntryModel::File(f)));
                assert(false);
            } else {
                let x = comps[f as int][pre.len() as int];
                assert(es.contains(EntryModel::Directory(x)));
                assert(x == y);
                assert(comps[f as int].subrange(0, pre.len() as int + 1) =~= pre.push(y));
            }
        }
        if lies_under(comps[f as int], pre.push(y)) {
            lemma_under_push(comps[f as int], pre, y);
        }
        lemma_chain_keeps_files(comps, pre.push(y), path + "/"@ + y, name + "/"@ + y, f);
    }
}

/// With no directory collapsed, the rows of a directory show each file below it once and
/// no other file.
proof fn lemma_node_rows_count(comps: Seq<Seq<Seq<char>>>, pre: Seq<Seq<char>>, parent_path: Seq<char>, depth: int, f: usize)
    requires
        comps.len() <= usize::MAX,
    ensures
        file_row_count(node_rows(comps, pre, parent_path, depth, seq![]), f) == if f < comps.len() && lies_under(comps[f as int], pre) {
            1nat
        } else {
            0nat
        },
    decreases max_depth(comps) - pre.len(), entries_of(comps, pre).len() + 1,
{
    lemma_entry_rows_count(comps, pre, parent_path, depth, f, 0);
    lemma_entries_cover_once(comps, pre, f);
}

proof fn lemma_entry_rows_count(comps: Seq<Seq<Seq<char>>>, pre: Seq<Seq<char>>, parent_path: Seq<char>, depth: int, f: usize, k: int)
    requires
        comps.len() <= usize::MAX,
    ensures
        file_row_count(entry_rows(comps, pre, parent_path, depth, seq![], k), f) == covering_entries(comps, pre, entries_of(comps, pre), k, f),
    decreases max_depth(comps) - pre.len(), entries_of(comps, pre).len() - k,
{
    let es = entries_of(comps, pre);
    if 0 <= k < es.len() {
        lemma_entry_rows_count(comps, pre, parent_path, depth, f, k + 1);
        let rest = entry_rows(comps, pre, parent_path, depth, seq![], k + 1);
        match es[k] {
            EntryModel::File(i) => {
                let here = seq![RowModel::File { file_index: i, depth }];
                lemma_file_row_count_concat(here, rest, f);
                lemma_file_row_count_single(here[0], f);
                assert(here =~= seq![here[0]]);
                assert(entry_rows(comps, pre, parent_path, depth, seq![], k) == here + rest);
                assert(file_row_count(here, f) == if i == f { 1nat } else { 0nat });
            },
            EntryModel::Directory(x) => {
                let col: Seq<Seq<char>> = seq![];
                let (pre2, path2, name2) = chain_end(comps, pre.push(x), child_path(parent_path, x), x, col);
                lemma_chain_end(comps, pre.push(x), child_path(parent_path, x), x, col);
                lemma_entries_witness(comps, pre, comps.len() as int);
                assert(es.contains(EntryModel::Directory(x)));
                assert(!col.contains(path2));
                let row = seq![RowModel::Directory { path: path2, name: name2, depth, expanded: true }];
                let below = node_rows(comps, pre2, path2, depth + 1, col);
                lemma_node_rows_count(comps, pre2, path2, depth + 1, f);
                lemma_file_row_count_concat(row, below, f);
                lemma_file_row_count_concat(row + below, rest, f);
                lemma_file_row_count_single(row[0], f);
                assert(row =~= seq![row[0]]);
                if f < comps.len() {
                    lemma_chain_keeps_files(comps, pre.push(x), child_path(parent_path, x), x, f);
                }
                assert(pre2.len() <= max_depth(comps));
                assert(entry_rows(comps, pre, parent_path, depth, seq![], k) == row + below + rest);
                assert(file_row_count(row, f) == 0);
                assert(file_row_count(below, f) == if entry_covers(comps, pre, es[k], f) { 1nat } else { 0nat });
            },
        }
    }
}

/// With no directory collapsed, the tree shows every changed file whose path names one
/// exactly once.
pub proof fn lemma_tree_shows_each_file_once(comps: Seq<Seq<Seq<char>>>, f: usize)
    requires
        comps.len() <= usize::MAX,
        f < comps.len(),
    ensures
        file_row_count(tree_rows(comps, seq![]), f) == if comps[f as int].len() > 0 {
            1nat
        } else {
            0nat
        },
{
    lemma_node_rows_count(comps, seq![], seq![], 0, f);
    if comps[f as int].len() > 0 {
        assert(comps[f as int].subrange(0, 0) =~= Seq::<Seq<char>>::empty());
    }
}

} // verus!
