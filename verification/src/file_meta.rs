//! What the view shows about each file: its header text, its paths, its language and
//! its counts of added and deleted lines.

use vstd::prelude::*;
use vstd::utf8::*;

use crate::diff::{files_kind_count, DiffFile, LineKind};
use crate::file_kind::{change_kind_of, FileChangeKind};
use crate::language::{display_chars, file_language_fits, LanguageCatalog};
use crate::path::{file_name_bytes, parent_bytes};
use crate::text::{has_prefix, str_starts_with, utf8};
use vstd::string::StringExecFns;

verus! {

broadcast use vstd::utf8::encode_utf8_valid_utf8, vstd::utf8::encode_utf8_decode_utf8;

/// What the view shows about a file.
#[derive(Clone, Debug, PartialEq, Eq)]
pub struct FileViewMeta {
    pub display_path: String,
    pub absolute_path: Option<String>,
    pub relative_path: Option<String>,
    pub header_path: String,
    pub header_file_name_start: usize,
    pub file_name: String,
    pub language: String,
    pub change_kind: FileChangeKind,
}

/// `path` joined onto `root`, as `Path::join` joins a relative path: with a `/` between
/// them unless the root is empty or already ends with one.
pub open spec fn joined_path(root: Seq<char>, path: Seq<char>) -> Seq<char> {
    if root.len() == 0 {
        path
    } else if root.last() == '/' {
        root + path
    } else {
        root + "/"@ + path
    }
}

/// The header of a file: its directory, ` / ` and its name; the name alone for a file
/// at the top.
pub open spec fn header_of(parent: Seq<char>, name: Seq<char>) -> Seq<char> {
    if parent.len() == 0 {
        name
    } else {
        parent + " / "@ + name
    }
}

/// Where the file name starts in the header, in bytes.
pub open spec fn header_name_start(parent: Seq<char>) -> int {
    if parent.len() == 0 {
        0
    } else {
        utf8(parent + " / "@).len() as int
    }
}

impl FileViewMeta {
    /// What the view shows about a file, paths taken relative to `path_root` when the
    /// shown path is not absolute.
    pub fn new(file: &DiffFile, path_root: Option<&str>, catalog: &LanguageCatalog) -> (r: Self)
        requires
            file.hunks_wf(),
        ensures
            ({
                let shown = display_chars(*file);
                let parent = decode_utf8(parent_bytes(file.display_bytes()));
                let name = decode_utf8(file_name_bytes(file.display_bytes()));
                let absolute = has_prefix(shown, "/"@);
                &&& r.display_path@ == shown
                &&& r.file_name@ == name
                &&& r.header_path@ == header_of(parent, name)
                &&& r.header_file_name_start == header_name_start(parent)
                &&& r.relative_path matches Some(p) ==> !absolute && p@ == shown
                &&& r.relative_path is None ==> absolute
                &&& match r.absolute_path {
                    Some(p) => if absolute {
                        p@ == shown
                    } else {
                        path_root matches Some(root) && p@ == joined_path(root@, shown)
                    },
                    None => !absolute && path_root is None,
                }
                &&& file_language_fits(catalog.languages@, *file, r.language@)
                &&& r.change_kind == change_kind_of(*file)
            }),
    {
        proof {
            reveal_strlit(" / ");
            reveal_strlit("/");
        }
        let parent = file.parent_path();
        let name = file.file_name();
        let shown = file.display_path();
        proof {
            assert(decode_utf8(utf8(parent@)) == parent@);
            assert(decode_utf8(utf8(name@)) == name@);
            assert(decode_utf8(utf8(shown@)) == shown@);
        }
        let mut header_path = String::new();
        let mut header_file_name_start: usize = 0;
        if parent.as_bytes().len() > 0 {
            header_path.append(parent);
            header_path.append(" / ");
            header_file_name_start = header_path.as_str().as_bytes().len();
        }
        header_path.append(name);
        proof {
            if parent@.len() == 0 {
                assert(header_path@ =~= name@);
            }
        }
        let absolute = str_starts_with(shown, "/");
        let relative_path = if absolute {
            None
        } else {
            Some(shown.to_owned())
        };
        let absolute_path = if absolute {
            Some(shown.to_owned())
        } else {
            match path_root {
                Some(root) => {
                    let mut joined = root.to_owned();
                    let rb = root.as_bytes();
                    if rb.len() > 0 {
                        let ends_with_slash = str_ends_with_slash(root);
                        if !ends_with_slash {
                            joined.append("/");
                        }
                    }
                    joined.append(shown);
                    Some(joined)
                },
                None => None,
            }
        };
        let language = catalog.detected_language_for_file(file).to_owned();
        FileViewMeta {
            display_path: shown.to_owned(),
            absolute_path,
            relative_path,
            header_path,
            header_file_name_start,
            file_name: name.to_owned(),
            language,
            change_kind: FileChangeKind::for_file(file),
        }
    }
}

/// Whether a non-empty text ends with `/`.
fn str_ends_with_slash(s: &str) -> (r: bool)
    requires
        utf8(s@).len() > 0,
    ensures
        r == (s@.last() == '/'),
{
    proof {
        reveal_strlit("/");
        if s@.len() == 0 {
            assert(utf8(s@) =~= Seq::<u8>::empty());
        }
    }
    let r = crate::text::str_ends_with(s, "/");
    proof {
        if s@.last() == '/' {
            assert(s@.subrange(s@.len() - 1, s@.len() as int) =~= "/"@);
        }
        if r {
            assert(s@.subrange(s@.len() - 1, s@.len() as int)[0] == s@.last());
        }
    }
    r
}

/// What the view shows about every file, each file's counts, and the totals.
pub struct FileViewData {
    pub meta: Vec<FileViewMeta>,
    pub stats: Vec<(usize, usize)>,
    pub total_additions: usize,
    pub total_deletions: usize,
}

impl FileViewData {
    /// What the view shows about the files.
    pub fn from_files(files: &[DiffFile], path_root: Option<&str>, catalog: &LanguageCatalog) -> (r:
        Self)
        requires
            forall|i: int| 0 <= i < files@.len() ==> (#[trigger] files@[i]).hunks_wf(),
            files_kind_count(files@, LineKind::Addition) <= usize::MAX,
            files_kind_count(files@, LineKind::Deletion) <= usize::MAX,
        ensures
            r.meta@.len() == files@.len(),
            r.stats@.len() == files@.len(),
            forall|i: int|
                0 <= i < files@.len() ==> (#[trigger] r.stats@[i]) == (
                    files@[i].kind_count(LineKind::Addition) as usize,
                    files@[i].kind_count(LineKind::Deletion) as usize,
                ),
            forall|i: int|
                0 <= i < files@.len() ==> (#[trigger] r.meta@[i]).display_path@ == display_chars(
                    files@[i],
                ) && r.meta@[i].change_kind == change_kind_of(files@[i]) && file_language_fits(
                    catalog.languages@,
                    files@[i],
                    r.meta@[i].language@,
                ),
            r.total_additions == files_kind_count(files@, LineKind::Addition),
            r.total_deletions == files_kind_count(files@, LineKind::Deletion),
    {
        let mut meta: Vec<FileViewMeta> = Vec::new();
        let mut stats: Vec<(usize, usize)> = Vec::new();
        let mut total_additions: usize = 0;
        let mut total_deletions: usize = 0;
        let mut i: usize = 0;
        while i < files.len()
            invariant
                i <= files@.len(),
                forall|k: int| 0 <= k < files@.len() ==> (#[trigger] files@[k]).hunks_wf(),
                files_kind_count(files@, LineKind::Addition) <= usize::MAX,
                files_kind_count(files@, LineKind::Deletion) <= usize::MAX,
                meta@.len() == i,
                stats@.len() == i,
                forall|k: int|
                    0 <= k < i ==> (#[trigger] stats@[k]) == (
                        files@[k].kind_count(LineKind::Addition) as usize,
                        files@[k].kind_count(LineKind::Deletion) as usize,
                    ),
                forall|k: int|
                    0 <= k < i ==> (#[trigger] meta@[k]).display_path@ == display_chars(files@[k])
                        && meta@[k].change_kind == change_kind_of(files@[k]) && file_language_fits(
                        catalog.languages@,
                        files@[k],
                        meta@[k].language@,
                    ),
                total_additions == files_kind_count(files@.subrange(0, i as int), LineKind::Addition),
                total_deletions == files_kind_count(files@.subrange(0, i as int), LineKind::Deletion),
            decreases files@.len() - i,
        {
            proof {
                assert(files@.subrange(0, i + 1).drop_last() =~= files@.subrange(0, i as int));
                crate::diff::lemma_files_count_prefix(files@, LineKind::Addition, i + 1);
                crate::diff::lemma_files_count_prefix(files@, LineKind::Deletion, i + 1);
            }
            let file = &files[i];
            let additions = file.additions();
            let deletions = file.deletions();
            meta.push(FileViewMeta::new(file, path_root, catalog));
            stats.push((additions, deletions));
            total_additions = total_additions + additions;
            total_deletions = total_deletions + deletions;
            i += 1;
        }
        proof {
            assert(files@.subrange(0, files@.len() as int) =~= files@);
        }
        FileViewData { meta, stats, total_additions, total_deletions }
    }
}

} // verus!
