//! How a changed file changed: modified, added, deleted or renamed.

use vstd::prelude::*;
use vstd::utf8::*;

use crate::diff::{without_side_prefix, DiffFile};
use crate::text::{bytes_equal, lemma_ascii_boundaries, substring, utf8};

verus! {

broadcast use vstd::utf8::encode_utf8_valid_utf8, vstd::utf8::encode_utf8_decode_utf8;

/// A path without the `a/` or `b/` that Git puts before it.
pub fn trim_diff_prefix(path: &str) -> (r: String)
    ensures
        utf8(r@) == without_side_prefix(utf8(path@)),
{
    let b = path.as_bytes();
    let kept = if b.len() >= 2 && (b[0] == 97 || b[0] == 98) && b[1] == 47 {
        proof {
            lemma_ascii_boundaries(b@, 1);
            is_char_boundary_start_end_of_seq(b@);
        }
        substring(path, 2, b.len())
    } else {
        path
    };
    proof {
        assert(decode_utf8(utf8(kept@)) == kept@);
    }
    kept.to_owned()
}

/// The kind of change a file went through.
#[derive(Clone, Copy, Debug, PartialEq, Eq, Structural)]
pub enum FileChangeKind {
    Modified,
    Added,
    Deleted,
    Renamed,
}

/// The kind of change of a file: added or deleted as the diff says, renamed when
/// its two paths differ once their side prefixes are gone, else modified.
pub open spec fn change_kind_of(file: DiffFile) -> FileChangeKind {
    if file.is_new {
        FileChangeKind::Added
    } else if file.is_deleted {
        FileChangeKind::Deleted
    } else if without_side_prefix(utf8(file.old_path@)) != without_side_prefix(
        utf8(file.new_path@),
    ) {
        FileChangeKind::Renamed
    } else {
        FileChangeKind::Modified
    }
}

impl FileChangeKind {
    /// The kind of change a file went through.
    pub fn for_file(file: &DiffFile) -> (r: Self)
        ensures
            r == change_kind_of(*file),
    {
        if file.is_new {
            FileChangeKind::Added
        } else if file.is_deleted {
            FileChangeKind::Deleted
        } else {
            let old = trim_diff_prefix(file.old_path.as_str());
            let new = trim_diff_prefix(file.new_path.as_str());
            if !bytes_equal(old.as_str().as_bytes(), new.as_str().as_bytes()) {
                FileChangeKind::Renamed
            } else {
                FileChangeKind::Modified
            }
        }
    }

    /// The letter that marks the kind in the file list.
    pub fn label(self) -> (r: &'static str)
        ensures
            r@ == match self {
                FileChangeKind::Modified => "M"@,
                FileChangeKind::Added => "A"@,
                FileChangeKind::Deleted => "D"@,
                FileChangeKind::Renamed => "R"@,
            },
    {
        match self {
            FileChangeKind::Modified => "M",
            FileChangeKind::Added => "A",
            FileChangeKind::Deleted => "D",
            FileChangeKind::Renamed => "R",
        }
    }
}

} // verus!
