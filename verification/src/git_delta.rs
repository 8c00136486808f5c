//! How the changes that Git reports become the files of the diff: each change's paths,
//! whether it was added or deleted, whether its old text is worth reading, and how the
//! hunks and lines that Git walks are routed to the file they belong to.

use vstd::prelude::*;

use crate::diff::{DiffFile, DiffHunk, DiffHunkBuilder, DiffLine, LineKind};
use crate::text::{chars_of, utf8};

verus! {

/// What Git says happened to a file.
#[derive(Clone, Copy, Debug, PartialEq, Eq, Structural)]
pub enum DeltaStatus {
    Added,
    Untracked,
    Deleted,
    Changed,
}

/// A path with each `'\\'` turned into `'/'`.
pub open spec fn forward_slashes(p: Seq<char>) -> Seq<char> {
    p.map_values(|c: char| if c == '\\' { '/' } else { c })
}

/// A path as the diff shows it: with forward slashes.
pub fn git_path(path: &str) -> (r: String)
    ensures
        r@ == forward_slashes(path@),
{
    let cs = chars_of(path);
    let mut out = String::new();
    let n = cs.len();
    let mut i: usize = 0;
    while i < n
        invariant
            n == cs@.len(),
            cs@ == path@,
            i <= cs@.len(),
            out@ == forward_slashes(path@.take(i as int)),
        decreases cs@.len() - i,
    {
        let piece: &str = if cs[i] == '\\' {
            proof {
                reveal_strlit("/");
            }
            "/"
        } else {
            path_char(path, i)
        };
        proof {
            reveal_strlit("/");
            assert(forward_slashes(path@.take(i + 1)) =~= forward_slashes(path@.take(i as int))
                + piece@);
        }
        vstd::string::StringExecFns::append(&mut out, piece);
        i += 1;
    }
    proof {
        assert(path@.take(cs@.len() as int) =~= path@);
    }
    out
}

/// The `i`-th character of a path that is not a backslash, as a slice of it.
fn path_char(path: &str, i: usize) -> (r: &str)
    requires
        i < path@.len() <= usize::MAX,
    ensures
        r@ == seq![path@[i as int]],
{
    let r = vstd::string::StrSliceExecFns::substring_char(path, i, i + 1);
    assert(r@ =~= seq![path@[i as int]]);
    r
}

/// The file of the diff that a change makes: an added or untracked file has no old
/// path, a deleted one no new path.
pub open spec fn delta_file_of(status: DeltaStatus, old_path: Seq<char>, new_path: Seq<char>) -> (
    Seq<char>,
    Seq<char>,
    bool,
    bool,
) {
    let added = status == DeltaStatus::Added || status == DeltaStatus::Untracked;
    let deleted = status == DeltaStatus::Deleted;
    (
        if added {
            "/dev/null"@
        } else {
            old_path
        },
        if deleted {
            "/dev/null"@
        } else {
            new_path
        },
        added,
        deleted,
    )
}

/// What each status makes of a change's paths: an untracked file is shown exactly as an
/// added one, with no old path and marked new; a deleted file has no new path and is
/// marked deleted; any other change keeps both paths.
pub proof fn lemma_delta_files(old_path: Seq<char>, new_path: Seq<char>)
    ensures
        delta_file_of(DeltaStatus::Untracked, old_path, new_path) == delta_file_of(
            DeltaStatus::Added,
            old_path,
            new_path,
        ),
        delta_file_of(DeltaStatus::Added, old_path, new_path) == ("/dev/null"@, new_path, true, false),
        delta_file_of(DeltaStatus::Deleted, old_path, new_path) == (old_path, "/dev/null"@, false, true),
        delta_file_of(DeltaStatus::Changed, old_path, new_path) == (old_path, new_path, false, false),
{
}

/// The file of the diff that a change makes, without hunks yet.
pub fn file_for_delta(status: DeltaStatus, old_path: String, new_path: String) -> (r: DiffFile)
    ensures
        (r.old_path@, r.new_path@, r.is_new, r.is_deleted) == delta_file_of(
            status,
            old_path@,
            new_path@,
        ),
        r.hunks@.len() == 0,
        r.is_new == (status == DeltaStatus::Added || status == DeltaStatus::Untracked),
        r.is_deleted == (status == DeltaStatus::Deleted),
        r.old_path@ == if r.is_new {
            "/dev/null"@
        } else {
            old_path@
        },
        r.new_path@ == if r.is_deleted {
            "/dev/null"@
        } else {
            new_path@
        },
{
    let added = status == DeltaStatus::Added || status == DeltaStatus::Untracked;
    let deleted = status == DeltaStatus::Deleted;
    DiffFile {
        old_path: if added {
            String::from_str("/dev/null")
        } else {
            old_path
        },
        new_path: if deleted {
            String::from_str("/dev/null")
        } else {
            new_path
        },
        hunks: Vec::new(),
        is_new: added,
        is_deleted: deleted,
    }
}

/// Whether the old text of a file is read: only for a file that has hunks and existed.
pub fn wants_old_text(file: &DiffFile) -> (r: bool)
    ensures
        r == (file.hunks@.len() > 0 && !file.is_new),
{
    file.hunks.len() > 0 && !file.is_new
}

/// A header or line text without the line break characters at its end.
pub open spec fn without_line_end(s: Seq<char>) -> Seq<char>
    decreases s.len(),
{
    if s.len() > 0 && (s.last() == '\r' || s.last() == '\n') {
        without_line_end(s.drop_last())
    } else {
        s
    }
}

/// A text without the `'\r'` and `'\n'` at its end.
pub fn trim_line_end(s: &str) -> (r: &str)
    ensures
        r@ == without_line_end(s@),
{
    let cs = chars_of(s);
    let mut n: usize = cs.len();
    proof {
        assert(s@.take(cs@.len() as int) =~= s@);
    }
    while n > 0 && (cs[n - 1] == '\r' || cs[n - 1] == '\n')
        invariant
            cs@ == s@,
            n <= cs@.len(),
            without_line_end(s@.take(n as int)) == without_line_end(s@),
        decreases n,
    {
        proof {
            assert(s@.take(n as int).drop_last() =~= s@.take(n - 1));
        }
        n -= 1;
    }
    proof {
        assert(s@.take(cs@.len() as int) =~= s@);
    }
    vstd::string::StrSliceExecFns::substring_char(s, 0, n)
}


/// A hunk as Git's events fill it: its header, its first line numbers, its lines, and
/// the buffer that holds their texts end to end.
#[verifier::ext_equal]
pub struct GitHunk {
    pub header: Seq<char>,
    pub old_start: u32,
    pub new_start: u32,
    pub lines: Seq<DiffLine>,
    pub text: Seq<char>,
}

/// A file as Git's events fill it.
#[verifier::ext_equal]
pub struct GitFile {
    pub old_path: Seq<char>,
    pub new_path: Seq<char>,
    pub is_new: bool,
    pub is_deleted: bool,
    pub hunks: Seq<GitHunk>,
}

/// Where the routing of Git's events stands: the files of the diff, how many of them
/// Git has begun, and the one whose hunks and lines arrive now.
#[verifier::ext_equal]
pub struct GitDiffModel {
    pub files: Seq<GitFile>,
    pub next: int,
    pub current: Option<int>,
}

/// What Git reports while it walks a diff, in the order it reports it.
pub enum GitDiffEvent {
    /// The next changed file begins.
    File,
    /// A hunk of the current file begins.
    Hunk { header: String, old_start: u32, new_start: u32 },
    /// A line of the current file. `kind` is `None` for a line that is no context,
    /// added or deleted line; `hunk` is the header and first line numbers of the hunk
    /// that Git names for the line, where it names one.
    Line {
        hunk: Option<(String, u32, u32)>,
        kind: Option<LineKind>,
        old_number: Option<u32>,
        new_number: Option<u32>,
        content: String,
    },
}

/// The file that a change starts as: its paths and kind, and no hunks.
pub open spec fn start_file(delta: (DeltaStatus, String, String)) -> GitFile {
    let f = delta_file_of(delta.0, delta.1@, delta.2@);
    GitFile { old_path: f.0, new_path: f.1, is_new: f.2, is_deleted: f.3, hunks: Seq::empty() }
}

/// Before Git's walk: one file per change, in order, and none begun.
pub open spec fn git_start(deltas: Seq<(DeltaStatus, String, String)>) -> GitDiffModel {
    GitDiffModel {
        files: Seq::new(deltas.len(), |i: int| start_file(deltas[i])),
        next: 0,
        current: None,
    }
}

/// A hunk that a header opens: the header without its line break, and no lines.
pub open spec fn opened_hunk(header: Seq<char>, old_start: u32, new_start: u32) -> GitHunk {
    GitHunk {
        header: without_line_end(header),
        old_start,
        new_start,
        lines: Seq::empty(),
        text: Seq::empty(),
    }
}

/// A hunk with one more line, whose text is appended to the hunk's buffer.
pub open spec fn with_line(
    h: GitHunk,
    old_number: Option<u32>,
    new_number: Option<u32>,
    kind: LineKind,
    content: Seq<char>,
) -> GitHunk {
    GitHunk {
        header: h.header,
        old_start: h.old_start,
        new_start: h.new_start,
        lines: h.lines.push(
            DiffLine {
                old_number,
                new_number,
                kind,
                content_start: utf8(h.text).len() as u32,
                content_end: (utf8(h.text).len() + utf8(content).len()) as u32,
            },
        ),
        text: h.text + content,
    }
}

/// The hunks that a line can join: the file's own, or, where the file has none yet,
/// the hunk that Git names for the line.
pub open spec fn hunks_for_line(hunks: Seq<GitHunk>, hunk: Option<(String, u32, u32)>) -> Seq<
    GitHunk,
> {
    match hunk {
        Some(h) => if hunks.len() == 0 {
            seq![opened_hunk(h.0@, h.1, h.2)]
        } else {
            hunks
        },
        None => hunks,
    }
}

/// The hunks of a file after a content line: the line joins the last hunk, with its
/// line break taken off; with no hunk to join, it is dropped.
pub open spec fn hunks_after_line(
    hunks: Seq<GitHunk>,
    hunk: Option<(String, u32, u32)>,
    old_number: Option<u32>,
    new_number: Option<u32>,
    kind: LineKind,
    content: Seq<char>,
) -> Seq<GitHunk> {
    let hs = hunks_for_line(hunks, hunk);
    if hs.len() == 0 {
        hs
    } else {
        hs.drop_last().push(
            with_line(hs.last(), old_number, new_number, kind, without_line_end(content)),
        )
    }
}

/// The state with the hunks of file `i` replaced.
pub open spec fn with_file_hunks(m: GitDiffModel, i: int, hunks: Seq<GitHunk>) -> GitDiffModel {
    GitDiffModel {
        files: m.files.update(
            i,
            GitFile {
                old_path: m.files[i].old_path,
                new_path: m.files[i].new_path,
                is_new: m.files[i].is_new,
                is_deleted: m.files[i].is_deleted,
                hunks,
            },
        ),
        next: m.next,
        current: m.current,
    }
}

/// What one event does. A new file makes the next change current, and past the last
/// one leaves no file current. A hunk opens on the current file. A context, added or
/// deleted line joins the current file's last hunk, first opening the line's own hunk
/// where the file has none. Other lines, and what comes with no file current, change
/// nothing.
pub open spec fn git_step(m: GitDiffModel, e: GitDiffEvent) -> GitDiffModel {
    match e {
        GitDiffEvent::File => if m.next < m.files.len() {
            GitDiffModel { files: m.files, next: m.next + 1, current: Some(m.next) }
        } else {
            GitDiffModel { files: m.files, next: m.next, current: None }
        },
        GitDiffEvent::Hunk { header, old_start, new_start } => match m.current {
            Some(i) => with_file_hunks(
                m,
                i,
                m.files[i].hunks.push(opened_hunk(header@, old_start, new_start)),
            ),
            None => m,
        },
        GitDiffEvent::Line { hunk, kind, old_number, new_number, content } => match kind {
            Some(k) => match m.current {
                Some(i) => with_file_hunks(
                    m,
                    i,
                    hunks_after_line(m.files[i].hunks, hunk, old_number, new_number, k, content@),
                ),
                None => m,
            },
            None => m,
        },
    }
}

/// Whether Git's walk goes on after the event: it stops at a new file past the last
/// change.
pub open spec fn git_continues(m: GitDiffModel, e: GitDiffEvent) -> bool {
    match e {
        GitDiffEvent::File => m.next < m.files.len(),
        _ => true,
    }
}

/// Whether the event keeps every hunk's buffer within 4 GiB, so that its offsets fit
/// in `u32`.
pub open spec fn event_fits(m: GitDiffModel, e: GitDiffEvent) -> bool {
    match e {
        GitDiffEvent::Line { hunk, kind, content, .. } => match kind {
            Some(_) => line_fits(m, hunk, content@),
            None => true,
        },
        _ => true,
    }
}

/// Whether a content line keeps the buffer of the hunk it joins within 4 GiB.
pub open spec fn line_fits(m: GitDiffModel, hunk: Option<(String, u32, u32)>, content: Seq<char>) -> bool {
    match m.current {
        Some(i) => {
            let hs = hunks_for_line(m.files[i].hunks, hunk);
            hs.len() > 0 ==> utf8(hs.last().text).len() + utf8(without_line_end(content)).len()
                <= u32::MAX
        },
        None => true,
    }
}

/// Routing keeps every file where it is: no event adds, drops or renames a file, and
/// only the current file's hunks change.
pub proof fn lemma_git_step_keeps_files(m: GitDiffModel, e: GitDiffEvent)
    requires
        m.current matches Some(i) ==> 0 <= i < m.files.len(),
    ensures
        git_step(m, e).files.len() == m.files.len(),
        forall|j: int|
            0 <= j < m.files.len() ==> {
                &&& (#[trigger] git_step(m, e).files[j]).old_path == m.files[j].old_path
                &&& git_step(m, e).files[j].new_path == m.files[j].new_path
                &&& git_step(m, e).files[j].is_new == m.files[j].is_new
                &&& git_step(m, e).files[j].is_deleted == m.files[j].is_deleted
            },
        forall|j: int|
            0 <= j < m.files.len() && m.current != Some(j) ==> #[trigger] git_step(m, e).files[j]
                == m.files[j],
{
}

/// The files that the events built.
pub open spec fn git_files(m: GitDiffModel) -> Seq<GitFile> {
    m.files
}

/// A finished hunk, seen as the events built it.
pub open spec fn hunk_view(h: DiffHunk) -> GitHunk {
    GitHunk {
        header: h.header@,
        old_start: h.old_start,
        new_start: h.new_start,
        lines: h.lines@,
        text: h.text(),
    }
}

/// A file of the diff, seen as the events built it.
pub open spec fn file_view(f: DiffFile) -> GitFile {
    GitFile {
        old_path: f.old_path@,
        new_path: f.new_path@,
        is_new: f.is_new,
        is_deleted: f.is_deleted,
        hunks: f.hunks@.map_values(|h: DiffHunk| hunk_view(h)),
    }
}

/// A hunk still being filled, seen as the events built it.
pub open spec fn builder_view(b: DiffHunkBuilder) -> GitHunk {
    GitHunk {
        header: b.header_view(),
        old_start: b.starts().0,
        new_start: b.starts().1,
        lines: b.lines_view(),
        text: b.text(),
    }
}

/// The files of a diff as Git's events arrive: those finished, the current one with
/// its last hunk still open, and those not yet begun, kept last first.
pub struct GitDiffBuilder {
    done: Vec<DiffFile>,
    current: Option<DiffFile>,
    open: Option<DiffHunkBuilder>,
    pending: Vec<DiffFile>,
}

impl View for GitDiffBuilder {
    type V = GitDiffModel;

    open spec fn view(&self) -> GitDiffModel {
        self.model()
    }
}

impl GitDiffBuilder {
    /// The current file, with its open hunk last.
    closed spec fn current_files(self) -> Seq<GitFile> {
        match self.current {
            Some(f) => seq![
                GitFile {
                    old_path: f.old_path@,
                    new_path: f.new_path@,
                    is_new: f.is_new,
                    is_deleted: f.is_deleted,
                    hunks: file_view(f).hunks + match self.open {
                        Some(b) => seq![builder_view(b)],
                        None => Seq::empty(),
                    },
                },
            ],
            None => Seq::empty(),
        }
    }

    /// The state of the routing that the builder holds.
    pub closed spec fn model(self) -> GitDiffModel {
        GitDiffModel {
            files: self.done@.map_values(|f: DiffFile| file_view(f)) + self.current_files()
                + self.pending@.reverse().map_values(|f: DiffFile| file_view(f)),
            next: self.done@.len() + if self.current is Some {
                1int
            } else {
                0int
            },
            current: if self.current is Some {
                Some(self.done@.len() as int)
            } else {
                None
            },
        }
    }

    /// Every finished hunk is well formed, the open hunk belongs to the current file
    /// and is its only place for lines, and the files not begun have no hunks.
    pub closed spec fn wf(self) -> bool {
        &&& forall|i: int, j: int|
            0 <= i < self.done@.len() && 0 <= j < self.done@[i].hunks@.len()
                ==> #[trigger] self.done@[i].hunks@[j].wf()
        &&& match self.current {
            Some(f) => forall|j: int| 0 <= j < f.hunks@.len() ==> #[trigger] f.hunks@[j].wf(),
            None => true,
        }
        &&& match self.open {
            Some(b) => b.wf() && self.current is Some,
            None => match self.current {
                Some(f) => f.hunks@.len() == 0,
                None => true,
            },
        }
        &&& forall|i: int| 0 <= i < self.pending@.len() ==> #[trigger] self.pending@[i].hunks@.len() == 0
    }

    /// A builder for the given changes, in Git's order, before any event.
    pub fn new(deltas: Vec<(DeltaStatus, String, String)>) -> (r: Self)
        ensures
            r.wf(),
            r@ == git_start(deltas@),
    {
        let ghost all = deltas@;
        let mut deltas = deltas;
        let mut pending: Vec<DiffFile> = Vec::new();
        while deltas.len() > 0
            invariant
                deltas@ == all.take(deltas@.len() as int),
                deltas@.len() <= all.len(),
                pending@.len() + deltas@.len() == all.len(),
                forall|k: int|
                    0 <= k < pending@.len() ==> #[trigger] file_view(pending@[k]) == start_file(
                        all[all.len() - 1 - k],
                    ) && pending@[k].hunks@.len() == 0,
            decreases deltas@.len(),
        {
            let ghost before = deltas@;
            let (status, old_path, new_path) = deltas.pop().unwrap();
            let ghost d = (status, old_path, new_path);
            proof {
                assert(d == all[before.len() - 1]);
                assert(deltas@ =~= all.take(deltas@.len() as int));
            }
            let file = file_for_delta(status, old_path, new_path);
            proof {
                assert(file_view(file) =~= start_file(d));
            }
            pending.push(file);
        }
        let r = GitDiffBuilder { done: Vec::new(), current: None, open: None, pending };
        proof {
            assert(r.model().files =~= git_start(all).files);
            assert forall|i: int| 0 <= i < r.pending@.len() implies #[trigger] r.pending@[
                i
            ].hunks@.len() == 0 by {
                assert(file_view(r.pending@[i]) == start_file(all[all.len() - 1 - i]));
            }
        }
        r
    }

    /// Finishes the current file, its open hunk last, and lays it after the others.
    fn close_current(&mut self)
        requires
            old(self).wf(),
        ensures
            final(self).wf(),
            final(self).current is None,
            final(self).pending@ == old(self).pending@,
            final(self).model().files == old(self).model().files,
            final(self).model().next == old(self).model().next,
    {
        let cur = self.current.take();
        match cur {
            Some(f) => {
                let mut f = f;
                let ghost f0 = f;
                let open = self.open.take();
                match open {
                    Some(b) => {
                        let h = b.finish();
                        f.hunks.push(h);
                        proof {
                            assert(file_view(f).hunks =~= file_view(f0).hunks + seq![
                                builder_view(b),
                            ]);
                        }
                    },
                    None => {
                        proof {
                            assert(file_view(f).hunks =~= file_view(f0).hunks + Seq::empty());
                        }
                    },
                }
                let ghost d0 = self.done@;
                self.done.push(f);
                proof {
                    assert(self.done@.map_values(|f: DiffFile| file_view(f)) =~= d0.map_values(
                        |f: DiffFile| file_view(f),
                    ).push(file_view(f)));
                    assert(self.model().files =~= old(self).model().files);
                }
            },
            None => {
                proof {
                    assert(self.model().files =~= old(self).model().files);
                }
            },
        }
    }

    /// A new file begins: the next change becomes current, or none past the last one.
    fn next_file(&mut self) -> (r: bool)
        requires
            old(self).wf(),
        ensures
            final(self).wf(),
            final(self)@ == git_step(old(self)@, GitDiffEvent::File),
            r == git_continues(old(self)@, GitDiffEvent::File),
    {
        self.close_current();
        let ghost mid = *self;
        let next = self.pending.pop();
        match next {
            Some(f) => {
                self.current = Some(f);
                proof {
                    assert(mid.pending@.reverse() =~= seq![f] + self.pending@.reverse());
                    assert(self.model().files =~= mid.model().files);
                }
                true
            },
            None => {
                proof {
                    assert(self.model().files =~= mid.model().files);
                }
                false
            },
        }
    }



    /// A hunk begins on the current file; the open one before it is finished.
    fn open_hunk(&mut self, header: &str, old_start: u32, new_start: u32)
        requires
            old(self).wf(),
        ensures
            final(self).wf(),
            final(self)@ == match old(self)@.current {
                Some(i) => with_file_hunks(
                    old(self)@,
                    i,
                    old(self)@.files[i].hunks.push(opened_hunk(header@, old_start, new_start)),
                ),
                None => old(self)@,
            },
    {
        if self.current.is_some() {
            let b = DiffHunkBuilder::new(trim_line_end(header), old_start, new_start);
            let mut f = self.current.take().unwrap();
            let ghost f0 = f;
            let prev = self.open.take();
            match prev {
                Some(p) => {
                    let h = p.finish();
                    f.hunks.push(h);
                    proof {
                        assert(file_view(f).hunks =~= file_view(f0).hunks + seq![
                            builder_view(p),
                        ]);
                    }
                },
                None => {
                    proof {
                        assert(file_view(f).hunks =~= file_view(f0).hunks);
                    }
                },
            }
            self.current = Some(f);
            self.open = Some(b);
            proof {
                let i = old(self)@.current->0;
                let nh = old(self)@.files[i].hunks.push(
                    opened_hunk(header@, old_start, new_start),
                );
                assert(builder_view(b) == opened_hunk(header@, old_start, new_start));
                assert(self.current_files()[0].hunks =~= nh);
                assert(self.model().files =~= with_file_hunks(old(self)@, i, nh).files);
            }
        }
    }

    /// A context, added or deleted line of the current file joins its open hunk, which
    /// the line's own hunk opens where the file has none yet.
    fn content_line(
        &mut self,
        hunk: Option<(String, u32, u32)>,
        kind: LineKind,
        old_number: Option<u32>,
        new_number: Option<u32>,
        content: &str,
    )
        requires
            old(self).wf(),
            line_fits(old(self)@, hunk, content@),
        ensures
            final(self).wf(),
            final(self)@ == match old(self)@.current {
                Some(i) => with_file_hunks(
                    old(self)@,
                    i,
                    hunks_after_line(
                        old(self)@.files[i].hunks,
                        hunk,
                        old_number,
                        new_number,
                        kind,
                        content@,
                    ),
                ),
                None => old(self)@,
            },
    {
        if self.current.is_some() {
            let ghost i = old(self)@.current->0;
            let ghost hs = hunks_for_line(old(self)@.files[i].hunks, hunk);
            if self.open.is_none() {
                match hunk {
                    Some(h) => {
                        self.open = Some(DiffHunkBuilder::new(trim_line_end(h.0.as_str()), h.1, h.2));
                    },
                    None => {},
                }
            }
            proof {
                assert(self.current_files()[0].hunks =~= hs);
            }
            if self.open.is_some() {
                let mut b = self.open.take().unwrap();
                let ghost b0 = b;
                let line = trim_line_end(content);
                b.push_line(old_number, new_number, kind, line);
                self.open = Some(b);
                proof {
                    let nh = hunks_after_line(
                        old(self)@.files[i].hunks,
                        hunk,
                        old_number,
                        new_number,
                        kind,
                        content@,
                    );
                    assert(builder_view(b) =~= with_line(
                        builder_view(b0),
                        old_number,
                        new_number,
                        kind,
                        without_line_end(content@),
                    ));
                    assert(self.current_files()[0].hunks =~= nh);
                    assert(self.model().files =~= with_file_hunks(old(self)@, i, nh).files);
                }
            } else {
                proof {
                    assert(self.model().files =~= old(self)@.files);
                }
            }
        }
    }


    /// Whether the event keeps every hunk's buffer within 4 GiB; the walk cannot go
    /// on past one that does not.
    pub fn fits(&self, event: &GitDiffEvent) -> (r: bool)
        requires
            self.wf(),
        ensures
            r == event_fits(self@, *event),
    {
        match event {
            GitDiffEvent::Line { hunk, kind, content, .. } => {
                if kind.is_none() || self.current.is_none() {
                    return true;
                }
                let extra = trim_line_end(content.as_str()).as_bytes().len();
                let base: usize = match &self.open {
                    Some(b) => b.text_len(),
                    None => {
                        if hunk.is_none() {
                            proof {
                                assert(self.current_files()[0].hunks.len() == 0);
                            }
                            return true;
                        }
                        0
                    },
                };
                proof {
                    let i = self@.current->0;
                    assert(self.current_files()[0] == self@.files[i]);
                    let hs = hunks_for_line(self@.files[i].hunks, *hunk);
                    assert(hs.len() > 0);
                    assert(utf8(hs.last().text).len() == base);
                }
                base <= 0xffff_ffff && extra <= 0xffff_ffff - base
            },
            _ => true,
        }
    }
}

/// One event of Git's walk: the builder takes it as `git_step` says, and the result
/// tells whether the walk goes on.
pub fn git_diff_step(state: &mut GitDiffBuilder, event: GitDiffEvent) -> (r: bool)
    requires
        old(state).wf(),
        event_fits(old(state)@, event),
    ensures
        final(state).wf(),
        final(state)@ == git_step(old(state)@, event),
        r == git_continues(old(state)@, event),
{
    match event {
        GitDiffEvent::File => state.next_file(),
        GitDiffEvent::Hunk { header, old_start, new_start } => {
            state.open_hunk(header.as_str(), old_start, new_start);
            true
        },
        GitDiffEvent::Line { hunk, kind, old_number, new_number, content } => {
            match kind {
                Some(k) => state.content_line(hunk, k, old_number, new_number, content.as_str()),
                None => {},
            }
            true
        },
    }
}

/// The files that Git's walk built, each hunk finished, in the order of the changes.
pub fn finish_git_diff(state: GitDiffBuilder) -> (r: Vec<DiffFile>)
    requires
        state.wf(),
    ensures
        r@.map_values(|f: DiffFile| file_view(f)) == git_files(state@),
        forall|i: int, j: int|
            0 <= i < r@.len() && 0 <= j < r@[i].hunks@.len() ==> #[trigger] r@[i].hunks@[j].wf(),
{
    let mut state = state;
    state.close_current();
    let ghost files = state.model().files;
    let mut out = state.done;
    let mut pending = state.pending;
    while pending.len() > 0
        invariant
            out@.map_values(|f: DiffFile| file_view(f)) + pending@.reverse().map_values(
                |f: DiffFile| file_view(f),
            ) == files,
            forall|i: int, j: int|
                0 <= i < out@.len() && 0 <= j < out@[i].hunks@.len() ==> #[trigger] out@[i].hunks@[j].wf(),
            forall|i: int| 0 <= i < pending@.len() ==> #[trigger] pending@[i].hunks@.len() == 0,
        decreases pending@.len(),
    {
        let ghost p0 = pending@;
        let ghost o0 = out@;
        let f = pending.pop().unwrap();
        out.push(f);
        proof {
            assert(p0.reverse() =~= seq![f] + pending@.reverse());
            assert(out@.map_values(|f: DiffFile| file_view(f)) =~= o0.map_values(
                |f: DiffFile| file_view(f),
            ).push(file_view(f)));
            assert(out@.map_values(|f: DiffFile| file_view(f)) + pending@.reverse().map_values(
                |f: DiffFile| file_view(f),
            ) =~= files);
        }
    }
    proof {
        assert(pending@.reverse().map_values(|f: DiffFile| file_view(f)) =~= Seq::<GitFile>::empty());
        assert(out@.map_values(|f: DiffFile| file_view(f)) =~= files);
    }
    out

}

} // verus!
