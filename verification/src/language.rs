//! Which syntax language a changed file is shown in: from its path, or from the
//! `#!` line that starts an extensionless script.

use vstd::prelude::*;
use vstd::string::StrSliceExecFns;
use vstd::utf8::*;

use crate::diff::{DiffFile, DiffHunk, DiffLine};
use crate::hunk_header::words_from;
use crate::path::{path_file_name, path_file_name_of};
use crate::text::{
    chars_of, has_infix, has_prefix, has_suffix, split_words, str_contains, str_ends_with,
    str_equal, str_starts_with, trim_str, trimmed, utf8,
};

verus! {

broadcast use vstd::utf8::encode_utf8_valid_utf8, vstd::utf8::encode_utf8_decode_utf8;

/// The canonical language id that `syntaxmate::canonical_language` gives an id or alias.
pub uninterp spec fn canonical_language_id(language: Seq<char>) -> Option<Seq<char>>;

/// The language that `syntaxmate::detect_language_from_path` detects for a path that
/// every platform splits alike (see `portable_path`).
pub uninterp spec fn path_language(path: Seq<char>) -> Option<Seq<char>>;

/// Whether every platform splits the path alike: `std::path::Path` splits at `'\\'` and
/// reads a `:` drive prefix or a leading `//` share prefix on Windows, but not elsewhere.
pub open spec fn portable_path(path: Seq<char>) -> bool {
    &&& !path.contains('\\')
    &&& !path.contains(':')
    &&& !(path.len() >= 2 && path[0] == '/' && path[1] == '/')
}

/// The characters of an optional string.
pub open spec fn opt_chars(o: Option<String>) -> Option<Seq<char>> {
    match o {
        Some(s) => Some(s@),
        None => None,
    }
}

/// Calls `syntaxmate::canonical_language`, which looks an id or alias up in the
/// bundled catalog; the result is named by `canonical_language_id`.
#[verifier::external_body]
fn canonical_language(language: &str) -> (r: Option<String>)
    ensures
        opt_chars(r) == canonical_language_id(language@),
{
    syntaxmate::canonical_language(language)
}

/// Calls `syntaxmate::detect_language_from_path`, which takes the path's file name with
/// `std::path::Path::file_name` and matches it against the bundled catalog. That file
/// name follows the platform's separators, so the result is named by `path_language` only
/// for a path that every platform splits alike; of any other path nothing is claimed.
#[verifier::external_body]
fn detect_language_from_path(path: &str) -> (r: Option<String>)
    ensures
        portable_path(path@) ==> opt_chars(r) == path_language(path@),
{
    syntaxmate::detect_language_from_path(path)
}

/// Whether an id is written as the catalog looks ids up: no leading `.`, and only ASCII
/// characters that are neither upper case letters nor white space.
pub open spec fn plain_id(id: Seq<char>) -> bool {
    &&& (id.len() > 0 ==> id[0] != '.')
    &&& forall|i: int|
        0 <= i < id.len() ==> {
            let c = #[trigger] id[i];
            &&& (c as u32) < 0x80
            &&& !('A' <= c && c <= 'Z')
            &&& !(0x09 <= (c as u32) && (c as u32) <= 0x0d)
            &&& c != ' '
        }
}

/// Calls `syntaxmate::available_languages`, the canonical ids of the bundled languages.
/// Which ids the bundle holds is not claimed. The contract claims what the crate's
/// source shows of how they are looked up: `canonical_language` maps each canonical id
/// to itself (its index enters every canonical id before any alias, and aliases never
/// replace an entry), and an id written plainly reaches that entry unchanged, since
/// lookup only trims white space and leading dots and lowers upper case letters.
#[verifier::external_body]
fn available_languages() -> (r: Vec<String>)
    ensures
        forall|i: int|
            0 <= i < r@.len() && plain_id(#[trigger] r@[i]@) ==> canonical_language_id(r@[i]@)
                == Some(r@[i]@),
{
    syntaxmate::available_languages()
}

/// `c` with ASCII upper case letters turned to lower case.
pub open spec fn lower_char(c: char) -> char {
    if 'A' <= c <= 'Z' {
        ((c as u32) + 32) as char
    } else {
        c
    }
}

/// `s` with its ASCII upper case letters turned to lower case.
pub open spec fn ascii_lower(s: Seq<char>) -> Seq<char> {
    s.map_values(|c: char| lower_char(c))
}

/// `s` with `'A'..='Z'` turned to `'a'..='z'` and every other character kept, as
/// `str::to_ascii_lowercase` gives it.
fn to_ascii_lowercase(s: &str) -> (r: String)
    ensures
        r@ == ascii_lower(s@),
{
    let letters = "abcdefghijklmnopqrstuvwxyz";
    proof {
        reveal_strlit("abcdefghijklmnopqrstuvwxyz");
        assert(letters@ =~= Seq::new(26, |k: int| (k + 97) as char));
    }
    let n = s.unicode_len();
    let mut out = String::new();
    let mut i: usize = 0;
    while i < n
        invariant
            n == s@.len(),
            i <= n,
            letters@ == Seq::new(26, |k: int| (k + 97) as char),
            out@ == ascii_lower(s@.take(i as int)),
        decreases n - i,
    {
        let c = s.get_char(i);
        if 'A' <= c && c <= 'Z' {
            let k = (c as u32 - 65) as usize;
            let piece = letters.substring_char(k, k + 1);
            proof {
                assert(piece@ =~= seq![lower_char(c)]);
            }
            out.append(piece);
        } else {
            let piece = s.substring_char(i, i + 1);
            proof {
                assert(piece@ =~= seq![lower_char(c)]);
            }
            out.append(piece);
        }
        proof {
            assert(s@.take(i + 1) =~= s@.take(i as int).push(c));
            assert(ascii_lower(s@.take(i + 1)) =~= ascii_lower(s@.take(i as int)).push(lower_char(c)));
        }
        i += 1;
    }
    proof {
        assert(s@.take(i as int) =~= s@);
    }
    out
}

/// The canonical id of a language name: as it is written, or else in lower case.
pub open spec fn canonical_choice(language: Seq<char>) -> Option<Seq<char>> {
    match canonical_language_id(language) {
        Some(c) => Some(c),
        None => canonical_language_id(ascii_lower(language)),
    }
}

/// Whether one of the listed languages has the id `id`.
pub open spec fn listed(languages: Seq<String>, id: Seq<char>) -> bool {
    exists|i: int| 0 <= i < languages.len() && #[trigger] languages[i]@ == id
}

/// The id of a language name, when its canonical id is one of the listed languages.
pub open spec fn language_id_in(languages: Seq<String>, language: Seq<char>) -> Option<Seq<char>> {
    match canonical_choice(language) {
        Some(c) => if listed(languages, c) {
            Some(c)
        } else {
            None
        },
        None => None,
    }
}

/// The id that stands for text without a syntax.
pub open spec fn plain_text() -> Seq<char> {
    "plaintext"@
}

/// The language detected for a path that every platform splits alike, or plain text.
pub open spec fn detected_language_in(languages: Seq<String>, path: Seq<char>) -> Seq<char> {
    match path_language(path) {
        Some(l) => match language_id_in(languages, l) {
            Some(id) => id,
            None => plain_text(),
        },
        None => plain_text(),
    }
}

/// Whether a word of a `#!/usr/bin/env` line names the program rather than an option
/// or a variable.
pub open spec fn is_program_word(w: Seq<char>) -> bool {
    !has_prefix(w, "-"@) && !w.contains('=')
}

/// The first word at or after `k` that names a program.
pub open spec fn first_program_word(words: Seq<Seq<char>>, k: int) -> Option<Seq<char>>
    decreases words.len() - k,
{
    if k < 0 || k >= words.len() {
        None
    } else if is_program_word(words[k]) {
        Some(words[k])
    } else {
        first_program_word(words, k + 1)
    }
}

/// The command of a `#!` line: what follows the `#!`, trimmed.
pub open spec fn shebang_command(line: Seq<char>) -> Option<Seq<char>> {
    let t = trimmed(line);
    if has_prefix(t, "#!"@) {
        Some(trimmed(t.subrange(2, t.len() as int)))
    } else {
        None
    }
}

/// The interpreter that a `#!` line runs, by file name, in lower case; the program
/// after `env` when the line runs `env`.
pub open spec fn shebang_interpreter(line: Seq<char>) -> Option<Seq<char>> {
    match shebang_command(line) {
        None => None,
        Some(command) => {
            let words = words_from(command, 0);
            if words.len() == 0 {
                None
            } else {
                match path_file_name(words[0]) {
                    None => None,
                    Some(executable) => {
                        let interpreter = if executable == "env"@ {
                            first_program_word(words, 1)
                        } else {
                            Some(executable)
                        };
                        match interpreter {
                            None => None,
                            Some(i) => match path_file_name(i) {
                                None => None,
                                Some(name) => Some(ascii_lower(name)),
                            },
                        }
                    },
                }
            }
        },
    }
}

/// The language name an interpreter stands for.
pub open spec fn interpreter_language(i: Seq<char>) -> Seq<char> {
    if has_prefix(i, "python"@) {
        "python"@
    } else if i == "node"@ || i == "nodejs"@ || i == "deno"@ || i == "bun"@ {
        "javascript"@
    } else if i == "sh"@ || i == "bash"@ || i == "dash"@ || i == "zsh"@ || i == "fish"@ {
        "shellscript"@
    } else if has_prefix(i, "ruby"@) {
        "ruby"@
    } else if has_prefix(i, "perl"@) {
        "perl"@
    } else if has_prefix(i, "php"@) {
        "php"@
    } else if has_prefix(i, "lua"@) {
        "lua"@
    } else if i == "pwsh"@ || i == "powershell"@ {
        "powershell"@
    } else {
        i
    }
}

/// The language of a script's first line, when it is a `#!` line whose interpreter
/// names a listed language.
pub open spec fn shebang_language_in(languages: Seq<String>, line: Seq<char>) -> Option<Seq<char>> {
    match shebang_interpreter(line) {
        Some(i) => language_id_in(languages, interpreter_language(i)),
        None => None,
    }
}

/// Whether a line is the first line of the old or of the new file.
pub open spec fn is_first_line(l: DiffLine) -> bool {
    l.old_number == Some(1u32) || l.new_number == Some(1u32)
}

/// The index of the first line at or after `k` that is a file's first line.
pub open spec fn first_line_index(lines: Seq<DiffLine>, k: int) -> Option<int>
    decreases lines.len() - k,
{
    if k < 0 || k >= lines.len() {
        None
    } else if is_first_line(lines[k]) {
        Some(k)
    } else {
        first_line_index(lines, k + 1)
    }
}

/// The text of the first line of the file, from the first hunk at or after `h` that shows it.
pub open spec fn first_line_text(hunks: Seq<DiffHunk>, h: int) -> Option<Seq<char>>
    decreases hunks.len() - h,
{
    if h < 0 || h >= hunks.len() {
        None
    } else {
        match first_line_index(hunks[h].lines@, 0) {
            Some(k) => Some(hunks[h].line_text(k)),
            None => first_line_text(hunks, h + 1),
        }
    }
}

/// The characters of the path a file is shown by.
pub open spec fn display_chars(file: DiffFile) -> Seq<char> {
    decode_utf8(file.display_bytes())
}

/// The language of a file whose path gave `by_path`: that, or else the language of the
/// `#!` line that starts the file.
pub open spec fn file_language_with(languages: Seq<String>, file: DiffFile, by_path: Seq<char>) -> Seq<char> {
    if by_path != plain_text() {
        by_path
    } else {
        match first_line_text(file.hunks@, 0) {
            Some(line) => match shebang_language_in(languages, line) {
                Some(l) => l,
                None => plain_text(),
            },
            None => plain_text(),
        }
    }
}

/// The language of a file: by its path, or else by the `#!` line that starts it.
pub open spec fn file_language_in(languages: Seq<String>, file: DiffFile) -> Seq<char> {
    file_language_with(languages, file, detected_language_in(languages, display_chars(file)))
}

/// What a path's detected language can be: the language `detected_language_in` gives for a
/// path that every platform splits alike; for any path, a listed language or plain text.
pub open spec fn path_language_fits(languages: Seq<String>, path: Seq<char>, l: Seq<char>) -> bool {
    &&& portable_path(path) ==> l == detected_language_in(languages, path)
    &&& (l == plain_text() || listed(languages, l))
}

/// What a file's language can be: the one `file_language_in` gives when its path is one
/// every platform splits alike; in any case the one `file_language_with` gives for some
/// language of its path that fits it.
pub open spec fn file_language_fits(languages: Seq<String>, file: DiffFile, l: Seq<char>) -> bool {
    &&& portable_path(display_chars(file)) ==> l == file_language_in(languages, file)
    &&& exists|b: Seq<char>|
        path_language_fits(languages, display_chars(file), b) && l == #[trigger] file_language_with(
            languages,
            file,
            b,
        )
}

/// The bundled languages, looked up by name, path or first line.
pub struct LanguageCatalog {
    pub languages: Vec<String>,
}

/// The listed language whose id is `id`, when there is one.
pub fn find_language<'a>(languages: &'a [String], id: &str) -> (r: Option<&'a str>)
    ensures
        r is Some <==> listed(languages@, id@),
        r matches Some(found) ==> found@ == id@,
{
    let mut i: usize = 0;
    while i < languages.len()
        invariant
            i <= languages@.len(),
            forall|j: int| 0 <= j < i ==> #[trigger] languages@[j]@ != id@,
        decreases languages@.len() - i,
    {
        if str_equal(languages[i].as_str(), id) {
            return Some(languages[i].as_str());
        }
        i += 1;
    }
    None
}

impl LanguageCatalog {
    /// The languages that the bundled syntax pack holds: each one written plainly is
    /// found under its own id.
    pub fn bundled() -> (r: Self)
        ensures
            forall|i: int|
                0 <= i < r.languages@.len() && plain_id(#[trigger] r.languages@[i]@)
                    ==> canonical_language_id(r.languages@[i]@) == Some(r.languages@[i]@)
                    && language_id_in(r.languages@, r.languages@[i]@) == Some(r.languages@[i]@),
    {
        LanguageCatalog { languages: available_languages() }
    }

    /// The id of a language name or alias, when it is one of the listed languages.
    pub fn language_id(&self, language: &str) -> (r: Option<&str>)
        ensures
            opt_str(r) == language_id_in(self.languages@, language@),
    {
        let canonical = match canonical_language(language) {
            Some(c) => c,
            None => {
                let lower = to_ascii_lowercase(language);
                match canonical_language(lower.as_str()) {
                    Some(c) => c,
                    None => {
                        return None;
                    },
                }
            },
        };
        find_language(self.languages.as_slice(), canonical.as_str())
    }

    /// The language of a path, or `plaintext`.
    pub fn detected_language(&self, path: &str) -> (r: &str)
        ensures
            path_language_fits(self.languages@, path@, r@),
    {
        proof {
            reveal_strlit("plaintext");
        }
        match detect_language_from_path(path) {
            Some(l) => match self.language_id(l.as_str()) {
                Some(id) => id,
                None => "plaintext",
            },
            None => "plaintext",
        }
    }

    /// The language of a script whose first line is `line`, when that line is a `#!`
    /// line naming a listed language.
    pub fn language_from_shebang(&self, line: &str) -> (r: Option<&str>)
        ensures
            opt_str(r) == shebang_language_in(self.languages@, line@),
    {
        match shebang_interpreter_of(line) {
            Some(i) => {
                let language = interpreter_language_of(i.as_str());
                self.language_id(language)
            },
            None => None,
        }
    }

    /// The language of a changed file: by its path, or by the `#!` line that starts it.
    pub fn detected_language_for_file(&self, file: &DiffFile) -> (r: &str)
        requires
            file.hunks_wf(),
        ensures
            file_language_fits(self.languages@, *file, r@),
    {
        proof {
            reveal_strlit("plaintext");
        }
        let shown = file.display_path();
        proof {
            assert(decode_utf8(utf8(shown@)) == shown@);
        }
        let by_path = self.detected_language(shown);
        let r = if !str_equal(by_path, "plaintext") {
            by_path
        } else {
            match first_line_of(file) {
                Some(line) => match self.language_from_shebang(line) {
                    Some(l) => l,
                    None => "plaintext",
                },
                None => "plaintext",
            }
        };
        proof {
            assert(shown@ == display_chars(*file));
            assert(r@ == file_language_with(self.languages@, *file, by_path@));
        }
        r
    }
}

/// The characters of an optional string slice.
pub open spec fn opt_str(o: Option<&str>) -> Option<Seq<char>> {
    match o {
        Some(s) => Some(s@),
        None => None,
    }
}

/// The text of the first line of the file that the hunks show.
fn first_line_of(file: &DiffFile) -> (r: Option<&str>)
    requires
        file.hunks_wf(),
    ensures
        opt_str(r) == first_line_text(file.hunks@, 0),
{
    let mut h: usize = 0;
    while h < file.hunks.len()
        invariant
            file.hunks_wf(),
            h <= file.hunks@.len(),
            first_line_text(file.hunks@, h as int) == first_line_text(file.hunks@, 0),
        decreases file.hunks@.len() - h,
    {
        let hunk = &file.hunks[h];
        let mut k: usize = 0;
        while k < hunk.lines.len()
            invariant
                file.hunks_wf(),
                h < file.hunks@.len(),
                *hunk == file.hunks@[h as int],
                first_line_text(file.hunks@, h as int) == first_line_text(file.hunks@, 0),
                k <= hunk.lines@.len(),
                first_line_index(hunk.lines@, k as int) == first_line_index(hunk.lines@, 0),
            decreases hunk.lines@.len() - k,
        {
            let line = &hunk.lines[k];
            if line.old_number == Some(1u32) || line.new_number == Some(1u32) {
                proof {
                    assert(hunk.wf());
                    assert(hunk.lines@[k as int].fits(hunk.text()));
                    assert(first_line_index(hunk.lines@, k as int) == Some(k as int));
                    assert(first_line_text(file.hunks@, h as int) == Some(hunk.line_text(k as int)));
                }
                let text = hunk.line_content(line);
                assert(text@ == hunk.line_text(k as int));
                return Some(text);
            }
            k += 1;
        }
        h += 1;
    }
    None
}

/// The interpreter that a `#!` line runs, as `shebang_interpreter` describes it.
fn shebang_interpreter_of(line: &str) -> (r: Option<String>)
    ensures
        opt_chars(r) == shebang_interpreter(line@),
{
    proof {
        reveal_strlit("#!");
        reveal_strlit("env");
    }
    let t = trim_str(line);
    if !str_starts_with(t, "#!") {
        return None;
    }
    let n = t.unicode_len();
    let rest = t.substring_char(2, n);
    let command = trim_str(rest);
    let words = split_words(command);
    proof {
        assert(words@.map_values(|w: &str| w@) =~= words_from(command@, 0));
    }
    if words.len() == 0 {
        return None;
    }
    let executable = match path_file_name_of(words[0]) {
        Some(e) => e,
        None => {
            return None;
        },
    };
    let interpreter = if str_equal(executable, "env") {
        match first_program_word_of(&words) {
            Some(w) => w,
            None => {
                return None;
            },
        }
    } else {
        executable
    };
    match path_file_name_of(interpreter) {
        Some(name) => Some(to_ascii_lowercase(name)),
        None => None,
    }
}

/// Whether a word names a program rather than an option or a variable.
fn is_program_word_of(w: &str) -> (r: bool)
    ensures
        r == is_program_word(w@),
{
    proof {
        reveal_strlit("-");
    }
    let c = chars_of(w);
    let mut i: usize = 0;
    while i < c.len()
        invariant
            c@ == w@,
            i <= c@.len(),
            forall|j: int| 0 <= j < i ==> w@[j] != '=',
        decreases c@.len() - i,
    {
        if c[i] == '=' {
            proof {
                assert(w@.contains('='));
            }
            return false;
        }
        i += 1;
    }
    !str_starts_with(w, "-")
}

/// The first word after the first that names a program.
fn first_program_word_of<'a>(words: &Vec<&'a str>) -> (r: Option<&'a str>)
    ensures
        opt_str(r) == first_program_word(words@.map_values(|w: &str| w@), 1),
{
    let ghost ws = words@.map_values(|w: &str| w@);
    let mut k: usize = 1;
    while k < words.len()
        invariant
            ws == words@.map_values(|w: &str| w@),
            1 <= k,
            first_program_word(ws, k as int) == first_program_word(ws, 1),
        decreases words@.len() - k,
    {
        if is_program_word_of(words[k]) {
            return Some(words[k]);
        }
        k += 1;
    }
    None
}

/// The language name an interpreter stands for.
fn interpreter_language_of(i: &str) -> (r: &str)
    ensures
        r@ == interpreter_language(i@),
{
    if str_starts_with(i, "python") {
        "python"
    } else if str_equal(i, "node") || str_equal(i, "nodejs") || str_equal(i, "deno") || str_equal(
        i,
        "bun",
    ) {
        "javascript"
    } else if str_equal(i, "sh") || str_equal(i, "bash") || str_equal(i, "dash") || str_equal(
        i,
        "zsh",
    ) || str_equal(i, "fish") {
        "shellscript"
    } else if str_starts_with(i, "ruby") {
        "ruby"
    } else if str_starts_with(i, "perl") {
        "perl"
    } else if str_starts_with(i, "php") {
        "php"
    } else if str_starts_with(i, "lua") {
        "lua"
    } else if str_equal(i, "pwsh") || str_equal(i, "powershell") {
        "powershell"
    } else {
        i
    }
}

/// Whether a trimmed line looks like a CSS rule rather than script.
pub open spec fn looks_like_css(t: Seq<char>) -> bool {
    ||| has_prefix(t, "."@)
    ||| has_prefix(t, "#"@)
    ||| has_prefix(t, "@"@)
    ||| has_prefix(t, "--"@)
    ||| (t.contains(':') && (has_suffix(t, ";"@) || has_suffix(t, "{"@) || has_suffix(t, "}"@)))
}

/// The language of a line of a component file that is neither markup nor template
/// syntax: CSS when it looks like a rule, else the component's script language.
pub open spec fn embedded_language_of(language: Seq<char>, content: Seq<char>) -> Option<Seq<char>> {
    let t = trimmed(content);
    if t.len() == 0 || has_prefix(t, "<"@) || has_infix(t, "{{"@) || has_prefix(t, "{#"@)
        || has_prefix(t, "{/"@) {
        None
    } else if language == "vue"@ {
        Some(
            if looks_like_css(t) {
                "css"@
            } else {
                "typescript"@
            },
        )
    } else if language == "svelte"@ || language == "html"@ {
        Some(
            if looks_like_css(t) {
                "css"@
            } else {
                "javascript"@
            },
        )
    } else {
        None
    }
}

/// Whether `s` holds the character `c`.
fn str_has_char(s: &str, c: char) -> (r: bool)
    ensures
        r == s@.contains(c),
{
    let cs = chars_of(s);
    let mut i: usize = 0;
    while i < cs.len()
        invariant
            cs@ == s@,
            i <= cs@.len(),
            forall|j: int| 0 <= j < i ==> s@[j] != c,
        decreases cs@.len() - i,
    {
        if cs[i] == c {
            proof {
                assert(s@[i as int] == c);
            }
            return true;
        }
        i += 1;
    }
    false
}

/// The language of the script or style inside a line of a Vue, Svelte or HTML file.
pub fn embedded_language(language: &str, content: &str) -> (r: Option<&'static str>)
    ensures
        opt_str(r) == embedded_language_of(language@, content@),
{
    let t = trim_str(content);
    if t.unicode_len() == 0 || str_starts_with(t, "<") || str_contains(t, "{{") || str_starts_with(
        t,
        "{#",
    ) || str_starts_with(t, "{/") {
        return None;
    }
    let css = str_starts_with(t, ".") || str_starts_with(t, "#") || str_starts_with(t, "@")
        || str_starts_with(t, "--") || (str_has_char(t, ':') && (str_ends_with(t, ";")
        || str_ends_with(t, "{") || str_ends_with(t, "}")));
    if str_equal(language, "vue") {
        Some(
            if css {
                "css"
            } else {
                "typescript"
            },
        )
    } else if str_equal(language, "svelte") || str_equal(language, "html") {
        Some(
            if css {
                "css"
            } else {
                "javascript"
            },
        )
    } else {
        None
    }
}

/// The accent colour of a language, as a `0xRRGGBB` value.
pub open spec fn language_color_of(language: Seq<char>) -> u32 {
    if language == "rust"@ {
        0xe48a63
    } else if language == "typescript"@ || language == "tsx"@ {
        0x5a9ee6
    } else if language == "javascript"@ || language == "jsx"@ {
        0xe8c95b
    } else if language == "python"@ {
        0x6ea7d7
    } else if language == "markdown"@ || language == "mdx"@ {
        0x8b7cf6
    } else if language == "go"@ {
        0x55bfc8
    } else if language == "vue"@ {
        0x42b883
    } else if language == "svelte"@ {
        0xff6b35
    } else if language == "html"@ {
        0xe76f51
    } else if language == "css"@ || language == "scss"@ || language == "sass"@ || language
        == "less"@ {
        0x6c8cff
    } else if language == "kotlin"@ || language == "swift"@ {
        0xb785f5
    } else if language == "c"@ || language == "cpp"@ || language == "csharp"@ {
        0x7d9bd1
    } else {
        0x8b97a8
    }
}

/// The accent colour that marks a file of the given language.
pub fn language_color(language: &str) -> (r: u32)
    ensures
        r == language_color_of(language@),
{
    if str_equal(language, "rust") {
        0xe48a63
    } else if str_equal(language, "typescript") || str_equal(language, "tsx") {
        0x5a9ee6
    } else if str_equal(language, "javascript") || str_equal(language, "jsx") {
        0xe8c95b
    } else if str_equal(language, "python") {
        0x6ea7d7
    } else if str_equal(language, "markdown") || str_equal(language, "mdx") {
        0x8b7cf6
    } else if str_equal(language, "go") {
        0x55bfc8
    } else if str_equal(language, "vue") {
        0x42b883
    } else if str_equal(language, "svelte") {
        0xff6b35
    } else if str_equal(language, "html") {
        0xe76f51
    } else if str_equal(language, "css") || str_equal(language, "scss") || str_equal(
        language,
        "sass",
    ) || str_equal(language, "less") {
        0x6c8cff
    } else if str_equal(language, "kotlin") || str_equal(language, "swift") {
        0xb785f5
    } else if str_equal(language, "c") || str_equal(language, "cpp") || str_equal(
        language,
        "csharp",
    ) {
        0x7d9bd1
    } else {
        0x8b97a8
    }
}

} // verus!
