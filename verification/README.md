# sabun

The data model and view logic of a Git diff viewer, verified with Verus.

`src/` is the library. Its functions carry contracts that Verus proves; the few
calls into outside crates (`similar`, `syntaxmate`, `unicode-width`) and into parts of
std that Verus has no specification for go through small wrappers whose contracts are
trusted, each with a doc comment that says what it claims:

- `parse` reads unified diffs into files, hunks and lines that share one text buffer;
  `hunk_header` reads `@@ -a,b +c,d @@` headers.
- `diff` holds the model: line counts, paths as shown, the old text of a file and the
  revealing of hidden context from it, the texts that syntax highlighting reads.
- `alignment`, `stream`, `rows` and `layout` turn files into one virtual stream of rows
  (split or unified), with collapsed context, folded files and row heights.
- `inline` finds the changed words of a pair of lines (with the `similar` crate).
- `selection`, `navigation`, `scrolling` and `theme` hold the interaction rules: text
  selections and their drags, stepping between files, folding, revealing context, the
  theme switch; `copying` gives the text a selection copies and the path a file copies.
- `tree` builds the sidebar's file tree and its pinned directories.
- `language` picks a syntax language by path or `#!` line (with `syntaxmate`).
- `cli` reads the command line; `source` decides what is loaded and names it;
  `git_delta` turns each Git change into a file of the diff and routes the hunks and
  lines of Git's walk to the file they belong to, one event at a time;
  `file_meta` and `file_kind` describe files.

`app/` is the `sabun` command around it: walking repositories with `git2` and handing
each callback to the library as an event, reading patches and files from disk,
watching with `notify`, and printing the diff.

`tests/` runs the library on concrete diffs and command lines.
