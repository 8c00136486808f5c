use sabun::diff::DiffFile;
use sabun::tree::{
    build_file_tree_rows, file_tree_row_offsets, normalized_path_components,
    sticky_file_tree_directories, FileTreeRow,
};

fn file(path: &str) -> DiffFile {
    DiffFile {
        old_path: format!("a/{path}"),
        new_path: format!("b/{path}"),
        hunks: Vec::new(),
        is_new: false,
        is_deleted: false,
    }
}

#[test]
fn changed_files_form_a_collapsible_path_tree() {
    let files = vec![
        file("src/components/button.rs"),
        file("src/lib.rs"),
        file("README.md"),
    ];

    let expanded = build_file_tree_rows(&files, &[]);
    assert!(matches!(
        &expanded[0],
        FileTreeRow::Directory { path, depth: 0, .. } if path == "src"
    ));
    assert!(matches!(
        &expanded[1],
        FileTreeRow::Directory { path, depth: 1, .. } if path == "src/components"
    ));
    assert!(matches!(
        expanded[2],
        FileTreeRow::File {
            file_index: 0,
            depth: 2
        }
    ));

    let collapsed = build_file_tree_rows(&files, &["src".to_owned()]);
    assert_eq!(collapsed.len(), 2);
    assert!(matches!(
        &collapsed[0],
        FileTreeRow::Directory {
            path,
            expanded: false,
            ..
        } if path == "src"
    ));
    assert!(matches!(
        collapsed[1],
        FileTreeRow::File { file_index: 2, .. }
    ));
}

#[test]
fn file_tree_preserves_diff_order_between_sibling_entries() {
    let files = vec![
        file("README.md"),
        file("src/z.rs"),
        file("src/a.rs"),
        file("docs/guide.md"),
    ];

    let rows = build_file_tree_rows(&files, &[]);
    assert!(matches!(
        rows.as_slice(),
        [
            FileTreeRow::File { file_index: 0, .. },
            FileTreeRow::Directory { path: src, .. },
            FileTreeRow::File { file_index: 1, .. },
            FileTreeRow::File { file_index: 2, .. },
            FileTreeRow::Directory { path: docs, .. },
            FileTreeRow::File { file_index: 3, .. },
        ] if src == "src" && docs == "docs"
    ));
}

#[test]
fn single_child_directory_chains_share_one_tree_row() {
    let files = vec![
        file("src/features/auth/login.rs"),
        file("src/features/auth/logout.rs"),
    ];

    let expanded = build_file_tree_rows(&files, &[]);
    assert!(matches!(
        &expanded[0],
        FileTreeRow::Directory {
            path,
            name,
            depth: 0,
            expanded: true,
        } if path == "src/features/auth" && name == "src/features/auth"
    ));
    assert!(matches!(
        expanded[1],
        FileTreeRow::File {
            file_index: 0,
            depth: 1,
        }
    ));

    let collapsed = build_file_tree_rows(&files, &["src/features/auth".to_owned()]);
    assert_eq!(collapsed.len(), 1);
    assert!(matches!(
        &collapsed[0],
        FileTreeRow::Directory {
            path,
            name,
            expanded: false,
            ..
        } if path == "src/features/auth" && name == "src/features/auth"
    ));
}

#[test]
fn scrolled_file_tree_keeps_the_current_directory_chain_sticky() {
    let files = vec![
        file("src/components/button.rs"),
        file("src/lib.rs"),
        file("README.md"),
    ];
    let rows = build_file_tree_rows(&files, &[]);
    let offsets = file_tree_row_offsets(&rows);

    let nested = sticky_file_tree_directories(&rows, &offsets, 70);
    assert_eq!(nested.len(), 2);
    assert!(matches!(
        &nested[0],
        FileTreeRow::Directory { path, .. } if path == "src"
    ));
    assert!(matches!(
        &nested[1],
        FileTreeRow::Directory { path, .. } if path == "src/components"
    ));

    let source_root = sticky_file_tree_directories(&rows, &offsets, 100);
    assert_eq!(source_root.len(), 1);
    assert!(matches!(
        &source_root[0],
        FileTreeRow::Directory { path, .. } if path == "src"
    ));

    assert!(sticky_file_tree_directories(&rows, &offsets, 120).is_empty());
}

#[test]
fn path_components_split_at_both_separators_and_skip_empty_ones() {
    assert_eq!(
        normalized_path_components("/src\\\\lib//mod.rs/"),
        vec!["src", "lib", "mod.rs"]
    );
    assert!(normalized_path_components("//").is_empty());
}

#[test]
fn unscrolled_tree_pins_nothing() {
    let files = vec![file("src/lib.rs")];
    let rows = build_file_tree_rows(&files, &[]);
    let offsets = file_tree_row_offsets(&rows);
    assert_eq!(offsets, vec![0, 28, 56]);
    assert!(sticky_file_tree_directories(&rows, &offsets, 0).is_empty());
}

#[test]
fn chain_stops_at_a_collapsed_directory() {
    let files = vec![file("a/b/c/one.rs"), file("a/b/c/two.rs")];
    let rows = build_file_tree_rows(&files, &["a/b".to_owned()]);
    assert_eq!(rows.len(), 1);
    assert!(matches!(
        &rows[0],
        FileTreeRow::Directory { path, name, expanded: false, .. } if path == "a/b" && name == "a/b"
    ));
}

#[test]
fn expanded_tree_shows_every_file_exactly_once() {
    let files = vec![
        file("src/a/b/c.rs"),
        file("src/a/d.rs"),
        file("docs/guide.md"),
        file("src/a/b/e.rs"),
        file("top.txt"),
        file("docs/api/index.md"),
    ];
    let rows = build_file_tree_rows(&files, &[]);
    for index in 0..files.len() {
        let shown = rows
            .iter()
            .filter(|row| matches!(row, FileTreeRow::File { file_index, .. } if *file_index == index))
            .count();
        assert_eq!(shown, 1, "file {index}");
    }
}
