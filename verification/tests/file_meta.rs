use sabun::diff::DiffFile;
use sabun::file_kind::FileChangeKind;
use sabun::file_meta::{FileViewData, FileViewMeta};
use sabun::language::LanguageCatalog;
use sabun::parse::demo_diff;

fn file(old: &str, new: &str) -> DiffFile {
    DiffFile {
        old_path: old.into(),
        new_path: new.into(),
        hunks: Vec::new(),
        is_new: false,
        is_deleted: false,
    }
}

#[test]
fn headers_split_directory_and_name() {
    let catalog = LanguageCatalog::bundled();
    let meta = FileViewMeta::new(&file("a/src/ui/button.rs", "b/src/ui/button.rs"), Some("/work"), &catalog);
    assert_eq!(meta.display_path, "src/ui/button.rs");
    assert_eq!(meta.header_path, "src/ui / button.rs");
    assert_eq!(meta.header_file_name_start, "src/ui / ".len());
    assert_eq!(meta.file_name, "button.rs");
    assert_eq!(meta.relative_path.as_deref(), Some("src/ui/button.rs"));
    assert_eq!(meta.absolute_path.as_deref(), Some("/work/src/ui/button.rs"));
    assert_eq!(meta.language, "rust");
    assert_eq!(meta.change_kind, FileChangeKind::Modified);

    let top = FileViewMeta::new(&file("a/README.md", "b/README.md"), Some("/work/"), &catalog);
    assert_eq!(top.header_path, "README.md");
    assert_eq!(top.header_file_name_start, 0);
    assert_eq!(top.absolute_path.as_deref(), Some("/work/README.md"));

    let absolute = FileViewMeta::new(&file("/etc/hosts", "/etc/hosts"), None, &catalog);
    assert_eq!(absolute.relative_path, None);
    assert_eq!(absolute.absolute_path.as_deref(), Some("/etc/hosts"));

    let no_root = FileViewMeta::new(&file("a/x.txt", "b/x.txt"), None, &catalog);
    assert_eq!(no_root.absolute_path, None);
}

#[test]
fn file_view_data_totals_the_counts() {
    let catalog = LanguageCatalog::bundled();
    let diff = demo_diff();
    let data = FileViewData::from_files(&diff.files, None, &catalog);
    assert_eq!(data.meta.len(), 3);
    assert_eq!(data.stats[1], (4, 2));
    assert_eq!(data.total_additions, diff.additions());
    assert_eq!(data.total_deletions, diff.deletions());
    assert_eq!(data.meta[1].language, "tsx");
}
