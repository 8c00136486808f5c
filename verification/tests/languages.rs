use sabun::diff::{DiffFile, DiffHunk, LineKind};
use sabun::language::{embedded_language, language_color, LanguageCatalog};
use sabun::layout::{advance_columns, code_columns};
use sabun::theme::{expand_directions, ExpandIconDirection, ThemeIcon, ThemeMode};
use sabun::rows::{ContextExpandDirection, ContextGapPosition};

fn script(first_line: &str) -> DiffFile {
    DiffFile {
        old_path: "a/tools/release".into(),
        new_path: "b/tools/release".into(),
        hunks: vec![DiffHunk::from_lines(
            "@@ -1 +1 @@",
            1,
            1,
            vec![(Some(1), Some(1), LineKind::Context, first_line.to_string())],
        )],
        is_new: false,
        is_deleted: false,
    }
}

#[test]
fn extensionless_scripts_are_detected_from_their_first_line() {
    let catalog = LanguageCatalog::bundled();
    assert_eq!(
        catalog.detected_language_for_file(&script("#!/usr/bin/env python3")),
        "python"
    );
    assert_eq!(
        catalog.detected_language_for_file(&script("#!/usr/bin/env -S FOO=1 node")),
        "javascript"
    );
    assert_eq!(
        catalog.detected_language_for_file(&script("plain words")),
        "plaintext"
    );
}

#[test]
fn paths_and_names_resolve_to_bundled_ids() {
    let catalog = LanguageCatalog::bundled();
    assert_eq!(catalog.detected_language("src/main.rs"), "rust");
    assert_eq!(catalog.detected_language("notes.unknown-extension"), "plaintext");
    assert_eq!(catalog.language_id("python"), Some("python"));
    assert_eq!(catalog.language_id("no such language"), None);
    assert_eq!(catalog.language_from_shebang("#!/usr/bin/python3.12"), Some("python"));
    assert_eq!(catalog.language_from_shebang("#!"), None);
    assert_eq!(catalog.language_from_shebang("print('hi')"), None);
}

#[test]
fn component_lines_are_split_between_script_and_style() {
    assert_eq!(embedded_language("vue", "  .button { color: red; }"), Some("css"));
    assert_eq!(embedded_language("vue", "const count = ref(0);"), Some("typescript"));
    assert_eq!(embedded_language("svelte", "color: red;"), Some("css"));
    assert_eq!(embedded_language("html", "let x = 1"), Some("javascript"));
    assert_eq!(embedded_language("html", "<div>"), None);
    assert_eq!(embedded_language("vue", "{{ count }}"), None);
    assert_eq!(embedded_language("svelte", "{#if ready}"), None);
    assert_eq!(embedded_language("vue", "   "), None);
    assert_eq!(embedded_language("rust", "let x = 1;"), None);
}

#[test]
fn languages_have_accent_colors() {
    assert_eq!(language_color("rust"), 0xe48a63);
    assert_eq!(language_color("tsx"), 0x5a9ee6);
    assert_eq!(language_color("csharp"), 0x7d9bd1);
    assert_eq!(language_color("cobol"), 0x8b97a8);
}

#[test]
fn code_columns_count_tabs_and_wide_characters() {
    assert_eq!(code_columns("abc"), 3);
    assert_eq!(code_columns("\tx"), 5);
    assert_eq!(code_columns("ab\tx"), 5);
    assert_eq!(code_columns("古い"), 4);
    assert_eq!(code_columns(""), 0);
    assert_eq!(advance_columns(5, '\t', None), 8);
    assert_eq!(advance_columns(4, '\t', None), 8);
    assert_eq!(advance_columns(4, 'x', Some(2)), 6);
    assert_eq!(advance_columns(4, '\u{7}', None), 4);
    assert_eq!(advance_columns(u32::MAX - 1, 'x', Some(5)), u32::MAX);
}

#[test]
fn theme_switch_toggles_and_shows_the_matching_icon() {
    assert_eq!(ThemeMode::Dark.toggled(), ThemeMode::Light);
    assert_eq!(ThemeMode::Light.toggled().toggled(), ThemeMode::Light);
    assert_eq!(ThemeIcon::for_mode(ThemeMode::Dark), ThemeIcon::Moon);
    assert_eq!(ThemeIcon::for_mode(ThemeMode::Light), ThemeIcon::Sun);
    assert_eq!(
        ExpandIconDirection::for_direction(ContextExpandDirection::Up),
        ExpandIconDirection::Up
    );
    assert_eq!(
        expand_directions(ContextGapPosition::Middle),
        vec![ContextExpandDirection::Down, ContextExpandDirection::Up]
    );
    assert_eq!(
        expand_directions(ContextGapPosition::Leading),
        vec![ContextExpandDirection::Up]
    );
}

#[test]
fn every_bundled_language_is_found_under_its_own_id() {
    let catalog = LanguageCatalog::bundled();
    assert!(!catalog.languages.is_empty());
    for id in &catalog.languages {
        let plain = !id.starts_with('.')
            && id
                .chars()
                .all(|c| c.is_ascii() && !c.is_ascii_uppercase() && !c.is_ascii_whitespace());
        if plain {
            assert_eq!(catalog.language_id(id), Some(id.as_str()), "{id}");
        }
    }
}
