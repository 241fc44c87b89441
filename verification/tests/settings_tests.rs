use ink::settings::Settings;

fn create_test_settings(ignore_patterns: Vec<String>) -> Settings {
    Settings {
        recurse: true,
        cache_dir: "~/.cache/ink".to_string(),
        notes_dir: "~/notes".to_string(),
        ignore: ignore_patterns,
        note_template: None,
    }
}

#[test]
fn test_is_path_ignored_directory_patterns() {
    let settings = create_test_settings(vec!["archive/**".to_string(), "Readwise/**".to_string()]);

    // Should ignore files in these directories
    assert!(settings.is_path_ignored("archive/deleted-markdown-file.md"));
    assert!(settings.is_path_ignored("Readwise/a-literature-note.md"));
    assert!(settings.is_path_ignored("archive/subfolder/old-note.md"));

    // Should not ignore top-level files or other directories
    assert!(!settings.is_path_ignored("index.md"));
    assert!(!settings.is_path_ignored("a-cool-project/note.md"));
    assert!(!settings.is_path_ignored("documents/important.md"));
}

#[test]
fn test_is_path_ignored_wildcard_directory_patterns() {
    let settings = create_test_settings(vec!["*.backup/**".to_string(), "temp*/**".to_string()]);

    // Should ignore files in wildcard-matched directories
    assert!(settings.is_path_ignored("notes.backup/file.md"));
    assert!(settings.is_path_ignored("data.backup/important.md"));
    assert!(settings.is_path_ignored("temp_files/draft.md"));
    assert!(settings.is_path_ignored("temporary/notes.md"));

    // Should not ignore files in non-matching directories
    assert!(!settings.is_path_ignored("backup/file.md"));
    assert!(!settings.is_path_ignored("files.temp/note.md"));
    assert!(!settings.is_path_ignored("project/temp_note.md"));
}

#[test]
fn test_is_path_ignored_default_config_patterns() {
    let settings = create_test_settings(vec![
        "archive/**".to_string(),
        "Readwise/**".to_string(),
        "*.backup/**".to_string(),
        "temp*/**".to_string(),
    ]);

    // Test the expected default behavior
    assert!(settings.is_path_ignored("archive/deleted-note.md"));
    assert!(settings.is_path_ignored("Readwise/literature-note.md"));
    assert!(settings.is_path_ignored("notes.backup/old.md"));
    assert!(settings.is_path_ignored("temp_drafts/draft.md"));

    // These should NOT be ignored
    assert!(!settings.is_path_ignored("index.md"));
    assert!(!settings.is_path_ignored("a-cool-project/note.md"));
    assert!(!settings.is_path_ignored("documents/research.md"));
    assert!(!settings.is_path_ignored("projects/work/meeting-notes.md"));
}

#[test]
fn test_is_path_ignored_empty_patterns() {
    let settings = create_test_settings(vec![]);

    // No patterns should mean nothing is ignored
    assert!(!settings.is_path_ignored("archive/file.md"));
    assert!(!settings.is_path_ignored("any/path/file.md"));
}

#[test]
fn test_is_path_ignored_invalid_patterns() {
    let settings = create_test_settings(vec!["[invalid".to_string()]);

    // Invalid patterns should not match anything
    assert!(!settings.is_path_ignored("test/file.md"));
}

#[test]
fn test_is_path_ignored_oversized_pattern_does_not_panic() {
    // A syntactically valid glob whose compiled form exceeds the matcher's
    // internal size limits must behave like any other uncompilable
    // pattern: it matches nothing, and the check never panics.
    let huge = "[ab]".repeat(300_000);
    let settings = create_test_settings(vec![huge]);
    assert!(!settings.is_path_ignored("x"));
}

#[test]
fn test_expand_tilde_with_home() {
    let expanded = ink::settings::expand_tilde_with(
        "~/notes",
        &Some("/home/someone".to_string()),
    );
    assert_eq!(expanded, "/home/someone/notes");

    let absolute = ink::settings::expand_tilde_with(
        "/var/notes",
        &Some("/home/someone".to_string()),
    );
    assert_eq!(absolute, "/var/notes");

    let no_home = ink::settings::expand_tilde_with("~/notes", &None);
    assert_eq!(no_home, "~/notes");
}

#[test]
fn test_get_metadata_path_under_cache() {
    let settings = Settings {
        recurse: true,
        cache_dir: "/tmp/ink-cache".to_string(),
        notes_dir: "/tmp/notes".to_string(),
        ignore: vec![],
        note_template: None,
    };
    assert_eq!(
        ink::freshness::get_metadata_path(&settings),
        "/tmp/ink-cache/index_metadata.txt"
    );
}
