use ink::note::Note;
use ink::prompt::ParsedQuery;
use ink::settings::Settings;

// Default settings matching the shipped configuration.
fn create_default_settings() -> Settings {
    Settings {
        recurse: true,
        cache_dir: "~/.cache/ink".to_string(),
        notes_dir: "/Users/test/notes".to_string(),
        ignore: vec![
            "archive/**".to_string(),
            "Readwise/**".to_string(),
            "*.backup/**".to_string(),
            "temp*/**".to_string(),
        ],
        note_template: None,
    }
}

#[test]
fn test_note_new_with_title_only() {
    let note = Note::new("My Test Note".to_string(), None);

    assert_eq!(note.title, "My Test Note");
    assert_eq!(note.id, "my-test-note");
    assert_eq!(note.body, None);
    assert!(note.tags.is_empty());
    assert_eq!(note.path, None);
    assert_eq!(note.url, None);
    assert_eq!(note.created, None);
    assert_eq!(note.modified, None);
}

#[test]
fn test_note_new_with_custom_id() {
    let note = Note::new("Another Note".to_string(), Some("custom-id".to_string()));

    assert_eq!(note.title, "Another Note");
    assert_eq!(note.id, "custom-id");
    assert_eq!(note.body, None);
    assert!(note.tags.is_empty());
    assert_eq!(note.path, None);
    assert_eq!(note.url, None);
    assert_eq!(note.created, None);
    assert_eq!(note.modified, None);
}

#[test]
fn test_note_new_with_special_characters_in_title() {
    let note = Note::new("Special & Characters! Note".to_string(), None);

    assert_eq!(note.title, "Special & Characters! Note");
    assert_eq!(note.id, "special-characters-note");
}

#[test]
fn test_note_from_parsed_prompt_basic() {
    let parsed_query = ParsedQuery::from_query("Test note content");
    let note = Note::from_parsed_prompt(parsed_query);

    assert_eq!(note.title, "Test note content");
    assert_eq!(note.id, "test-note-content");
    assert_eq!(note.path, Some("test-note-content.md".to_string()));
    assert_eq!(note.body, None);
    assert!(note.tags.is_empty());
    assert_eq!(note.url, None);
    assert_eq!(note.created, None);
    assert_eq!(note.modified, None);
}

#[test]
fn test_note_from_parsed_prompt_with_tags() {
    let parsed_query = ParsedQuery::from_query("Note with tags #rust #programming");
    let note = Note::from_parsed_prompt(parsed_query);

    assert_eq!(note.title, "Note with tags");
    assert_eq!(note.id, "note-with-tags");
    assert_eq!(note.path, Some("note-with-tags.md".to_string()));

    assert_eq!(note.tags.len(), 2);
    assert!(note.tags.contains(&"rust".to_string()));
    assert!(note.tags.contains(&"programming".to_string()));
}

#[test]
fn test_note_from_parsed_prompt_with_url() {
    let parsed_query = ParsedQuery::from_query("Bookmark note https://example.com");
    let note = Note::from_parsed_prompt(parsed_query);

    assert_eq!(note.title, "Bookmark note");
    assert_eq!(note.id, "bookmark-note");
    assert_eq!(note.url, Some("https://example.com".to_string()));
}

#[test]
fn test_note_from_parsed_prompt_with_tags_and_url() {
    let parsed_query = ParsedQuery::from_query("Complex note #web #bookmark https://example.com");
    let note = Note::from_parsed_prompt(parsed_query);

    assert_eq!(note.title, "Complex note");
    assert_eq!(note.id, "complex-note");
    assert_eq!(note.url, Some("https://example.com".to_string()));

    assert_eq!(note.tags.len(), 2);
    assert!(note.tags.contains(&"web".to_string()));
    assert!(note.tags.contains(&"bookmark".to_string()));
}

#[test]
fn test_note_new_bookmark_basic() {
    let note = Note::new_bookmark("https://example.com", None, None, None);

    assert_eq!(note.url, Some("https://example.com".to_string()));
    assert!(note.tags.contains(&"bookmark".to_string()));
    assert_eq!(note.path, Some(format!("{}.md", note.id)));
    assert_eq!(note.body, None);
    assert_eq!(note.created, None);
    assert_eq!(note.modified, None);
}

#[test]
fn test_note_new_bookmark_with_custom_id() {
    let note = Note::new_bookmark(
        "https://example.com",
        Some("my-bookmark".to_string()),
        None,
        None,
    );

    assert_eq!(note.id, "my-bookmark");
    assert_eq!(note.path, Some("my-bookmark.md".to_string()));
    assert_eq!(note.url, Some("https://example.com".to_string()));
    assert!(note.tags.contains(&"bookmark".to_string()));
}

#[test]
fn test_note_new_bookmark_with_description() {
    let description = Some("This is a great website".to_string());
    let note = Note::new_bookmark("https://example.com", None, description.clone(), None);

    assert_eq!(note.body, description);
    assert_eq!(note.url, Some("https://example.com".to_string()));
    assert!(note.tags.contains(&"bookmark".to_string()));
}

#[test]
fn test_note_new_bookmark_fetched_title() {
    let note = Note::new_bookmark(
        "https://example.com",
        None,
        None,
        Some("Example Domain".to_string()),
    );

    assert_eq!(note.title, "Example Domain");
    assert_eq!(note.id, "example-domain");
    assert_eq!(note.path, Some("example-domain.md".to_string()));
}

#[test]
fn test_note_add_tag() {
    let mut note = Note::new("Test Note".to_string(), None);
    assert!(note.tags.is_empty());

    note.add_tag("rust".to_string());
    assert!(note.tags.contains(&"rust".to_string()));
    assert_eq!(note.tags.len(), 1);

    note.add_tag("programming".to_string());
    assert!(note.tags.contains(&"rust".to_string()));
    assert!(note.tags.contains(&"programming".to_string()));
    assert_eq!(note.tags.len(), 2);

    // Adding the same tag again should not duplicate it
    note.add_tag("rust".to_string());
    assert_eq!(note.tags.len(), 2);
}

#[test]
fn test_note_add_tag_sanitizes_controls() {
    let mut note = Note::new("Test Note".to_string(), None);

    note.add_tag("tag\0prompt".to_string());
    assert_eq!(note.tags.len(), 1);
    assert!(note.tags.contains(&"tagprompt".to_string()));

    note.add_tag("\0\u{1f}".to_string());
    assert_eq!(note.tags.len(), 1);
}

#[test]
fn test_note_is_hidden() {
    let settings = create_default_settings();
    let mut note = Note::new("Test Note".to_string(), None);

    // Note should not be hidden initially
    assert!(!note.is_hidden_with_settings(&settings));

    // Add some regular tags
    note.add_tag("rust".to_string());
    note.add_tag("programming".to_string());
    assert!(!note.is_hidden_with_settings(&settings));

    // Add hidden tag
    note.add_tag("hidden".to_string());
    assert!(note.is_hidden_with_settings(&settings));

    // Should still be hidden with other tags present
    note.add_tag("more-tags".to_string());
    assert!(note.is_hidden_with_settings(&settings));
}

#[test]
fn test_note_is_hidden_by_ignored_path() {
    let settings = create_default_settings();

    // Test note in archive directory (should be hidden)
    let mut archive_note = Note::new("Archive Note".to_string(), None);
    archive_note.path = Some("archive/old-note.md".to_string());
    assert!(archive_note.is_hidden_with_settings(&settings));

    // Test note in Readwise directory (should be hidden)
    let mut readwise_note = Note::new("Readwise Note".to_string(), None);
    readwise_note.path = Some("Readwise/literature-note.md".to_string());
    assert!(readwise_note.is_hidden_with_settings(&settings));

    // Test note in backup directory (should be hidden due to *.backup pattern)
    let mut backup_note = Note::new("Backup Note".to_string(), None);
    backup_note.path = Some("notes.backup/file.md".to_string());
    assert!(backup_note.is_hidden_with_settings(&settings));

    // Test note in regular directory (should not be hidden)
    let mut regular_note = Note::new("Regular Note".to_string(), None);
    regular_note.path = Some("projects/work-note.md".to_string());
    assert!(!regular_note.is_hidden_with_settings(&settings));

    // Test top-level note (should not be hidden)
    let mut top_level_note = Note::new("Top Level Note".to_string(), None);
    top_level_note.path = Some("index.md".to_string());
    assert!(!top_level_note.is_hidden_with_settings(&settings));
}

#[test]
fn test_note_is_hidden_precedence() {
    let settings = create_default_settings();

    // Test that hidden tag takes precedence even in non-ignored directory
    let mut tagged_note = Note::new("Tagged Note".to_string(), None);
    tagged_note.path = Some("projects/work-note.md".to_string());
    tagged_note.add_tag("hidden".to_string());
    assert!(tagged_note.is_hidden_with_settings(&settings));

    // Test that being in ignored directory makes it hidden even without tag
    let mut ignored_path_note = Note::new("Ignored Path Note".to_string(), None);
    ignored_path_note.path = Some("archive/old-note.md".to_string());
    assert!(ignored_path_note.is_hidden_with_settings(&settings));

    // Add non-hidden tags - should still be hidden due to path
    ignored_path_note.add_tag("work".to_string());
    ignored_path_note.add_tag("important".to_string());
    assert!(ignored_path_note.is_hidden_with_settings(&settings));
}

#[test]
fn test_note_is_hidden_with_absolute_paths() {
    let settings = create_default_settings();

    // A note read from disk carries an absolute path; the ignore patterns
    // are relative to the notes root, so the root prefix must be stripped
    // before matching.
    let mut absolute_path_note = Note::new("Archive Note".to_string(), None);
    absolute_path_note.path = Some("/Users/test/notes/archive/old-note.md".to_string());
    assert!(
        absolute_path_note.is_hidden_with_settings(&settings),
        "Note with absolute path in archive directory should be hidden"
    );

    let mut readwise_absolute_note = Note::new("Readwise Note".to_string(), None);
    readwise_absolute_note.path = Some("/Users/test/notes/Readwise/literature.md".to_string());
    assert!(
        readwise_absolute_note.is_hidden_with_settings(&settings),
        "Note with absolute path in Readwise directory should be hidden"
    );

    let mut regular_absolute_note = Note::new("Regular Note".to_string(), None);
    regular_absolute_note.path = Some("/Users/test/notes/projects/work.md".to_string());
    assert!(
        !regular_absolute_note.is_hidden_with_settings(&settings),
        "Note with absolute path in regular directory should not be hidden"
    );
}

#[test]
fn test_note_from_markdown_source_with_front_matter() {
    let raw = "---\ntitle: \"Valid Note\"\ntags: [\"valid\", \"test\"]\n---\n\n# Valid Note\n\nThis is a valid note.\n";
    let note = Note::from_markdown_source("notes/valid-note.md", raw, Some(100), Some(200));

    assert_eq!(note.id, "valid-note");
    assert_eq!(note.title, "Valid Note");
    assert_eq!(note.path, Some("notes/valid-note.md".to_string()));
    assert_eq!(note.tags.len(), 2);
    assert!(note.tags.contains(&"valid".to_string()));
    assert!(note.tags.contains(&"test".to_string()));
    assert_eq!(note.created, Some(100));
    assert_eq!(note.modified, Some(200));
    let body = note.body.expect("body should be present");
    assert!(body.contains("This is a valid note."));
    assert!(!body.contains("title:"));
}

#[test]
fn test_note_from_markdown_source_without_front_matter() {
    let raw = "Just a plain note body with no front matter at all.";
    let note = Note::from_markdown_source("plain.md", raw, None, None);

    assert_eq!(note.id, "plain");
    assert_eq!(note.title, "plain");
    assert!(note.tags.is_empty());
    assert_eq!(note.url, None);
}
