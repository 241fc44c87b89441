use gray_matter::engine::YAML;
use gray_matter::Matter;
use ink::doc::{decode_facet, encode_facet};
use ink::freshness::{get_metadata_path, index_needs_update, parse_u64};
use ink::markdown::{front_matter_fields, frontmatter};
use ink::schema::schema_fields;
use ink::slug::has_md_extension;

#[test]
fn test_frontmatter_with_metadata() {
    let raw = "---\ntitle: \"Home\"\ntags: [\"a\", \"b\"]\nurl: \"https://example.com\"\n---\nOther stuff";
    let parsed = frontmatter(raw);

    assert_eq!(parsed.title, Some("Home".to_string()));
    assert_eq!(parsed.tags, Some(vec!["a".to_string(), "b".to_string()]));
    assert_eq!(parsed.url, Some("https://example.com".to_string()));
    assert_eq!(parsed.content, "Other stuff");
}

#[test]
fn test_frontmatter_without_metadata() {
    let raw = "Nothing but body text here, and it stays untouched.";
    let parsed = frontmatter(raw);

    assert_eq!(parsed.title, None);
    assert_eq!(parsed.tags, None);
    assert_eq!(parsed.url, None);
    assert_eq!(parsed.content, raw);
}

#[test]
fn test_front_matter_fields_from_data() {
    let matter = Matter::<YAML>::new();
    let entity = matter
        .parse::<gray_matter::Pod>("---\ntitle: \"X\"\ntags: [\"work\"]\n---\nbody")
        .expect("parse should succeed");
    let data = entity.data.expect("front matter data should be present");

    let fields = front_matter_fields(&data);
    assert_eq!(fields.title, Some("X".to_string()));
    assert_eq!(fields.tags, Some(vec!["work".to_string()]));
    assert_eq!(fields.url, None);
}

#[test]
fn test_frontmatter_ill_typed_field_degrades_per_field() {
    // A block whose `tags` value is not a list of strings: the well-typed
    // fields are kept, the ill-typed one stays empty, and the block is
    // still stripped from the content.
    let raw = "---\ntitle: \"X\"\ntags: 5\n---\nBody";
    let parsed = frontmatter(raw);

    assert_eq!(parsed.title, Some("X".to_string()));
    assert_eq!(parsed.tags, None);
    assert_eq!(parsed.content, "Body");
}

#[test]
fn test_facet_encoding_round_trip() {
    assert_eq!(encode_facet("work"), "/tag/work");
    assert_eq!(decode_facet("/tag/work"), "work");
    // A stored value without the facet prefix decodes to itself.
    assert_eq!(decode_facet("work"), "work");
    assert_eq!(decode_facet("/tg/x"), "/tg/x");
}

#[test]
fn test_parse_u64_values() {
    assert_eq!(parse_u64("0"), Some(0));
    assert_eq!(parse_u64("1748601600"), Some(1748601600));
    assert_eq!(parse_u64("18446744073709551615"), Some(u64::MAX));
    assert_eq!(parse_u64("18446744073709551616"), None);
    assert_eq!(parse_u64(""), None);
    assert_eq!(parse_u64("12a"), None);
    assert_eq!(parse_u64("-5"), None);
}

#[test]
fn test_index_needs_update_cases() {
    // No marker file at all: always stale.
    assert!(index_needs_update(1000, None));

    // A fresh marker within the five-minute window is not stale.
    assert!(!index_needs_update(600, Some("300")));
    // One second past the window is stale.
    assert!(index_needs_update(601, Some("300")));

    // An unreadable marker counts as zero, so anything past the window
    // from the epoch is stale.
    assert!(index_needs_update(301, Some("not-a-number")));
    assert!(!index_needs_update(300, Some("not-a-number")));
}

#[test]
fn test_metadata_path_is_fixed_name_in_cache() {
    let settings = ink::settings::Settings {
        recurse: false,
        cache_dir: "/var/cache/ink".to_string(),
        notes_dir: "/notes".to_string(),
        ignore: vec![],
        note_template: None,
    };
    assert!(get_metadata_path(&settings).ends_with("index_metadata.txt"));
}

#[test]
fn test_schema_field_set() {
    let fields = schema_fields();
    let names: Vec<String> = fields.iter().map(|f| f.name.clone()).collect();
    assert_eq!(
        names,
        vec![
            "sort_created",
            "sort_modified",
            "created",
            "modified",
            "typeahead_title",
            "sort_title",
            "is_hidden",
            "title",
            "body",
            "path",
            "tag",
        ]
    );
    // The document-identity field is stored and exactly indexed.
    let path = &fields[9];
    assert!(path.stored && path.indexed && path.tokenizer.is_none());
    // The typeahead field is n-gram analyzed.
    assert_eq!(fields[4].tokenizer.as_deref(), Some("ngram"));
}

#[test]
fn test_has_md_extension_cases() {
    assert!(has_md_extension("note.md"));
    assert!(has_md_extension("dir/note.MD"));
    assert!(has_md_extension("a/b/c.Md"));
    assert!(!has_md_extension("note.txt"));
    assert!(!has_md_extension("note"));
    assert!(!has_md_extension(".md"));
    assert!(!has_md_extension("note.md.bak"));
}
