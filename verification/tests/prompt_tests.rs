use ink::note::{tag_matches, NoteError};
use ink::prompt::ParsedQuery;

#[test]
fn test_parsed_query_plain_text() {
    let parsed = ParsedQuery::from_query("just some plain words");
    assert_eq!(parsed.query, "just some plain words");
    assert!(parsed.tags.is_empty());
    assert_eq!(parsed.url, None);
}

#[test]
fn test_parsed_query_collapses_whitespace() {
    let parsed = ParsedQuery::from_query("  spaced \t out  words \n");
    assert_eq!(parsed.query, "spaced out words");
    assert!(parsed.tags.is_empty());
    assert_eq!(parsed.url, None);
}

#[test]
fn test_parsed_query_last_url_wins() {
    let parsed = ParsedQuery::from_query("a https://one.example/x b https://two.example/y");
    assert_eq!(parsed.query, "a b");
    assert_eq!(parsed.url, Some("https://two.example/y".to_string()));
}

#[test]
fn test_parsed_query_short_scheme_is_free_text() {
    // A scheme with nothing substantial after it is not captured as a URL.
    let parsed = ParsedQuery::from_query("see http://a");
    assert_eq!(parsed.url, None);
    assert_eq!(parsed.query, "see http://a");
}

#[test]
fn test_parsed_query_bare_marker_keeps_empty_tag() {
    let parsed = ParsedQuery::from_query("note #");
    assert_eq!(parsed.query, "note");
    assert_eq!(parsed.tags, vec!["".to_string()]);
}

#[test]
fn test_parsed_query_double_marker_stripped() {
    let parsed = ParsedQuery::from_query("##work");
    assert_eq!(parsed.tags, vec!["work".to_string()]);
    assert_eq!(parsed.query, "");
}

#[test]
fn test_tag_matches_rules() {
    let targets: Vec<String> = vec!["work".to_string(), "home".to_string()];
    let no_targets: Vec<String> = vec![];

    // An empty target list matches everything.
    assert!(tag_matches(&None, &no_targets));
    assert!(tag_matches(&Some(vec!["x".to_string()]), &no_targets));

    // With targets, a note without tags matches nothing.
    assert!(!tag_matches(&None, &targets));

    // A shared tag matches; disjoint tag sets do not.
    assert!(tag_matches(
        &Some(vec!["errands".to_string(), "work".to_string()]),
        &targets
    ));
    assert!(!tag_matches(&Some(vec!["errands".to_string()]), &targets));
}

#[test]
fn test_note_error_message() {
    let err = NoteError {
        msg: "broken.md: unreadable".to_string(),
    };
    assert_eq!(err.message(), "broken.md: unreadable");
}
