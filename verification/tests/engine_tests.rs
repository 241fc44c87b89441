use ink::doc::IndexedDocument;
use ink::engine::{build_corpus_documents, run_query, sort_documents};
use ink::note::Note;
use ink::plan::{build_query_plan, QueryError, QueryPlan, SortChoice};
use ink::prompt::ParsedQuery;
use ink::settings::Settings;

fn plain_settings() -> Settings {
    Settings {
        recurse: true,
        cache_dir: "/tmp/ink-cache".to_string(),
        notes_dir: "/notes".to_string(),
        ignore: vec!["archive/**".to_string()],
        note_template: None,
    }
}

fn note(title: &str, path: &str, body: &str, tags: &[&str], modified: i64) -> Note {
    let mut n = Note::new(title.to_string(), None);
    n.path = Some(path.to_string());
    n.body = Some(body.to_string());
    n.modified = Some(modified);
    n.created = Some(modified);
    for t in tags {
        n.add_tag(t.to_string());
    }
    n
}

fn corpus() -> Vec<Note> {
    vec![
        note(
            "Trip Planning",
            "trip-planning.md",
            "Pack the bags and book the hotel.",
            &["travel"],
            300,
        ),
        note(
            "Trip Journal",
            "trip-journal.md",
            "Day one of the trip.",
            &["travel", "hidden"],
            200,
        ),
        note(
            "Grocery List",
            "grocery-list.md",
            "Milk, eggs, bread.",
            &["errands"],
            100,
        ),
    ]
}

fn docs_for(notes: &Vec<Note>) -> Vec<IndexedDocument> {
    build_corpus_documents(notes, "/notes", &plain_settings())
}

fn plan_for(query: &str, include_hidden: bool) -> QueryPlan {
    let parsed = ParsedQuery::from_query(query);
    build_query_plan(&parsed, include_hidden).expect("plan should build")
}

fn titles(results: &[Note]) -> Vec<String> {
    results.iter().map(|n| n.title.clone()).collect()
}

#[test]
fn test_search_example_corpus() {
    let notes = corpus();
    let docs = docs_for(&notes);
    let plan = plan_for("trip", false);
    let results = run_query(&docs, &plan, None, 10);
    assert_eq!(titles(&results), vec!["Trip Planning".to_string()]);
}

#[test]
fn test_search_visibility_toggle() {
    let notes = corpus();
    let docs = docs_for(&notes);

    let hidden_excluded = run_query(&docs, &plan_for("trip", false), None, 10);
    assert_eq!(titles(&hidden_excluded), vec!["Trip Planning".to_string()]);

    let hidden_included = run_query(&docs, &plan_for("trip", true), None, 10);
    let got = titles(&hidden_included);
    assert_eq!(got.len(), 2);
    assert!(got.contains(&"Trip Planning".to_string()));
    assert!(got.contains(&"Trip Journal".to_string()));
}

#[test]
fn test_search_ignored_path_is_hidden() {
    let mut notes = corpus();
    notes.push(note(
        "Old Trip",
        "archive/old-trip.md",
        "A trip from long ago.",
        &["travel"],
        50,
    ));
    let docs = docs_for(&notes);

    let excluded = run_query(&docs, &plan_for("trip", false), None, 10);
    assert!(!titles(&excluded).contains(&"Old Trip".to_string()));

    let included = run_query(&docs, &plan_for("trip", true), None, 10);
    assert!(titles(&included).contains(&"Old Trip".to_string()));
}

#[test]
fn test_search_tag_filter() {
    let notes = corpus();
    let docs = docs_for(&notes);

    let by_tag = run_query(&docs, &plan_for("#errands", false), None, 10);
    assert_eq!(titles(&by_tag), vec!["Grocery List".to_string()]);

    // A tag filter keeps only notes carrying the tag, whatever the free
    // text is.
    let tag_and_text = run_query(&docs, &plan_for("grocery #errands", false), None, 10);
    assert_eq!(titles(&tag_and_text), vec!["Grocery List".to_string()]);

    let tag_mismatch = run_query(&docs, &plan_for("trip #errands", false), None, 10);
    assert!(!titles(&tag_mismatch).contains(&"Trip Planning".to_string()));

    let no_such_tag = run_query(&docs, &plan_for("#nosuch", false), None, 10);
    assert!(no_such_tag.is_empty());
}

#[test]
fn test_search_sort_modified_orders() {
    let notes = corpus();
    let docs = docs_for(&notes);
    let plan = plan_for("", true);

    let desc = run_query(&docs, &plan, Some(SortChoice::DescLastModified), 10);
    assert_eq!(
        titles(&desc),
        vec![
            "Trip Planning".to_string(),
            "Trip Journal".to_string(),
            "Grocery List".to_string(),
        ]
    );

    let asc = run_query(&docs, &plan, Some(SortChoice::AscLastModified), 10);
    assert_eq!(
        titles(&asc),
        vec![
            "Grocery List".to_string(),
            "Trip Journal".to_string(),
            "Trip Planning".to_string(),
        ]
    );
}

#[test]
fn test_search_sort_title_order() {
    let notes = corpus();
    let docs = docs_for(&notes);
    let plan = plan_for("", true);

    let by_title = run_query(&docs, &plan, Some(SortChoice::Title), 10);
    assert_eq!(
        titles(&by_title),
        vec![
            "Grocery List".to_string(),
            "Trip Journal".to_string(),
            "Trip Planning".to_string(),
        ]
    );
}

#[test]
fn test_search_limit_bounds_results() {
    let notes = corpus();
    let docs = docs_for(&notes);
    let plan = plan_for("", true);

    let limited = run_query(&docs, &plan, Some(SortChoice::DescLastModified), 2);
    assert_eq!(
        titles(&limited),
        vec!["Trip Planning".to_string(), "Trip Journal".to_string()]
    );
}

#[test]
fn test_search_relevance_floor_returns_empty() {
    let notes = corpus();
    let docs = docs_for(&notes);

    // Under relevance order a query that hits nothing returns nothing,
    // even though every visible document passes the filters.
    let results = run_query(&docs, &plan_for("zebra", false), None, 10);
    assert!(results.is_empty());
}

#[test]
fn test_rebuild_is_deterministic() {
    let notes = corpus();
    let first = docs_for(&notes);
    let second = docs_for(&notes);

    assert_eq!(first.len(), second.len());
    for (a, b) in first.iter().zip(second.iter()) {
        assert_eq!(a.title, b.title);
        assert_eq!(a.typeahead_title, b.typeahead_title);
        assert_eq!(a.path, b.path);
        assert_eq!(a.body_text, b.body_text);
        assert_eq!(a.tag_facets, b.tag_facets);
        assert_eq!(a.is_hidden, b.is_hidden);
        assert_eq!(a.modified, b.modified);
    }

    let plan = plan_for("trip", false);
    let r1 = run_query(&first, &plan, None, 10);
    let r2 = run_query(&second, &plan, None, 10);
    assert_eq!(titles(&r1), titles(&r2));
}

#[test]
fn test_upsert_title_change() {
    let mut notes = corpus();
    let docs = docs_for(&notes);
    let before = run_query(&docs, &plan_for("grocery", false), None, 10);
    assert_eq!(titles(&before), vec!["Grocery List".to_string()]);

    // Edit the note's title, keep its path, and rebuild.
    notes[2].title = "Shopping List".to_string();
    let rebuilt = docs_for(&notes);
    assert_eq!(rebuilt.len(), docs.len());

    let old_title = run_query(&rebuilt, &plan_for("grocery", false), None, 10);
    assert!(old_title.is_empty());

    let new_title = run_query(&rebuilt, &plan_for("shopping", false), None, 10);
    assert_eq!(titles(&new_title), vec!["Shopping List".to_string()]);
}

#[test]
fn test_search_survives_control_character_tag() {
    let mut notes = corpus();
    let mut corrupted = note(
        "Corrupted Note",
        "corrupted-note.md",
        "This note has a tag with a null byte.",
        &[],
        10,
    );
    corrupted.add_tag("tag\0prompt".to_string());
    notes.push(corrupted);

    let docs = docs_for(&notes);
    // The corrupted tag was sanitized when it entered the note, so every
    // facet written to the index is parseable and the search still
    // returns the unaffected notes.
    let results = run_query(&docs, &plan_for("trip", false), None, 10);
    assert_eq!(titles(&results), vec!["Trip Planning".to_string()]);

    let all = run_query(&docs, &plan_for("note", false), None, 10);
    assert!(titles(&all).contains(&"Corrupted Note".to_string()));
}

#[test]
fn test_null_byte_in_tag_causes_search_crash_documentation() {
    // A tag with a null byte - this is the problematic data structure
    let problematic_tag = "tag\0prompt";

    assert!(
        problematic_tag.contains('\0'),
        "Tag contains null byte that causes facet parsing to fail"
    );

    println!(
        "This test documents the null byte issue in tag: {:?}",
        problematic_tag
    );
}

#[test]
fn test_build_query_plan_rejects_unencodable_tag() {
    let parsed = ParsedQuery::from_query("notes #\u{0}");
    let err = build_query_plan(&parsed, false);
    assert!(matches!(err, Err(QueryError::InvalidTag)));

    // A tag that still has characters after sanitization is kept.
    let parsed_ok = ParsedQuery::from_query("notes #work\u{0}");
    let plan = build_query_plan(&parsed_ok, false).expect("plan should build");
    assert_eq!(plan.tag_facets, vec!["/tag/work".to_string()]);
}

#[test]
fn test_sort_documents_is_stable_on_ties() {
    let notes = vec![
        note("B Note", "b.md", "", &[], 100),
        note("A Note", "a.md", "", &[], 100),
    ];
    let docs = docs_for(&notes);
    let sorted = sort_documents(docs, SortChoice::DescLastModified);
    assert_eq!(sorted[0].title, "B Note");
    assert_eq!(sorted[1].title, "A Note");
}
