use vstd::prelude::*;

verus! {

/// Shortest and longest substrings the typeahead field is tokenized into.
pub const NGRAM_MIN: usize = 2;

pub const NGRAM_MAX: usize = 7;

/// How a field's values are typed and analyzed.
#[derive(Clone, Copy, Debug, PartialEq, Eq, Structural)]
pub enum FieldKind {
    /// Free text, split by the named tokenizer.
    Text,
    /// Exact strings, indexed as single terms.
    Keyword,
    /// Timestamps in epoch seconds.
    Date,
    /// Booleans.
    Flag,
    /// Hierarchical facet paths.
    Facet,
}

/// One field of the document schema: its name, type, and storage and
/// analysis options.
#[derive(Debug)]
pub struct FieldSpec {
    pub name: String,
    pub kind: FieldKind,
    pub stored: bool,
    pub indexed: bool,
    pub fast: bool,
    pub tokenizer: Option<String>,
}

/// `f` is the field called `name` with exactly the given options.
pub open spec fn field_is(
    f: FieldSpec,
    name: Seq<char>,
    kind: FieldKind,
    stored: bool,
    indexed: bool,
    fast: bool,
    tokenizer: Option<Seq<char>>,
) -> bool {
    &&& f.name@ == name
    &&& f.kind == kind
    &&& f.stored == stored
    &&& f.indexed == indexed
    &&& f.fast == fast
    &&& f.tokenizer.deep_view() == tokenizer
}

fn field(
    name: &str,
    kind: FieldKind,
    stored: bool,
    indexed: bool,
    fast: bool,
    tokenizer: Option<&str>,
) -> (r: FieldSpec)
    ensures
        field_is(
            r,
            name@,
            kind,
            stored,
            indexed,
            fast,
            match tokenizer {
                Some(t) => Some(t@),
                None => None,
            },
        ),
{
    FieldSpec {
        name: name.to_owned(),
        kind,
        stored,
        indexed,
        fast,
        tokenizer: match tokenizer {
            Some(t) => Some(t.to_owned()),
            None => None,
        },
    }
}

/// The document schema, defined once and shared by the indexing and the
/// query paths: fast sort duplicates of the timestamps, the stored
/// timestamps, the n-gram typeahead title, a sortable title, the
/// visibility flag, the stemmed title and body, the exact path that
/// identifies a document, and the tag facet.
pub fn schema_fields() -> (r: Vec<FieldSpec>)
    ensures
        r@.len() == 11,
        field_is(r@[0], "sort_created"@, FieldKind::Date, false, false, true, None),
        field_is(r@[1], "sort_modified"@, FieldKind::Date, false, false, true, None),
        field_is(r@[2], "created"@, FieldKind::Date, true, true, false, None),
        field_is(r@[3], "modified"@, FieldKind::Date, true, true, false, None),
        field_is(
            r@[4],
            "typeahead_title"@,
            FieldKind::Text,
            true,
            true,
            false,
            Some("ngram"@),
        ),
        field_is(r@[5], "sort_title"@, FieldKind::Text, false, false, true, None),
        field_is(r@[6], "is_hidden"@, FieldKind::Flag, true, true, true, None),
        field_is(r@[7], "title"@, FieldKind::Text, true, true, false, Some("en_stem"@)),
        field_is(r@[8], "body"@, FieldKind::Text, false, true, false, Some("en_stem"@)),
        field_is(r@[9], "path"@, FieldKind::Keyword, true, true, false, None),
        field_is(r@[10], "tag"@, FieldKind::Facet, true, true, false, None),
{
    let mut r: Vec<FieldSpec> = Vec::new();
    r.push(field("sort_created", FieldKind::Date, false, false, true, None));
    r.push(field("sort_modified", FieldKind::Date, false, false, true, None));
    r.push(field("created", FieldKind::Date, true, true, false, None));
    r.push(field("modified", FieldKind::Date, true, true, false, None));
    r.push(field("typeahead_title", FieldKind::Text, true, true, false, Some("ngram")));
    r.push(field("sort_title", FieldKind::Text, false, false, true, None));
    r.push(field("is_hidden", FieldKind::Flag, true, true, true, None));
    r.push(field("title", FieldKind::Text, true, true, false, Some("en_stem")));
    r.push(field("body", FieldKind::Text, false, true, false, Some("en_stem")));
    r.push(field("path", FieldKind::Keyword, true, true, false, None));
    r.push(field("tag", FieldKind::Facet, true, true, false, None));
    r
}

} // verus!
