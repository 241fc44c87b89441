use vstd::prelude::*;

verus! {

/// The metadata fields a note file's front matter may carry.
#[derive(Debug)]
pub struct NoteFrontMatter {
    pub title: Option<String>,
    pub tags: Option<Vec<String>>,
    pub url: Option<String>,
}

/// A note file split into its front-matter metadata and its body text.
#[derive(Debug)]
pub struct ParsedMarkdown {
    pub title: Option<String>,
    pub url: Option<String>,
    pub tags: Option<Vec<String>>,
    pub content: String,
}

#[verifier::external_type_specification]
#[verifier::external_body]
pub struct ExPod(gray_matter::Pod);

/// How the front-matter parser splits a note file: `None` when the file
/// cannot be parsed at all; otherwise whether front-matter data was found,
/// and the content left after stripping it. Depends on the text alone.
pub uninterp spec fn fm_split(raw: Seq<char>) -> Option<(bool, Seq<char>)>;

/// The front-matter data the parser extracts from `raw`, when `fm_split`
/// reports a block was found. Depends on the text alone.
pub uninterp spec fn fm_data(raw: Seq<char>) -> gray_matter::Pod;

/// The string value stored under `key` in front-matter data, if any.
pub uninterp spec fn pod_string_at(p: gray_matter::Pod, key: Seq<char>) -> Option<Seq<char>>;

/// The list of strings stored under `key` in front-matter data, if any.
pub uninterp spec fn pod_strings_at(p: gray_matter::Pod, key: Seq<char>) -> Option<Seq<Seq<char>>>;

/// Relies on gray_matter's Matter::parse with the YAML engine: splits a note
/// file into optional front-matter data and the remaining content. The
/// result depends on the input text alone.
#[verifier::external_body]
fn split_front_matter(raw: &str) -> (r: Option<(Option<gray_matter::Pod>, String)>)
    ensures
        (match r {
            Some(p) => fm_split(raw@) == Some((p.0 is Some, p.1@)),
            None => fm_split(raw@) is None,
        }),
        (match r {
            Some(p) => (match p.0 {
                Some(d) => d == fm_data(raw@),
                None => true,
            }),
            None => true,
        }),
{
    let matter = gray_matter::Matter::<gray_matter::engine::YAML>::new();
    match matter.parse::<gray_matter::Pod>(raw) {
        Ok(entity) => Some((entity.data, entity.content)),
        Err(_) => None,
    }
}

/// Relies on gray_matter's Pod: reads the string value under `key` of
/// front-matter data. The result depends on the data and the key alone.
#[verifier::external_body]
fn pod_string_field(p: &gray_matter::Pod, key: &str) -> (r: Option<String>)
    ensures
        r.deep_view() == pod_string_at(*p, key@),
{
    match p {
        gray_matter::Pod::Hash(h) => match h.get(key) {
            Some(gray_matter::Pod::String(s)) => Some(s.clone()),
            _ => None,
        },
        _ => None,
    }
}

/// Relies on gray_matter's Pod: reads the list of strings under `key` of
/// front-matter data. The result depends on the data and the key alone.
#[verifier::external_body]
fn pod_string_list_field(p: &gray_matter::Pod, key: &str) -> (r: Option<Vec<String>>)
    ensures
        r.deep_view() == pod_strings_at(*p, key@),
{
    match p {
        gray_matter::Pod::Hash(h) => match h.get(key) {
            Some(v) => v.deserialize::<Vec<String>>().ok(),
            _ => None,
        },
        _ => None,
    }
}

/// The `title`, `tags` and `url` fields of parsed front-matter data.
pub fn front_matter_fields(data: &gray_matter::Pod) -> (r: NoteFrontMatter)
    ensures
        r.title.deep_view() == pod_string_at(*data, "title"@),
        r.tags.deep_view() == pod_strings_at(*data, "tags"@),
        r.url.deep_view() == pod_string_at(*data, "url"@),
{
    NoteFrontMatter {
        title: pod_string_field(data, "title"),
        tags: pod_string_list_field(data, "tags"),
        url: pod_string_field(data, "url"),
    }
}

/// Splits raw note text into front-matter metadata and body content.
/// A file that cannot be parsed at all, or that carries no front matter,
/// yields empty metadata; in the first case the content is the raw input
/// itself. When a block is found, `title`, `tags` and `url` are read from
/// its data; a field that is absent, or not of the expected shape, stays
/// empty while the block is still stripped — degradation is per field,
/// the block is never given up as a whole.
pub fn frontmatter(markdown_input: &str) -> (r: ParsedMarkdown)
    ensures
        fm_split(markdown_input@) is None ==> {
            &&& r.title is None
            &&& r.tags is None
            &&& r.url is None
            &&& r.content@ == markdown_input@
        },
        fm_split(markdown_input@) matches Some(fc) ==> r.content@ == fc.1,
        fm_split(markdown_input@) matches Some(fc) && !fc.0 ==> {
            &&& r.title is None
            &&& r.tags is None
            &&& r.url is None
        },
        fm_split(markdown_input@) matches Some(fc) && fc.0 ==> {
            &&& r.title.deep_view() == pod_string_at(fm_data(markdown_input@), "title"@)
            &&& r.tags.deep_view() == pod_strings_at(fm_data(markdown_input@), "tags"@)
            &&& r.url.deep_view() == pod_string_at(fm_data(markdown_input@), "url"@)
        },
{
    match split_front_matter(markdown_input) {
        None => ParsedMarkdown {
            title: None,
            url: None,
            tags: None,
            content: markdown_input.to_owned(),
        },
        Some((data_opt, content)) => match data_opt {
            Some(data) => {
                proof {
                    assert(data == fm_data(markdown_input@));
                }
                let fields = front_matter_fields(&data);
                ParsedMarkdown {
                    title: fields.title,
                    url: fields.url,
                    tags: fields.tags,
                    content,
                }
            },
            None => ParsedMarkdown { title: None, url: None, tags: None, content },
        },
    }
}

} // verus!
