use vstd::prelude::*;

use crate::markdown::{fm_data, fm_split, frontmatter, pod_string_at, pod_strings_at, ParsedMarkdown};
use crate::prompt::ParsedQuery;
use crate::settings::{expanded_tilde, path_ignored, Settings};
use crate::slug::{get_id_from_path, slug_of, slugify, stem_of};
use crate::text::chars_of;

verus! {

/// A failure while turning a note file into a note.
#[derive(Debug)]
pub struct NoteError {
    pub msg: String,
}

impl NoteError {
    /// The error rendered as text.
    pub fn message(&self) -> (r: String)
        ensures
            r@ == self.msg@,
    {
        self.msg.clone()
    }
}

/// A control character: the C0 range, DEL, or the C1 range. Tags holding
/// such characters cannot be encoded as tag facets.
pub open spec fn is_ctl(c: char) -> bool {
    (c as u32) < 0x20 || (0x7f <= c as u32 && c as u32 <= 0x9f)
}

/// Whether `c` is a control character.
pub fn is_control_char(c: char) -> (r: bool)
    ensures
        r == is_ctl(c),
{
    let u = c as u32;
    u < 0x20 || (0x7f <= u && u <= 0x9f)
}

/// `t` with every control character removed.
pub open spec fn strip_controls(t: Seq<char>) -> Seq<char>
    decreases t.len(),
{
    if t.len() == 0 {
        Seq::<char>::empty()
    } else {
        let p = strip_controls(t.drop_last());
        if is_ctl(t.last()) {
            p
        } else {
            p.push(t.last())
        }
    }
}

/// A tag fit for the tag facet: non-empty and free of control characters.
pub open spec fn tag_wf(t: Seq<char>) -> bool {
    t.len() > 0 && forall|i: int| 0 <= i < t.len() ==> !is_ctl(t[i])
}

/// A well-formed tag set: every tag facet-safe, no tag listed twice.
pub open spec fn tags_wf(tags: Seq<Seq<char>>) -> bool {
    &&& forall|i: int| 0 <= i < tags.len() ==> tag_wf(#[trigger] tags[i])
    &&& forall|i: int, j: int| 0 <= i < j < tags.len() ==> tags[i] != tags[j]
}

/// The tag set after adding `t`: `t` is stripped of control characters,
/// and dropped when nothing is left or when it is already present.
pub open spec fn add_clean_tag(acc: Seq<Seq<char>>, t: Seq<char>) -> Seq<Seq<char>> {
    let c = strip_controls(t);
    if c.len() == 0 || acc.contains(c) {
        acc
    } else {
        acc.push(c)
    }
}

/// The tag set after adding each tag of `ts` in order.
pub open spec fn added_tags(acc: Seq<Seq<char>>, ts: Seq<Seq<char>>) -> Seq<Seq<char>>
    decreases ts.len(),
{
    if ts.len() == 0 {
        acc
    } else {
        add_clean_tag(added_tags(acc, ts.drop_last()), ts.last())
    }
}

pub proof fn lemma_strip_controls_clean(t: Seq<char>)
    ensures
        forall|i: int| 0 <= i < strip_controls(t).len() ==> !is_ctl(strip_controls(t)[i]),
    decreases t.len(),
{
    if t.len() > 0 {
        lemma_strip_controls_clean(t.drop_last());
        let p = strip_controls(t.drop_last());
        if !is_ctl(t.last()) {
            assert forall|i: int|
                0 <= i < strip_controls(t).len() implies !is_ctl(strip_controls(t)[i]) by {
                if i < p.len() {
                    assert(strip_controls(t)[i] == p[i]);
                }
            }
        }
    }
}

pub proof fn lemma_add_clean_tag_wf(acc: Seq<Seq<char>>, t: Seq<char>)
    requires
        tags_wf(acc),
    ensures
        tags_wf(add_clean_tag(acc, t)),
{
    lemma_strip_controls_clean(t);
    let c = strip_controls(t);
    if !(c.len() == 0 || acc.contains(c)) {
        let r = acc.push(c);
        assert forall|i: int, j: int| 0 <= i < j < r.len() implies r[i] != r[j] by {
            if j == r.len() - 1 {
                assert(acc.contains(r[i])) by {
                    assert(acc[i] == r[i]);
                }
            }
        }
    }
}

pub proof fn lemma_added_tags_wf(acc: Seq<Seq<char>>, ts: Seq<Seq<char>>)
    requires
        tags_wf(acc),
    ensures
        tags_wf(added_tags(acc, ts)),
    decreases ts.len(),
{
    if ts.len() > 0 {
        lemma_added_tags_wf(acc, ts.drop_last());
        lemma_add_clean_tag_wf(added_tags(acc, ts.drop_last()), ts.last());
    }
}

proof fn lemma_strip_clean_identity(t: Seq<char>)
    requires
        forall|i: int| 0 <= i < t.len() ==> !is_ctl(t[i]),
    ensures
        strip_controls(t) == t,
    decreases t.len(),
{
    if t.len() > 0 {
        assert(forall|i: int| 0 <= i < t.drop_last().len() ==> t.drop_last()[i] == t[i]);
        lemma_strip_clean_identity(t.drop_last());
        assert(strip_controls(t) =~= t);
    }
}

/// A well-formed tag set passes through tag sanitization unchanged:
/// re-adding the tags of a note, in order, rebuilds exactly that tag set.
pub proof fn lemma_clean_tags_identity(ts: Seq<Seq<char>>)
    requires
        tags_wf(ts),
    ensures
        added_tags(Seq::<Seq<char>>::empty(), ts) == ts,
    decreases ts.len(),
{
    if ts.len() > 0 {
        let sub = ts.drop_last();
        assert(tags_wf(sub)) by {
            assert(forall|i: int| 0 <= i < sub.len() ==> sub[i] == ts[i]);
        }
        lemma_clean_tags_identity(sub);
        let last = ts.last();
        assert(tag_wf(last)) by {
            assert(ts[ts.len() - 1] == last);
        }
        lemma_strip_clean_identity(last);
        assert(!sub.contains(last)) by {
            if sub.contains(last) {
                let w = choose|w: int| 0 <= w < sub.len() && sub[w] == last;
                assert(ts[w] == ts[ts.len() - 1]);
            }
        }
        assert(added_tags(Seq::<Seq<char>>::empty(), ts) =~= ts);
    }
}

/// `t` with its control characters removed.
pub fn strip_control_chars(t: &str) -> (r: String)
    ensures
        r@ == strip_controls(t@),
{
    let cs = chars_of(t);
    let mut kept: Vec<char> = Vec::new();
    let mut i: usize = 0;
    while i < cs.len()
        invariant
            cs@ == t@,
            i <= cs@.len(),
            kept@ == strip_controls(t@.take(i as int)),
        decreases cs@.len() - i,
    {
        proof {
            assert(t@.take(i + 1).drop_last() =~= t@.take(i as int));
            assert(t@.take(i + 1).last() == t@[i as int]);
        }
        if !is_control_char(cs[i]) {
            kept.push(cs[i]);
        }
        i = i + 1;
    }
    proof {
        assert(t@.take(t@.len() as int) =~= t@);
    }
    crate::text::string_from_chars(kept.as_slice())
}

/// Whether some string of `v` has the characters of `s`.
pub fn vec_contains_string(v: &Vec<String>, s: &String) -> (r: bool)
    ensures
        r == v.deep_view().contains(s@),
{
    let mut i: usize = 0;
    while i < v.len()
        invariant
            i <= v@.len(),
            forall|j: int| 0 <= j < i ==> v.deep_view()[j] != s@,
        decreases v@.len() - i,
    {
        proof {
            assert(v.deep_view()[i as int] == v@[i as int]@);
        }
        if v[i] == *s {
            proof {
                assert(v.deep_view().contains(s@)) by {
                    assert(v.deep_view()[i as int] == s@);
                }
            }
            return true;
        }
        i = i + 1;
    }
    proof {
        if v.deep_view().contains(s@) {
            let j = choose|j: int| 0 <= j < v.deep_view().len() && v.deep_view()[j] == s@;
            assert(v.deep_view()[j] == s@);
        }
    }
    false
}

/// Adds `tag` to `tags` after stripping control characters, unless nothing
/// is left of it or it is already present.
fn push_clean_tag(tags: &mut Vec<String>, tag: &str)
    ensures
        final(tags).deep_view() == add_clean_tag(old(tags).deep_view(), tag@),
{
    let cleaned = strip_control_chars(tag);
    if !cleaned.as_str().is_empty() && !vec_contains_string(tags, &cleaned) {
        tags.push(cleaned);
        proof {
            assert(final(tags).deep_view() =~~= add_clean_tag(old(tags).deep_view(), tag@));
        }
    }
}

/// The tag set built by adding each tag of `v` in order to an empty set.
pub fn clean_tag_list(v: &Vec<String>) -> (r: Vec<String>)
    ensures
        r.deep_view() == added_tags(Seq::<Seq<char>>::empty(), v.deep_view()),
{
    let mut acc: Vec<String> = Vec::new();
    let mut i: usize = 0;
    while i < v.len()
        invariant
            i <= v@.len(),
            acc.deep_view() == added_tags(Seq::<Seq<char>>::empty(), v.deep_view().take(i as int)),
        decreases v@.len() - i,
    {
        proof {
            assert(v.deep_view().take(i + 1).drop_last() =~= v.deep_view().take(i as int));
            assert(v.deep_view().take(i + 1).last() == v.deep_view()[i as int]);
            assert(v.deep_view()[i as int] == v@[i as int]@);
        }
        push_clean_tag(&mut acc, v[i].as_str());
        i = i + 1;
    }
    proof {
        assert(v.deep_view().take(v.deep_view().len() as int) =~= v.deep_view());
    }
    acc
}

/// The canonical record for one note.
#[derive(Debug)]
pub struct Note {
    pub id: String,
    pub path: Option<String>,
    pub title: String,
    pub body: Option<String>,
    pub tags: Vec<String>,
    pub url: Option<String>,
    pub created: Option<i64>,
    pub modified: Option<i64>,
}

/// The file path under which a note is indexed: the path itself when it is
/// absolute, otherwise the notes root and the path joined with a single
/// separator.
pub open spec fn joined_path(base: Seq<char>, rel: Seq<char>) -> Seq<char> {
    if rel.len() > 0 && rel[0] == '/' {
        rel
    } else if base.len() > 0 && base.last() == '/' {
        base + rel
    } else {
        base + seq!['/'] + rel
    }
}

/// `rel` placed under `base` as `joined_path` describes.
pub fn join_paths(base: &str, rel: &str) -> (r: String)
    ensures
        r@ == joined_path(base@, rel@),
{
    let rel_chars = chars_of(rel);
    if rel_chars.len() > 0 && rel_chars[0] == '/' {
        return rel.to_owned();
    }
    let mut r = base.to_owned();
    let base_chars = chars_of(r.as_str());
    if !(base_chars.len() > 0 && base_chars[base_chars.len() - 1] == '/') {
        r.append("/");
        proof {
            reveal_strlit("/");
            assert("/"@ =~= seq!['/']);
        }
    }
    r.append(rel);
    r
}

/// The corpus-relative form of `p`: `p` without the notes-root prefix when
/// it lies under the root, otherwise `p` itself.
pub open spec fn relative_to_root(p: Seq<char>, root: Seq<char>) -> Seq<char> {
    if root.len() > 0 && p.len() > root.len() && p.take(root.len() as int) == root && p[root.len() as int]
        == '/' {
        p.skip(root.len() as int + 1)
    } else {
        p
    }
}

/// Whether a note is hidden: it carries the literal tag `hidden`, or its
/// corpus-relative path matches one of the ignore patterns.
pub open spec fn hidden_spec(
    tags: Seq<Seq<char>>,
    path: Option<Seq<char>>,
    ignore: Seq<Seq<char>>,
    root: Seq<char>,
) -> bool {
    ||| tags.contains("hidden"@)
    ||| match path {
        Some(p) => path_ignored(ignore, relative_to_root(p, root)),
        None => false,
    }
}

impl Note {
    /// A transient note with the given title; its id is the given one, or
    /// the slug of the title.
    pub fn new(title: String, maybe_id: Option<String>) -> (r: Note)
        ensures
            r.title == title,
            r.id@ == (match maybe_id {
                Some(i) => i@,
                None => slug_of(title@),
            }),
            r.path is None,
            r.body is None,
            r.url is None,
            r.created is None,
            r.modified is None,
            r.tags@.len() == 0,
            tags_wf(r.tags.deep_view()),
    {
        let id = match maybe_id {
            Some(i) => i,
            None => slugify(title.as_str()),
        };
        Note {
            id,
            path: None,
            title,
            body: None,
            tags: Vec::new(),
            url: None,
            created: None,
            modified: None,
        }
    }

    /// A bookmark note for `url`. The title is the fetched page title when
    /// one was obtained, else the URL itself; the note is tagged `bookmark`
    /// and gets a `.md` path next to its id.
    pub fn new_bookmark(
        url: &str,
        maybe_id: Option<String>,
        maybe_description: Option<String>,
        fetched_title: Option<String>,
    ) -> (r: Note)
        ensures
            r.title@ == (match fetched_title {
                Some(t) => t@,
                None => url@,
            }),
            r.id@ == (match maybe_id {
                Some(i) => i@,
                None => slug_of(
                    match fetched_title {
                        Some(t) => t@,
                        None => url@,
                    },
                ),
            }),
            r.path.deep_view() == Some(r.id@ + ".md"@),
            r.url.deep_view() == Some(url@),
            r.body == maybe_description,
            r.tags.deep_view() =~= seq!["bookmark"@],
            tags_wf(r.tags.deep_view()),
            r.created is None,
            r.modified is None,
    {
        let title = match fetched_title {
            Some(t) => t,
            None => url.to_owned(),
        };
        let id = match maybe_id {
            Some(i) => i,
            None => slugify(title.as_str()),
        };
        let mut path = id.clone();
        path.append(".md");
        let mut tags: Vec<String> = Vec::new();
        tags.push(String::from_str("bookmark"));
        proof {
            assert(tags.deep_view() =~~= seq!["bookmark"@]);
            reveal_strlit("bookmark");
            assert(tag_wf("bookmark"@));
            assert(tags_wf(tags.deep_view()));
        }
        Note {
            id,
            path: Some(path),
            title,
            body: maybe_description,
            tags,
            url: Some(url.to_owned()),
            created: None,
            modified: None,
        }
    }

    /// The note a creation prompt describes: the free text becomes the
    /// title, its slug the id and the `.md` path, and the prompt's tags are
    /// added after sanitization.
    pub fn from_parsed_prompt(parsed_query: ParsedQuery) -> (r: Note)
        ensures
            r.title == parsed_query.query,
            r.id@ == slug_of(parsed_query.query@),
            r.path.deep_view() == Some(slug_of(parsed_query.query@) + ".md"@),
            r.body is None,
            r.url == parsed_query.url,
            r.tags.deep_view() == added_tags(
                Seq::<Seq<char>>::empty(),
                parsed_query.tags.deep_view(),
            ),
            tags_wf(r.tags.deep_view()),
            r.created is None,
            r.modified is None,
    {
        let id = parsed_query.get_slug();
        let mut path = id.clone();
        path.append(".md");
        let tags = clean_tag_list(&parsed_query.tags);
        proof {
            lemma_added_tags_wf(Seq::<Seq<char>>::empty(), parsed_query.tags.deep_view());
        }
        Note {
            id,
            path: Some(path),
            title: parsed_query.query,
            body: None,
            tags,
            url: parsed_query.url,
            created: None,
            modified: None,
        }
    }

    /// The note described by a note file: the file's parsed front matter
    /// and content, its path, and its filesystem timestamps.
    pub fn from_markdown_parts(
        path: &str,
        parsed: ParsedMarkdown,
        created: Option<i64>,
        modified: Option<i64>,
    ) -> (r: Note)
        ensures
            r.id@ == stem_of(path@),
            r.path.deep_view() == Some(path@),
            r.title@ == (match parsed.title {
                Some(t) => t@,
                None => stem_of(path@),
            }),
            r.body.deep_view() == Some(parsed.content@),
            r.url == parsed.url,
            r.tags.deep_view() == added_tags(
                Seq::<Seq<char>>::empty(),
                match parsed.tags {
                    Some(ts) => ts.deep_view(),
                    None => Seq::<Seq<char>>::empty(),
                },
            ),
            tags_wf(r.tags.deep_view()),
            r.created == created,
            r.modified == modified,
    {
        let id = get_id_from_path(path);
        let title = match parsed.title {
            Some(t) => t,
            None => id.clone(),
        };
        let tags = match &parsed.tags {
            Some(ts) => clean_tag_list(ts),
            None => Vec::new(),
        };
        proof {
            match parsed.tags {
                Some(ts) => lemma_added_tags_wf(Seq::<Seq<char>>::empty(), ts.deep_view()),
                None => {},
            }
        }
        Note {
            id,
            path: Some(path.to_owned()),
            title,
            body: Some(parsed.content),
            tags,
            url: parsed.url,
            created,
            modified,
        }
    }

    /// The note described by raw note-file text: the text is split into
    /// front matter and content, and unparsable text yields a note whose
    /// body is the text itself with no metadata.
    pub fn from_markdown_source(
        path: &str,
        raw: &str,
        created: Option<i64>,
        modified: Option<i64>,
    ) -> (r: Note)
        ensures
            r.id@ == stem_of(path@),
            r.path.deep_view() == Some(path@),
            r.created == created,
            r.modified == modified,
            fm_split(raw@) is None ==> {
                &&& r.body.deep_view() == Some(raw@)
                &&& r.title@ == stem_of(path@)
                &&& r.tags@.len() == 0
                &&& r.url is None
            },
            fm_split(raw@) matches Some(fc) ==> r.body.deep_view() == Some(fc.1),
            fm_split(raw@) matches Some(fc) && !fc.0 ==> {
                &&& r.title@ == stem_of(path@)
                &&& r.tags@.len() == 0
                &&& r.url is None
            },
            fm_split(raw@) matches Some(fc) && fc.0 ==> {
                &&& r.title@ == (match pod_string_at(fm_data(raw@), "title"@) {
                    Some(t) => t,
                    None => stem_of(path@),
                })
                &&& r.url.deep_view() == pod_string_at(fm_data(raw@), "url"@)
                &&& r.tags.deep_view() == added_tags(
                    Seq::<Seq<char>>::empty(),
                    match pod_strings_at(fm_data(raw@), "tags"@) {
                        Some(ts) => ts,
                        None => Seq::<Seq<char>>::empty(),
                    },
                )
            },
    {
        let parsed = frontmatter(raw);
        let r = Self::from_markdown_parts(path, parsed, created, modified);
        proof {
            if r.tags.deep_view().len() == 0 {
                assert(r.tags@.len() == 0);
            }
            if fm_split(raw@) matches Some(fc) && fc.0 {
                if parsed.title is Some {
                    assert(parsed.title.deep_view() == Some(parsed.title->0@));
                } else {
                    assert(parsed.title.deep_view() == Option::<Seq<char>>::None);
                }
                if parsed.tags is Some {
                    assert(parsed.tags.deep_view() == Some(parsed.tags->0.deep_view()));
                } else {
                    assert(parsed.tags.deep_view() == Option::<Seq<Seq<char>>>::None);
                }
                assert(r.url.deep_view() == parsed.url.deep_view());
            }
        }
        r
    }

    /// Adds a tag, stripped of control characters; a tag that is empty
    /// after stripping, or already present, changes nothing.
    pub fn add_tag(&mut self, tag: String)
        ensures
            final(self).tags.deep_view() == add_clean_tag(old(self).tags.deep_view(), tag@),
            tags_wf(old(self).tags.deep_view()) ==> tags_wf(final(self).tags.deep_view()),
            final(self).id == old(self).id,
            final(self).path == old(self).path,
            final(self).title == old(self).title,
            final(self).body == old(self).body,
            final(self).url == old(self).url,
            final(self).created == old(self).created,
            final(self).modified == old(self).modified,
    {
        proof {
            if tags_wf(self.tags.deep_view()) {
                lemma_add_clean_tag_wf(self.tags.deep_view(), tag@);
            }
        }
        push_clean_tag(&mut self.tags, tag.as_str());
    }

    /// The note's file path under the given notes root.
    pub fn get_file_path(&self, settings: &Settings) -> (r: String)
        requires
            self.path is Some,
        ensures
            exists|h: Option<Seq<char>>|
                r@ == joined_path(expanded_tilde(settings.notes_dir@, h), self.path->0@),
    {
        let base = settings.get_notes_path();
        let rel = match &self.path {
            Some(p) => p,
            None => unreached(),
        };
        join_paths(base.as_str(), rel.as_str())
    }

    /// Whether this note is hidden for the given settings: it carries the
    /// tag `hidden`, or its path, taken relative to the notes root, matches
    /// an ignore pattern.
    pub fn is_hidden_with_settings(&self, settings: &Settings) -> (r: bool)
        ensures
            exists|h: Option<Seq<char>>|
                r == hidden_spec(
                    self.tags.deep_view(),
                    self.path.deep_view(),
                    settings.ignore.deep_view(),
                    expanded_tilde(settings.notes_dir@, h),
                ),
    {
        let root = settings.get_notes_path();
        self.is_hidden_given_root(root.as_str(), settings)
    }

    /// Whether this note is hidden, against an explicit notes root.
    pub fn is_hidden_given_root(&self, notes_root: &str, settings: &Settings) -> (r: bool)
        ensures
            r == hidden_spec(
                self.tags.deep_view(),
                self.path.deep_view(),
                settings.ignore.deep_view(),
                notes_root@,
            ),
    {
        let hidden_lit = String::from_str("hidden");
        proof {
            reveal_strlit("hidden");
        }
        if vec_contains_string(&self.tags, &hidden_lit) {
            return true;
        }
        match &self.path {
            Some(p) => {
                let relative = strip_root_prefix(p.as_str(), notes_root);
                settings.is_path_ignored(relative.as_str())
            },
            None => false,
        }
    }
}

/// `p` without the prefix `root` and its separator, when `p` lies under
/// `root`; otherwise `p` itself.
fn strip_root_prefix(p: &str, root: &str) -> (r: String)
    ensures
        r@ == relative_to_root(p@, root@),
{
    let pc = chars_of(p);
    let rc = chars_of(root);
    if rc.len() > 0 && pc.len() > rc.len() {
        let mut i: usize = 0;
        proof {
            assert(pc@.take(0) =~= rc@.take(0));
        }
        while i < rc.len()
            invariant
                pc@ == p@,
                rc@ == root@,
                i <= rc@.len(),
                pc@.len() > rc@.len(),
                pc@.take(i as int) == rc@.take(i as int),
            decreases rc@.len() - i,
        {
            proof {
                assert(pc@.take(i + 1).drop_last() =~= pc@.take(i as int));
                assert(rc@.take(i + 1).drop_last() =~= rc@.take(i as int));
            }
            if pc[i] != rc[i] {
                proof {
                    assert(p@.take(root@.len() as int)[i as int] == p@[i as int]);
                    assert(p@.take(root@.len() as int) != root@);
                }
                return p.to_owned();
            }
            proof {
                assert(pc@.take(i + 1) =~= rc@.take(i + 1));
            }
            i = i + 1;
        }
        proof {
            assert(rc@.take(rc@.len() as int) =~= rc@);
            assert(pc@.take(rc@.len() as int) =~= p@.take(root@.len() as int));
        }
        if pc[rc.len()] == '/' {
            let r = crate::text::string_from_chars(&pc.as_slice()[rc.len() + 1..pc.len()]);
            proof {
                assert(r@ =~= relative_to_root(p@, root@));
            }
            r
        } else {
            p.to_owned()
        }
    } else {
        p.to_owned()
    }
}

/// Whether some tag of `ts` is also in `targets`.
pub open spec fn shares_tag(ts: Seq<Seq<char>>, targets: Seq<Seq<char>>) -> bool
    decreases ts.len(),
{
    if ts.len() == 0 {
        false
    } else {
        targets.contains(ts.last()) || shares_tag(ts.drop_last(), targets)
    }
}

/// Whether a tag list matches a target list: an empty target list matches
/// everything; otherwise a note with no tags matches nothing, and a note
/// with tags matches when the two lists share a tag.
pub open spec fn tag_lists_match(tags: Option<Seq<Seq<char>>>, targets: Seq<Seq<char>>) -> bool {
    targets.len() == 0 || (tags is Some && shares_tag(tags->0, targets))
}

pub proof fn lemma_shares_tag_witness(ts: Seq<Seq<char>>, targets: Seq<Seq<char>>, i: int)
    requires
        0 <= i < ts.len(),
        targets.contains(ts[i]),
    ensures
        shares_tag(ts, targets),
    decreases ts.len(),
{
    if i < ts.len() - 1 {
        assert(ts.drop_last()[i] == ts[i]);
        lemma_shares_tag_witness(ts.drop_last(), targets, i);
    }
}

/// Whether a note's tag list matches a target list, as `tag_lists_match`
/// describes.
pub fn tag_matches(tags: &Option<Vec<String>>, target_tags: &Vec<String>) -> (r: bool)
    ensures
        r == tag_lists_match(tags.deep_view(), target_tags.deep_view()),
{
    if target_tags.len() == 0 {
        return true;
    }
    let ts = match tags {
        Some(ts) => ts,
        None => {
            return false;
        },
    };
    proof {
        assert(tags.deep_view() == Some(ts.deep_view()));
    }
    let ghost tsv = ts.deep_view();
    let mut i: usize = 0;
    while i < ts.len()
        invariant
            tsv == ts.deep_view(),
            tags.deep_view() == Some(tsv),
            target_tags.deep_view().len() > 0,
            i <= ts@.len(),
            !shares_tag(tsv.take(i as int), target_tags.deep_view()),
        decreases ts@.len() - i,
    {
        proof {
            assert(tsv[i as int] == ts@[i as int]@);
        }
        if vec_contains_string(target_tags, &ts[i]) {
            proof {
                lemma_shares_tag_witness(tsv, target_tags.deep_view(), i as int);
            }
            return true;
        }
        proof {
            assert(tsv.take(i + 1).drop_last() =~= tsv.take(i as int));
            assert(tsv.take(i + 1).last() == tsv[i as int]);
        }
        i = i + 1;
    }
    proof {
        assert(tsv.take(tsv.len() as int) =~= tsv);
    }
    false
}

} // verus!
