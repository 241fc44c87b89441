use vstd::prelude::*;

use crate::note::{added_tags, hidden_spec, join_paths, joined_path, Note};
use crate::settings::Settings;
use crate::slug::{get_id_from_path, stem_of};
use crate::text::{chars_of, lower_of, lowercase, string_from_chars};

verus! {

/// The schema-shaped projection of a note, ready to be written to the
/// index: every field holds exactly what the index stores for it.
#[derive(Debug)]
pub struct IndexedDocument {
    pub title: String,
    pub typeahead_title: String,
    pub path: String,
    pub body_text: String,
    pub tag_facets: Vec<String>,
    pub is_hidden: bool,
    pub created: Option<i64>,
    pub modified: Option<i64>,
}

/// The mathematical content of one indexed document.
pub ghost struct DocView {
    pub title: Seq<char>,
    pub typeahead_title: Seq<char>,
    pub path: Seq<char>,
    pub body_text: Seq<char>,
    pub tag_facets: Seq<Seq<char>>,
    pub is_hidden: bool,
    pub created: Option<i64>,
    pub modified: Option<i64>,
}

impl View for IndexedDocument {
    type V = DocView;

    open spec fn view(&self) -> DocView {
        DocView {
            title: self.title@,
            typeahead_title: self.typeahead_title@,
            path: self.path@,
            body_text: self.body_text@,
            tag_facets: self.tag_facets.deep_view(),
            is_hidden: self.is_hidden,
            created: self.created,
            modified: self.modified,
        }
    }
}

impl DeepView for IndexedDocument {
    type V = DocView;

    open spec fn deep_view(&self) -> DocView {
        self.view()
    }
}

/// The hierarchical prefix under which a tag is stored as a facet.
pub open spec fn facet_prefix() -> Seq<char> {
    seq!['/', 't', 'a', 'g', '/']
}

/// The facet path that encodes `tag`.
pub open spec fn facet_of(tag: Seq<char>) -> Seq<char> {
    facet_prefix() + tag
}

/// The facet paths of `tags`, in order.
pub open spec fn facets_of(tags: Seq<Seq<char>>) -> Seq<Seq<char>>
    decreases tags.len(),
{
    if tags.len() == 0 {
        Seq::<Seq<char>>::empty()
    } else {
        facets_of(tags.drop_last()).push(facet_of(tags.last()))
    }
}

/// The tag a facet path encodes: the path without its `/tag/` prefix, or
/// the path itself when the prefix is absent.
pub open spec fn decoded_facet(f: Seq<char>) -> Seq<char> {
    if f.len() >= 5 && f.take(5) == facet_prefix() {
        f.skip(5)
    } else {
        f
    }
}

/// The tags encoded by `facets`, in order.
pub open spec fn decoded_facets(facets: Seq<Seq<char>>) -> Seq<Seq<char>>
    decreases facets.len(),
{
    if facets.len() == 0 {
        Seq::<Seq<char>>::empty()
    } else {
        decoded_facets(facets.drop_last()).push(decoded_facet(facets.last()))
    }
}

/// Decoding a facet path undoes encoding the tag.
pub proof fn lemma_facet_round_trip(tag: Seq<char>)
    ensures
        decoded_facet(facet_of(tag)) == tag,
{
    let f = facet_of(tag);
    assert(f.take(5) =~= facet_prefix());
    assert(f.skip(5) =~= tag);
}

/// Decoding a list of facet paths undoes encoding the tags.
pub proof fn lemma_facets_round_trip(tags: Seq<Seq<char>>)
    ensures
        decoded_facets(facets_of(tags)) =~= tags,
    decreases tags.len(),
{
    if tags.len() > 0 {
        lemma_facets_round_trip(tags.drop_last());
        lemma_facet_round_trip(tags.last());
        assert(facets_of(tags).drop_last() =~= facets_of(tags.drop_last()));
    }
}

/// Projection round trip: for a note whose tag set is well formed — as
/// every constructor leaves it — decoding the tag facets that indexing
/// wrote, through sanitization, yields exactly the note's tags. A search
/// result carries the very tags that were indexed.
pub proof fn lemma_project_tags_round_trip(tags: Seq<Seq<char>>)
    requires
        crate::note::tags_wf(tags),
    ensures
        added_tags(Seq::<Seq<char>>::empty(), decoded_facets(facets_of(tags))) == tags,
{
    lemma_facets_round_trip(tags);
    crate::note::lemma_clean_tags_identity(tags);
}

/// The facet path that encodes `tag`.
pub fn encode_facet(tag: &str) -> (r: String)
    ensures
        r@ == facet_of(tag@),
{
    let mut r = String::from_str("/tag/");
    proof {
        reveal_strlit("/tag/");
        assert("/tag/"@ =~= facet_prefix());
    }
    r.append(tag);
    r
}

/// The tag a facet path encodes.
pub fn decode_facet(f: &str) -> (r: String)
    ensures
        r@ == decoded_facet(f@),
{
    let cs = chars_of(f);
    if cs.len() >= 5 && cs[0] == '/' && cs[1] == 't' && cs[2] == 'a' && cs[3] == 'g' && cs[4]
        == '/' {
        proof {
            assert(f@.take(5) =~= facet_prefix());
        }
        let r = string_from_chars(&cs.as_slice()[5..cs.len()]);
        proof {
            assert(r@ =~= f@.skip(5));
        }
        r
    } else {
        proof {
            if f@.len() >= 5 {
                assert(f@.take(5)[0] == f@[0]);
                assert(f@.take(5)[1] == f@[1]);
                assert(f@.take(5)[2] == f@[2]);
                assert(f@.take(5)[3] == f@[3]);
                assert(f@.take(5)[4] == f@[4]);
                assert(f@.take(5) != facet_prefix());
            }
        }
        f.to_owned()
    }
}

/// The facet paths of `tags`, in order.
fn encode_facets(tags: &Vec<String>) -> (r: Vec<String>)
    ensures
        r.deep_view() == facets_of(tags.deep_view()),
{
    let mut r: Vec<String> = Vec::new();
    let mut i: usize = 0;
    while i < tags.len()
        invariant
            i <= tags@.len(),
            r.deep_view() == facets_of(tags.deep_view().take(i as int)),
        decreases tags@.len() - i,
    {
        proof {
            assert(tags.deep_view().take(i + 1).drop_last() =~= tags.deep_view().take(i as int));
            assert(tags.deep_view().take(i + 1).last() == tags.deep_view()[i as int]);
            assert(tags.deep_view()[i as int] == tags@[i as int]@);
        }
        r.push(encode_facet(tags[i].as_str()));
        proof {
            assert(r.deep_view() =~~= facets_of(tags.deep_view().take(i + 1)));
        }
        i = i + 1;
    }
    proof {
        assert(tags.deep_view().take(tags.deep_view().len() as int) =~= tags.deep_view());
    }
    r
}

/// The tags encoded by `facets`, in order.
fn decode_facets(facets: &Vec<String>) -> (r: Vec<String>)
    ensures
        r.deep_view() == decoded_facets(facets.deep_view()),
{
    let mut r: Vec<String> = Vec::new();
    let mut i: usize = 0;
    while i < facets.len()
        invariant
            i <= facets@.len(),
            r.deep_view() == decoded_facets(facets.deep_view().take(i as int)),
        decreases facets@.len() - i,
    {
        proof {
            assert(facets.deep_view().take(i + 1).drop_last() =~= facets.deep_view().take(
                i as int,
            ));
            assert(facets.deep_view().take(i + 1).last() == facets.deep_view()[i as int]);
            assert(facets.deep_view()[i as int] == facets@[i as int]@);
        }
        r.push(decode_facet(facets[i].as_str()));
        proof {
            assert(r.deep_view() =~~= decoded_facets(facets.deep_view().take(i + 1)));
        }
        i = i + 1;
    }
    proof {
        assert(facets.deep_view().take(facets.deep_view().len() as int) =~= facets.deep_view());
    }
    r
}

/// `d` is exactly the document the index stores for note `n` under the
/// given notes root and ignore patterns.
pub open spec fn doc_projects_note(
    d: DocView,
    n: Note,
    root: Seq<char>,
    ignore: Seq<Seq<char>>,
) -> bool {
    &&& n.path is Some
    &&& d.title == n.title@
    &&& d.typeahead_title == lower_of(n.title@)
    &&& d.path == joined_path(root, n.path->0@)
    &&& d.body_text == (match n.body {
        Some(b) => b@,
        None => Seq::<char>::empty(),
    }) + seq![' '] + lower_of(n.title@)
    &&& d.tag_facets == facets_of(n.tags.deep_view())
    &&& d.is_hidden == hidden_spec(n.tags.deep_view(), n.path.deep_view(), ignore, root)
    &&& d.created == n.created
    &&& d.modified == n.modified
}

impl Note {
    /// The document the index stores for this note: its title as stored
    /// and as a case-folded typeahead field, its full path under the notes
    /// root, its body followed by the folded title for full-text matching,
    /// a facet path per tag, its visibility, and its timestamps.
    pub fn to_indexed_document(&self, notes_root: &str, settings: &Settings) -> (r:
        IndexedDocument)
        requires
            self.path is Some,
        ensures
            doc_projects_note(r@, *self, notes_root@, settings.ignore.deep_view()),
    {
        let folded = lowercase(self.title.as_str());
        let rel = match &self.path {
            Some(p) => p,
            None => unreached(),
        };
        let path = join_paths(notes_root, rel.as_str());
        let mut body_text = match &self.body {
            Some(b) => b.clone(),
            None => String::new(),
        };
        body_text.append(" ");
        proof {
            reveal_strlit(" ");
            assert(" "@ =~= seq![' ']);
        }
        body_text.append(folded.as_str());
        let tag_facets = encode_facets(&self.tags);
        let is_hidden = self.is_hidden_given_root(notes_root, settings);
        proof {
            assert(body_text@ =~= (match self.body {
                Some(b) => b@,
                None => Seq::<char>::empty(),
            }) + seq![' '] + lower_of(self.title@));
        }
        IndexedDocument {
            title: self.title.clone(),
            typeahead_title: folded,
            path,
            body_text,
            tag_facets,
            is_hidden,
            created: self.created,
            modified: self.modified,
        }
    }

    /// The note a stored document describes: the id is derived from the
    /// stored path, a missing title falls back to the id, and each stored
    /// facet is decoded and re-added through tag sanitization, so a
    /// corrupted facet can never poison the note.
    pub fn from_stored_fields(
        title: Option<String>,
        path: String,
        body: Option<String>,
        facets: Vec<String>,
        created: Option<i64>,
        modified: Option<i64>,
    ) -> (r: Note)
        ensures
            r.id@ == stem_of(path@),
            r.path.deep_view() == Some(path@),
            r.title@ == (match title {
                Some(t) => t@,
                None => stem_of(path@),
            }),
            r.body == body,
            r.url is None,
            r.tags.deep_view() == added_tags(
                Seq::<Seq<char>>::empty(),
                decoded_facets(facets.deep_view()),
            ),
            crate::note::tags_wf(r.tags.deep_view()),
            r.created == created,
            r.modified == modified,
    {
        let id = get_id_from_path(path.as_str());
        let decoded = decode_facets(&facets);
        let tags = crate::note::clean_tag_list(&decoded);
        proof {
            crate::note::lemma_added_tags_wf(Seq::<Seq<char>>::empty(), decoded.deep_view());
        }
        let title = match title {
            Some(t) => t,
            None => id.clone(),
        };
        Note {
            id,
            path: Some(path),
            title,
            body,
            tags,
            url: None,
            created,
            modified,
        }
    }
}

} // verus!
