use vstd::prelude::*;

use crate::doc::{facet_of, DocView, IndexedDocument};
use crate::note::{
    lemma_shares_tag_witness, shares_tag, strip_control_chars, strip_controls, vec_contains_string,
};
use crate::prompt::{tokenize, tokens_of, ParsedQuery};
use crate::text::{chars_eq, chars_of, lower_of, lowercase};

verus! {

/// The orders in which search results can be returned.
#[derive(Clone, Copy, Debug, PartialEq, Eq, Structural)]
pub enum SortChoice {
    Title,
    AscLastModified,
    DescLastModified,
    Created,
}

/// A query that cannot be built: a requested tag filter has no
/// facet-safe characters left.
#[derive(Clone, Copy, Debug, PartialEq, Eq, Structural)]
pub enum QueryError {
    InvalidTag,
}

impl QueryError {
    /// The error rendered as text.
    pub fn message(&self) -> String {
        String::from_str("a requested tag cannot be encoded as a facet")
    }
}

/// Weight of a typeahead-title match, in tenths.
pub const TYPEAHEAD_BOOST_TENTHS: u64 = 15;

/// Weight of an exact title-term match, in tenths.
pub const TITLE_BOOST_TENTHS: u64 = 20;

/// Weight of a full-text body match, in tenths.
pub const BODY_BOOST_TENTHS: u64 = 10;

/// Minimum relevance score a hit must reach, in thousandths.
pub const MIN_SCORE_MILLIS: u64 = 500;

/// The structured form of one search: the case-folded free text (absent
/// when the query had none), one facet path per requested tag, and
/// whether hidden notes must be filtered out.
#[derive(Debug)]
pub struct QueryPlan {
    pub free_text: Option<String>,
    pub tag_facets: Vec<String>,
    pub require_visible: bool,
}

/// The mathematical content of a query plan.
pub ghost struct PlanView {
    pub free_text: Option<Seq<char>>,
    pub tag_facets: Seq<Seq<char>>,
    pub require_visible: bool,
}

impl View for QueryPlan {
    type V = PlanView;

    open spec fn view(&self) -> PlanView {
        PlanView {
            free_text: self.free_text.deep_view(),
            tag_facets: self.tag_facets.deep_view(),
            require_visible: self.require_visible,
        }
    }
}

/// Every requested tag still has characters once control characters are
/// stripped, so every tag filter can be encoded as a facet.
pub open spec fn all_tags_cleanable(tags: Seq<Seq<char>>) -> bool {
    forall|i: int| 0 <= i < tags.len() ==> strip_controls(#[trigger] tags[i]).len() > 0
}

/// The facet paths of the requested tags, each tag first stripped of
/// control characters.
pub open spec fn plan_facets(tags: Seq<Seq<char>>) -> Seq<Seq<char>>
    decreases tags.len(),
{
    if tags.len() == 0 {
        Seq::<Seq<char>>::empty()
    } else {
        plan_facets(tags.drop_last()).push(facet_of(strip_controls(tags.last())))
    }
}

/// Builds the plan for one search from the parsed query: the free text is
/// case-folded, each `#`-tag becomes a facet filter, and hidden notes are
/// filtered out unless `include_hidden` is set. A tag with no facet-safe
/// characters is rejected as a bad query.
pub fn build_query_plan(parsed: &ParsedQuery, include_hidden: bool) -> (r: Result<
    QueryPlan,
    QueryError,
>)
    ensures
        r is Ok <==> all_tags_cleanable(parsed.tags.deep_view()),
        r matches Ok(p) ==> {
            &&& p@.require_visible == !include_hidden
            &&& p@.tag_facets == plan_facets(parsed.tags.deep_view())
            &&& p@.free_text == (if parsed.query@.len() == 0 {
                Option::<Seq<char>>::None
            } else {
                Some(lower_of(parsed.query@))
            })
        },
{
    let ghost tagsv = parsed.tags.deep_view();
    let mut tag_facets: Vec<String> = Vec::new();
    let mut i: usize = 0;
    while i < parsed.tags.len()
        invariant
            tagsv == parsed.tags.deep_view(),
            i <= parsed.tags@.len(),
            tag_facets.deep_view() == plan_facets(tagsv.take(i as int)),
            forall|j: int| 0 <= j < i ==> strip_controls(#[trigger] tagsv[j]).len() > 0,
        decreases parsed.tags@.len() - i,
    {
        proof {
            assert(tagsv[i as int] == parsed.tags@[i as int]@);
            assert(tagsv.take(i + 1).drop_last() =~= tagsv.take(i as int));
            assert(tagsv.take(i + 1).last() == tagsv[i as int]);
        }
        let cleaned = strip_control_chars(parsed.tags[i].as_str());
        if cleaned.as_str().is_empty() {
            proof {
                assert(!all_tags_cleanable(tagsv));
            }
            return Err(QueryError::InvalidTag);
        }
        tag_facets.push(crate::doc::encode_facet(cleaned.as_str()));
        proof {
            assert(tag_facets.deep_view() =~~= plan_facets(tagsv.take(i + 1)));
        }
        i = i + 1;
    }
    proof {
        assert(tagsv.take(tagsv.len() as int) =~= tagsv);
    }
    let free_text = if parsed.query.as_str().is_empty() {
        None
    } else {
        Some(lowercase(parsed.query.as_str()))
    };
    Ok(QueryPlan { free_text, tag_facets, require_visible: !include_hidden })
}

/// `needle` occurs in `hay` starting at position `i`.
pub open spec fn substring_at(needle: Seq<char>, hay: Seq<char>, i: int) -> bool {
    0 <= i && i + needle.len() <= hay.len() && hay.subrange(i, i + needle.len()) == needle
}

/// `needle` occurs somewhere in `hay`.
pub open spec fn is_substring(needle: Seq<char>, hay: Seq<char>) -> bool {
    exists|i: int| substring_at(needle, hay, i)
}

/// Whether `needle` occurs in `hay` starting at `i`.
fn substring_match_at(needle: &[char], hay: &[char], i: usize) -> (r: bool)
    requires
        i + needle@.len() <= hay@.len(),
    ensures
        r == substring_at(needle@, hay@, i as int),
{
    let n = hay.len();
    let m = needle.len();
    let mut k: usize = 0;
    while k < m
        invariant
            n == hay@.len(),
            m == needle@.len(),
            i + m <= n,
            k <= m,
            forall|j: int| 0 <= j < k ==> needle@[j] == hay@[i + j],
        decreases m - k,
    {
        if hay[i + k] != needle[k] {
            proof {
                let sub = hay@.subrange(i as int, i + needle@.len());
                assert(sub[k as int] == hay@[i + k]);
            }
            return false;
        }
        k = k + 1;
    }
    proof {
        assert(hay@.subrange(i as int, i + needle@.len()) =~= needle@);
    }
    true
}

/// Whether `needle` occurs anywhere in `hay`.
pub fn contains_substring(needle: &[char], hay: &[char]) -> (r: bool)
    ensures
        r == is_substring(needle@, hay@),
{
    if needle.len() == 0 {
        proof {
            assert(hay@.subrange(0, 0) =~= needle@);
            assert(substring_at(needle@, hay@, 0));
        }
        return true;
    }
    if needle.len() > hay.len() {
        proof {
            assert forall|i: int| !substring_at(needle@, hay@, i) by {}
        }
        return false;
    }
    let last_start = hay.len() - needle.len();
    let mut i: usize = 0;
    while i <= last_start
        invariant
            1 <= needle@.len() <= hay@.len(),
            hay@.len() == hay.len(),
            last_start == hay@.len() - needle@.len(),
            i <= last_start + 1,
            forall|j: int| 0 <= j < i ==> !substring_at(needle@, hay@, j),
        decreases last_start + 1 - i,
    {
        if substring_match_at(needle, hay, i) {
            return true;
        }
        i = i + 1;
    }
    proof {
        assert forall|j: int| !substring_at(needle@, hay@, j) by {
            if 0 <= j <= last_start {
            }
        }
    }
    false
}

/// Whether some token of `a` is also a token of `b`.
fn tokens_share(a: &Vec<Vec<char>>, b: &Vec<Vec<char>>) -> (r: bool)
    ensures
        r == shares_tag(a.deep_view(), b.deep_view()),
{
    let ghost av = a.deep_view();
    let mut i: usize = 0;
    while i < a.len()
        invariant
            av == a.deep_view(),
            i <= a@.len(),
            !shares_tag(av.take(i as int), b.deep_view()),
        decreases a@.len() - i,
    {
        proof {
            assert(av[i as int] == a@[i as int]@);
        }
        if token_list_contains(b, a[i].as_slice()) {
            proof {
                lemma_shares_tag_witness(av, b.deep_view(), i as int);
            }
            return true;
        }
        proof {
            assert(av.take(i + 1).drop_last() =~= av.take(i as int));
            assert(av.take(i + 1).last() == av[i as int]);
        }
        i = i + 1;
    }
    proof {
        assert(av.take(av.len() as int) =~= av);
    }
    false
}

/// Whether `x` is one of the tokens of `v`.
fn token_list_contains(v: &Vec<Vec<char>>, x: &[char]) -> (r: bool)
    ensures
        r == v.deep_view().contains(x@),
{
    let mut i: usize = 0;
    while i < v.len()
        invariant
            i <= v@.len(),
            forall|j: int| 0 <= j < i ==> v.deep_view()[j] != x@,
        decreases v@.len() - i,
    {
        proof {
            assert(v.deep_view()[i as int] == v@[i as int]@);
        }
        if chars_eq(v[i].as_slice(), x) {
            proof {
                assert(v.deep_view().contains(x@)) by {
                    assert(v.deep_view()[i as int] == x@);
                }
            }
            return true;
        }
        i = i + 1;
    }
    proof {
        if v.deep_view().contains(x@) {
            let j = choose|j: int| 0 <= j < v.deep_view().len() && v.deep_view()[j] == x@;
            assert(v.deep_view()[j] == x@);
        }
    }
    false
}

/// The engine's model of the scoring clauses: the case-folded query hits
/// the typeahead field as one of its n-gram substrings, or equals one
/// word of the folded title, or shares a word with the case-folded body
/// text.
pub open spec fn free_text_matches(d: DocView, q: Seq<char>) -> bool {
    ||| (crate::schema::NGRAM_MIN <= q.len() <= crate::schema::NGRAM_MAX && is_substring(
        q,
        d.typeahead_title,
    ))
    ||| tokens_of(d.typeahead_title).contains(q)
    ||| shares_tag(tokens_of(q), tokens_of(lower_of(d.body_text)))
}

/// Whether every facet of `need` is present in `have`.
pub open spec fn facets_all_present(need: Seq<Seq<char>>, have: Seq<Seq<char>>) -> bool
    decreases need.len(),
{
    if need.len() == 0 {
        true
    } else {
        have.contains(need.last()) && facets_all_present(need.drop_last(), have)
    }
}

proof fn lemma_facet_absent(need: Seq<Seq<char>>, have: Seq<Seq<char>>, i: int)
    requires
        0 <= i < need.len(),
        !have.contains(need[i]),
    ensures
        !facets_all_present(need, have),
    decreases need.len(),
{
    if i < need.len() - 1 {
        assert(need.drop_last()[i] == need[i]);
        lemma_facet_absent(need.drop_last(), have, i);
    }
}

/// The filter clauses of a plan: the document is visible when the plan
/// demands it, and carries every requested tag facet.
pub open spec fn doc_passes_filters(d: DocView, p: PlanView) -> bool {
    &&& (p.require_visible ==> !d.is_hidden)
    &&& facets_all_present(p.tag_facets, d.tag_facets)
}

/// Whether the plan has any filter clause.
pub open spec fn plan_has_filter(p: PlanView) -> bool {
    p.require_visible || p.tag_facets.len() > 0
}

/// Whether a document matches a plan at all: it passes every filter, and,
/// when the plan consists of scoring clauses alone, at least one of them
/// hits. A plan with no clauses at all matches every document.
pub open spec fn doc_matches_plan(d: DocView, p: PlanView) -> bool {
    &&& doc_passes_filters(d, p)
    &&& (p.free_text is None || plan_has_filter(p) || free_text_matches(d, p.free_text->0))
}

/// Whether this document passes the plan's filter clauses.
pub fn passes_filters(doc: &IndexedDocument, plan: &QueryPlan) -> (r: bool)
    ensures
        r == doc_passes_filters(doc@, plan@),
{
    if plan.require_visible && doc.is_hidden {
        return false;
    }
    let ghost need = plan.tag_facets.deep_view();
    let mut i: usize = 0;
    while i < plan.tag_facets.len()
        invariant
            need == plan.tag_facets.deep_view(),
            i <= plan.tag_facets@.len(),
            facets_all_present(need.take(i as int), doc.tag_facets.deep_view()),
        decreases plan.tag_facets@.len() - i,
    {
        proof {
            assert(need[i as int] == plan.tag_facets@[i as int]@);
        }
        if !vec_contains_string(&doc.tag_facets, &plan.tag_facets[i]) {
            proof {
                lemma_facet_absent(need, doc.tag_facets.deep_view(), i as int);
            }
            return false;
        }
        proof {
            assert(need.take(i + 1).drop_last() =~= need.take(i as int));
            assert(need.take(i + 1).last() == need[i as int]);
        }
        i = i + 1;
    }
    proof {
        assert(need.take(need.len() as int) =~= need);
    }
    true
}

/// Whether the case-folded free text `q` hits one of this document's
/// scoring clauses.
pub fn matches_free_text(doc: &IndexedDocument, q: &str) -> (r: bool)
    ensures
        r == free_text_matches(doc@, q@),
{
    let qc = chars_of(q);
    let tc = chars_of(doc.typeahead_title.as_str());
    if qc.len() >= crate::schema::NGRAM_MIN && qc.len() <= crate::schema::NGRAM_MAX
        && contains_substring(qc.as_slice(), tc.as_slice()) {
        return true;
    }
    let title_tokens = tokenize(doc.typeahead_title.as_str());
    if token_list_contains(&title_tokens, qc.as_slice()) {
        return true;
    }
    let folded_body = lowercase(doc.body_text.as_str());
    let body_tokens = tokenize(folded_body.as_str());
    let q_tokens = tokenize(q);
    tokens_share(&q_tokens, &body_tokens)
}

/// Whether this document matches the plan, as `doc_matches_plan` says.
pub fn matches_plan(doc: &IndexedDocument, plan: &QueryPlan) -> (r: bool)
    ensures
        r == doc_matches_plan(doc@, plan@),
{
    if !passes_filters(doc, plan) {
        return false;
    }
    let has_filter = plan.require_visible || plan.tag_facets.len() > 0;
    match &plan.free_text {
        None => true,
        Some(q) => {
            proof {
                assert(plan.free_text.deep_view() == Some(q@));
                assert(plan@.free_text->0 == q@);
            }
            if has_filter {
                true
            } else {
                matches_free_text(doc, q.as_str())
            }
        },
    }
}

} // verus!
