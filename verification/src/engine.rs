use vstd::prelude::*;

use crate::doc::{decoded_facets, doc_projects_note, DocView, IndexedDocument};
use crate::note::{added_tags, Note};
use crate::settings::Settings;
use crate::slug::stem_of;
use crate::plan::{
    doc_matches_plan, free_text_matches, matches_free_text, matches_plan, PlanView, QueryPlan,
    SortChoice,
};

verus! {

/// The sort key a document gets when ordered by a timestamp: its value in
/// epoch seconds, with an absent timestamp ordered before every present
/// one.
pub open spec fn time_key(t: Option<i64>) -> int {
    match t {
        Some(v) => v as int,
        None => (i64::MIN as int) - 1,
    }
}

/// Lexicographic order on character sequences, by code point.
pub open spec fn lex_le(a: Seq<char>, b: Seq<char>) -> bool
    decreases a.len(),
{
    if a.len() == 0 {
        true
    } else if b.len() == 0 {
        false
    } else if (a[0] as u32) < (b[0] as u32) {
        true
    } else if (b[0] as u32) < (a[0] as u32) {
        false
    } else {
        lex_le(a.drop_first(), b.drop_first())
    }
}

/// The requested order between two documents: by case-folded title — the
/// form the index's sortable title field holds — by modification time in
/// either direction, or by creation time, newest first.
pub open spec fn key_le(k: SortChoice, a: DocView, b: DocView) -> bool {
    match k {
        SortChoice::Title => lex_le(a.typeahead_title, b.typeahead_title),
        SortChoice::AscLastModified => time_key(a.modified) <= time_key(b.modified),
        SortChoice::DescLastModified => time_key(b.modified) <= time_key(a.modified),
        SortChoice::Created => time_key(b.created) <= time_key(a.created),
    }
}

pub proof fn lemma_lex_le_total(a: Seq<char>, b: Seq<char>)
    ensures
        lex_le(a, b) || lex_le(b, a),
    decreases a.len(),
{
    if a.len() > 0 && b.len() > 0 && a[0] as u32 == b[0] as u32 {
        lemma_lex_le_total(a.drop_first(), b.drop_first());
    }
}

pub proof fn lemma_lex_le_trans(a: Seq<char>, b: Seq<char>, c: Seq<char>)
    requires
        lex_le(a, b),
        lex_le(b, c),
    ensures
        lex_le(a, c),
    decreases a.len(),
{
    if a.len() > 0 && b.len() > 0 && c.len() > 0 && a[0] as u32 == b[0] as u32 && b[0] as u32
        == c[0] as u32 {
        lemma_lex_le_trans(a.drop_first(), b.drop_first(), c.drop_first());
    }
}

/// Every sort order is total.
pub proof fn lemma_key_le_total(k: SortChoice, a: DocView, b: DocView)
    ensures
        key_le(k, a, b) || key_le(k, b, a),
{
    if k is Title {
        lemma_lex_le_total(a.typeahead_title, b.typeahead_title);
    }
}

/// Every sort order is transitive.
pub proof fn lemma_key_le_trans(k: SortChoice, a: DocView, b: DocView, c: DocView)
    requires
        key_le(k, a, b),
        key_le(k, b, c),
    ensures
        key_le(k, a, c),
{
    if k is Title {
        lemma_lex_le_trans(a.typeahead_title, b.typeahead_title, c.typeahead_title);
    }
}

/// `d` inserted into `s` after every element not greater than it: the
/// step of a stable insertion sort.
pub open spec fn insert_doc(s: Seq<DocView>, d: DocView, k: SortChoice) -> Seq<DocView>
    decreases s.len(),
{
    if s.len() == 0 {
        seq![d]
    } else if key_le(k, s.last(), d) {
        s.push(d)
    } else {
        insert_doc(s.drop_last(), d, k).push(s.last())
    }
}

/// `s` sorted stably by the requested order.
pub open spec fn sort_docs_spec(s: Seq<DocView>, k: SortChoice) -> Seq<DocView>
    decreases s.len(),
{
    if s.len() == 0 {
        Seq::<DocView>::empty()
    } else {
        insert_doc(sort_docs_spec(s.drop_last(), k), s.last(), k)
    }
}

/// A sequence whose every pair of documents is in the requested order.
pub open spec fn sorted_by(s: Seq<DocView>, k: SortChoice) -> bool {
    forall|i: int, j: int| 0 <= i < j < s.len() ==> key_le(k, #[trigger] s[i], #[trigger] s[j])
}

proof fn lemma_insert_doc_sorted(s: Seq<DocView>, d: DocView, k: SortChoice)
    requires
        sorted_by(s, k),
    ensures
        sorted_by(insert_doc(s, d, k), k),
        insert_doc(s, d, k).len() == s.len() + 1,
    decreases s.len(),
{
    let r = insert_doc(s, d, k);
    if s.len() == 0 {
    } else if key_le(k, s.last(), d) {
        assert forall|i: int, j: int| 0 <= i < j < r.len() implies key_le(k, r[i], r[j]) by {
            if j == r.len() - 1 {
                if i < s.len() - 1 {
                    lemma_key_le_trans(k, s[i], s.last(), d);
                }
            }
        }
    } else {
        let sub = s.drop_last();
        assert(sorted_by(sub, k)) by {
            assert forall|i: int, j: int| 0 <= i < j < sub.len() implies key_le(
                k,
                sub[i],
                sub[j],
            ) by {
                assert(sub[i] == s[i] && sub[j] == s[j]);
            }
        }
        lemma_insert_doc_sorted(sub, d, k);
        let ri = insert_doc(sub, d, k);
        lemma_key_le_total(k, s.last(), d);
        assert forall|i: int, j: int| 0 <= i < j < r.len() implies key_le(k, r[i], r[j]) by {
            if j == r.len() - 1 {
                lemma_insert_doc_elems(sub, d, k, i);
                if r[i] != d {
                    let w = choose|w: int| 0 <= w < sub.len() && sub[w] == r[i];
                    assert(key_le(k, sub[w], s.last()));
                } else {
                    assert(key_le(k, d, s.last()));
                }
            } else {
                assert(r[i] == ri[i] && r[j] == ri[j]);
            }
        }
    }
}

proof fn lemma_insert_doc_elems(s: Seq<DocView>, d: DocView, k: SortChoice, i: int)
    requires
        0 <= i < insert_doc(s, d, k).len(),
    ensures
        insert_doc(s, d, k)[i] == d || exists|w: int|
            0 <= w < s.len() && s[w] == insert_doc(s, d, k)[i],
    decreases s.len(),
{
    let r = insert_doc(s, d, k);
    if s.len() == 0 {
    } else if key_le(k, s.last(), d) {
        if i < s.len() {
            assert(r[i] == s[i]);
        }
    } else {
        if i == r.len() - 1 {
            assert(r[i] == s.last());
        } else {
            lemma_insert_doc_elems(s.drop_last(), d, k, i);
            assert(r[i] == insert_doc(s.drop_last(), d, k)[i]);
            if r[i] != d {
                let w = choose|w: int|
                    0 <= w < s.drop_last().len() && s.drop_last()[w] == insert_doc(
                        s.drop_last(),
                        d,
                        k,
                    )[i];
                assert(s[w] == r[i]);
            }
        }
    }
}

/// A stable sort leaves every sequence in the requested order.
pub proof fn lemma_sort_docs_sorted(s: Seq<DocView>, k: SortChoice)
    ensures
        sorted_by(sort_docs_spec(s, k), k),
        sort_docs_spec(s, k).len() == s.len(),
    decreases s.len(),
{
    if s.len() > 0 {
        lemma_sort_docs_sorted(s.drop_last(), k);
        lemma_insert_doc_sorted(sort_docs_spec(s.drop_last(), k), s.last(), k);
    }
}

/// No two positions of `s` hold documents the order cannot tell apart.
pub open spec fn pairwise_untied(s: Seq<DocView>, k: SortChoice) -> bool {
    forall|i: int, j: int|
        0 <= i < j < s.len() ==> !(key_le(k, #[trigger] s[i], #[trigger] s[j]) && key_le(
            k,
            s[j],
            s[i],
        ))
}

proof fn lemma_insert_untied(s: Seq<DocView>, d: DocView, k: SortChoice)
    requires
        pairwise_untied(s, k),
        forall|x: int|
            0 <= x < s.len() ==> !(key_le(k, #[trigger] s[x], d) && key_le(k, d, s[x])),
    ensures
        pairwise_untied(insert_doc(s, d, k), k),
    decreases s.len(),
{
    let r = insert_doc(s, d, k);
    if s.len() == 0 {
    } else if key_le(k, s.last(), d) {
        assert forall|i: int, j: int|
            0 <= i < j < r.len() implies !(key_le(k, r[i], r[j]) && key_le(k, r[j], r[i])) by {
            if j == r.len() - 1 {
                assert(r[i] == s[i] && r[j] == d);
            } else {
                assert(r[i] == s[i] && r[j] == s[j]);
            }
        }
    } else {
        let sub = s.drop_last();
        assert(pairwise_untied(sub, k)) by {
            assert forall|i: int, j: int|
                0 <= i < j < sub.len() implies !(key_le(k, #[trigger] sub[i], #[trigger] sub[j])
                && key_le(k, sub[j], sub[i])) by {
                assert(sub[i] == s[i] && sub[j] == s[j]);
            }
        }
        assert forall|x: int|
            0 <= x < sub.len() implies !(key_le(k, #[trigger] sub[x], d) && key_le(
            k,
            d,
            sub[x],
        )) by {
            assert(sub[x] == s[x]);
        }
        lemma_insert_untied(sub, d, k);
        let ri = insert_doc(sub, d, k);
        assert forall|i: int, j: int|
            0 <= i < j < r.len() implies !(key_le(k, r[i], r[j]) && key_le(k, r[j], r[i])) by {
            if j == r.len() - 1 {
                assert(r[j] == s.last());
                assert(r[i] == ri[i]);
                lemma_insert_doc_elems(sub, d, k, i);
                if r[i] == d {
                    assert(s.last() == s[s.len() - 1]);
                    assert(!(key_le(k, s[s.len() - 1], d) && key_le(k, d, s[s.len() - 1])));
                } else {
                    let w = choose|w: int| 0 <= w < sub.len() && sub[w] == ri[i];
                    assert(sub[w] == s[w] && s.last() == s[s.len() - 1]);
                    assert(!(key_le(k, s[w], s[s.len() - 1]) && key_le(k, s[s.len() - 1], s[w])));
                }
            } else {
                assert(r[i] == ri[i] && r[j] == ri[j]);
            }
        }
    }
}

proof fn lemma_sort_untied(s: Seq<DocView>, k: SortChoice)
    requires
        pairwise_untied(s, k),
    ensures
        pairwise_untied(sort_docs_spec(s, k), k),
    decreases s.len(),
{
    if s.len() > 0 {
        let sub = s.drop_last();
        let d = s.last();
        assert(pairwise_untied(sub, k)) by {
            assert forall|i: int, j: int|
                0 <= i < j < sub.len() implies !(key_le(k, #[trigger] sub[i], #[trigger] sub[j])
                && key_le(k, sub[j], sub[i])) by {
                assert(sub[i] == s[i] && sub[j] == s[j]);
            }
        }
        lemma_sort_untied(sub, k);
        let so = sort_docs_spec(sub, k);
        lemma_sort_docs_sorted(sub, k);
        assert forall|x: int|
            0 <= x < so.len() implies !(key_le(k, #[trigger] so[x], d) && key_le(k, d, so[x])) by {
            lemma_sort_elems(sub, k, x);
            let w = choose|w: int| 0 <= w < sub.len() && sub[w] == so[x];
            assert(sub[w] == s[w] && d == s[s.len() - 1]);
            assert(!(key_le(k, s[w], s[s.len() - 1]) && key_le(k, s[s.len() - 1], s[w])));
        }
        lemma_insert_untied(so, d, k);
    }
}

/// Sort orders: over documents the requested order can always tell apart
/// — for the timestamp orders, documents with pairwise distinct stamps —
/// a sorted sequence is strictly ordered: each document comes strictly
/// before the next, never tied with it.
pub proof fn lemma_sort_docs_strict(s: Seq<DocView>, k: SortChoice)
    requires
        pairwise_untied(s, k),
    ensures
        forall|i: int, j: int|
            0 <= i < j < sort_docs_spec(s, k).len() ==> (key_le(
                k,
                #[trigger] sort_docs_spec(s, k)[i],
                #[trigger] sort_docs_spec(s, k)[j],
            ) && !key_le(k, sort_docs_spec(s, k)[j], sort_docs_spec(s, k)[i])),
{
    lemma_sort_docs_sorted(s, k);
    lemma_sort_untied(s, k);
}

proof fn lemma_insert_doc_at(s: Seq<DocView>, d: DocView, k: SortChoice, j: int)
    requires
        0 <= j <= s.len(),
        forall|x: int| j <= x < s.len() ==> !key_le(k, #[trigger] s[x], d),
        j > 0 ==> key_le(k, s[j - 1], d),
    ensures
        insert_doc(s, d, k) =~= s.insert(j, d),
    decreases s.len(),
{
    if s.len() == 0 {
    } else if j == s.len() {
        assert(key_le(k, s[j - 1], d));
        assert(s.last() == s[s.len() - 1]);
    } else {
        assert(!key_le(k, s.last(), d));
        let sub = s.drop_last();
        lemma_insert_doc_at(sub, d, k, j);
        assert(insert_doc(s, d, k) =~= sub.insert(j, d).push(s.last()));
        assert(sub.insert(j, d).push(s.last()) =~= s.insert(j, d));
    }
}

/// A duplicate of `v` with the same characters in each string.
pub fn clone_string_vec(v: &Vec<String>) -> (r: Vec<String>)
    ensures
        r.deep_view() == v.deep_view(),
{
    let mut r: Vec<String> = Vec::new();
    let mut i: usize = 0;
    while i < v.len()
        invariant
            i <= v@.len(),
            r@.len() == i,
            forall|j: int| 0 <= j < i ==> #[trigger] r@[j]@ == v@[j]@,
        decreases v@.len() - i,
    {
        let c = v[i].clone();
        r.push(c);
        i = i + 1;
    }
    proof {
        assert forall|j: int| 0 <= j < r.deep_view().len() implies r.deep_view()[j]
            == v.deep_view()[j] by {
            assert(r.deep_view()[j] == r@[j]@);
            assert(v.deep_view()[j] == v@[j]@);
        }
        assert(r.deep_view() =~= v.deep_view());
    }
    r
}

/// A duplicate of one indexed document.
fn clone_doc(d: &IndexedDocument) -> (r: IndexedDocument)
    ensures
        r@ == d@,
{
    let r = IndexedDocument {
        title: d.title.clone(),
        typeahead_title: d.typeahead_title.clone(),
        path: d.path.clone(),
        body_text: d.body_text.clone(),
        tag_facets: clone_string_vec(&d.tag_facets),
        is_hidden: d.is_hidden,
        created: d.created,
        modified: d.modified,
    };
    proof {
        assert(r@ =~~= d@);
    }
    r
}

/// The documents of `docs`, in order, that the plan matches; with `prune`
/// set, a document must also hit a scoring clause whenever the plan has
/// free text — the engine's model of the relevance floor.
pub open spec fn selected_docs(docs: Seq<DocView>, p: PlanView, prune: bool) -> Seq<DocView>
    decreases docs.len(),
{
    if docs.len() == 0 {
        Seq::<DocView>::empty()
    } else {
        let r = selected_docs(docs.drop_last(), p, prune);
        if keeps_doc(docs.last(), p, prune) {
            r.push(docs.last())
        } else {
            r
        }
    }
}

/// Whether one document survives selection.
pub open spec fn keeps_doc(d: DocView, p: PlanView, prune: bool) -> bool {
    doc_matches_plan(d, p) && (!prune || p.free_text is None || free_text_matches(
        d,
        p.free_text->0,
    ))
}

/// The documents the plan matches, in corpus order, with the relevance
/// floor applied when `prune` is set.
pub fn select_documents(docs: &Vec<IndexedDocument>, plan: &QueryPlan, prune: bool) -> (r: Vec<
    IndexedDocument,
>)
    ensures
        r.deep_view() == selected_docs(docs.deep_view(), plan@, prune),
{
    let ghost dv = docs.deep_view();
    let mut r: Vec<IndexedDocument> = Vec::new();
    let mut i: usize = 0;
    while i < docs.len()
        invariant
            dv == docs.deep_view(),
            i <= docs@.len(),
            r.deep_view() == selected_docs(dv.take(i as int), plan@, prune),
        decreases docs@.len() - i,
    {
        proof {
            assert(dv[i as int] == docs@[i as int]@);
            assert(dv.take(i + 1).drop_last() =~= dv.take(i as int));
            assert(dv.take(i + 1).last() == dv[i as int]);
        }
        let d = &docs[i];
        let mut keep = matches_plan(d, plan);
        if keep && prune {
            match &plan.free_text {
                Some(q) => {
                    proof {
                        assert(plan.free_text.deep_view() == Some(q@));
                        assert(plan@.free_text->0 == q@);
                    }
                    keep = matches_free_text(d, q.as_str());
                },
                None => {},
            }
        }
        if keep {
            r.push(clone_doc(d));
        }
        proof {
            assert(r.deep_view() =~~= selected_docs(dv.take(i + 1), plan@, prune));
        }
        i = i + 1;
    }
    proof {
        assert(dv.take(dv.len() as int) =~= dv);
    }
    r
}

/// Whether `a` comes no later than `b` under the requested order.
fn doc_le(k: SortChoice, a: &IndexedDocument, b: &IndexedDocument) -> (r: bool)
    ensures
        r == key_le(k, a@, b@),
{
    match k {
        SortChoice::Title => {
            let ac = crate::text::chars_of(a.typeahead_title.as_str());
            let bc = crate::text::chars_of(b.typeahead_title.as_str());
            lex_le_chars(ac.as_slice(), bc.as_slice())
        },
        SortChoice::AscLastModified => time_le(&a.modified, &b.modified),
        SortChoice::DescLastModified => time_le(&b.modified, &a.modified),
        SortChoice::Created => time_le(&b.created, &a.created),
    }
}

/// Whether `a`'s timestamp key is at most `b`'s.
fn time_le(a: &Option<i64>, b: &Option<i64>) -> (r: bool)
    ensures
        r == (time_key(*a) <= time_key(*b)),
{
    match (a, b) {
        (None, _) => true,
        (Some(_), None) => false,
        (Some(x), Some(y)) => *x <= *y,
    }
}

proof fn lemma_lex_le_skip(a: Seq<char>, b: Seq<char>, i: int)
    requires
        0 <= i <= a.len(),
        i <= b.len(),
        forall|j: int| 0 <= j < i ==> (a[j] as u32) == (b[j] as u32),
    ensures
        lex_le(a, b) == lex_le(a.skip(i), b.skip(i)),
    decreases i,
{
    if i > 0 {
        assert(a.len() > 0 && b.len() > 0);
        assert((a[0] as u32) == (b[0] as u32));
        assert(a.drop_first() =~= a.skip(1));
        assert(b.drop_first() =~= b.skip(1));
        lemma_lex_le_skip(a.drop_first(), b.drop_first(), i - 1);
        assert(a.drop_first().skip(i - 1) =~= a.skip(i));
        assert(b.drop_first().skip(i - 1) =~= b.skip(i));
    } else {
        assert(a.skip(0) =~= a);
        assert(b.skip(0) =~= b);
    }
}

/// Whether `a` is lexicographically at most `b`, by code point.
fn lex_le_chars(a: &[char], b: &[char]) -> (r: bool)
    ensures
        r == lex_le(a@, b@),
{
    let n = a.len();
    let m = b.len();
    let mut i: usize = 0;
    while i < n && i < m && (a[i] as u32) == (b[i] as u32)
        invariant
            n == a@.len(),
            m == b@.len(),
            i <= n,
            i <= m,
            forall|j: int| 0 <= j < i ==> (a@[j] as u32) == (b@[j] as u32),
        decreases n - i,
    {
        i = i + 1;
    }
    proof {
        lemma_lex_le_skip(a@, b@, i as int);
        let sa = a@.skip(i as int);
        let sb = b@.skip(i as int);
        if i < n {
            assert(sa[0] == a@[i as int]);
        }
        if i < m {
            assert(sb[0] == b@[i as int]);
        }
    }
    if i == n {
        true
    } else if i == m {
        false
    } else {
        (a[i] as u32) < (b[i] as u32)
    }
}

/// `docs` sorted stably by the requested order.
pub fn sort_documents(docs: Vec<IndexedDocument>, k: SortChoice) -> (r: Vec<IndexedDocument>)
    ensures
        r.deep_view() == sort_docs_spec(docs.deep_view(), k),
{
    let ghost dv = docs.deep_view();
    let mut r: Vec<IndexedDocument> = Vec::new();
    let mut rest = docs;
    let mut i: usize = 0;
    while i < rest.len()
        invariant
            dv == rest.deep_view(),
            i <= rest@.len(),
            r.deep_view() == sort_docs_spec(dv.take(i as int), k),
        decreases rest@.len() - i,
    {
        proof {
            assert(dv[i as int] == rest@[i as int]@);
            assert(dv.take(i + 1).drop_last() =~= dv.take(i as int));
            assert(dv.take(i + 1).last() == dv[i as int]);
        }
        let d = clone_doc(&rest[i]);
        let ghost drv = d@;
        let mut j: usize = r.len();
        while j > 0 && !doc_le(k, &r[j - 1], &d)
            invariant
                drv == d@,
                j <= r@.len(),
                r.deep_view() == sort_docs_spec(dv.take(i as int), k),
                forall|x: int|
                    j <= x < r.deep_view().len() ==> !key_le(k, #[trigger] r.deep_view()[x], drv),
            decreases j,
        {
            proof {
                assert(r.deep_view()[j - 1] == r@[j - 1]@);
            }
            j = j - 1;
        }
        proof {
            if j > 0 {
                assert(r.deep_view()[j - 1] == r@[j - 1]@);
            }
            lemma_insert_doc_at(r.deep_view(), drv, k, j as int);
        }
        r.insert(j, d);
        proof {
            assert(r.deep_view() =~~= sort_docs_spec(dv.take(i + 1), k));
        }
        i = i + 1;
    }
    proof {
        assert(dv.take(dv.len() as int) =~= dv);
    }
    r
}

/// The documents one search returns, before projection: the matching
/// documents, with the relevance floor applied under relevance order or
/// sorted stably under a requested order, truncated to `limit`. Under
/// relevance order the engine keeps the candidates' given order; their
/// ranking by score belongs to the index storage layer.
pub open spec fn query_results(
    docs: Seq<DocView>,
    p: PlanView,
    sort: Option<SortChoice>,
    limit: int,
) -> Seq<DocView> {
    let m = selected_docs(docs, p, sort is None);
    let o = match sort {
        None => m,
        Some(k) => sort_docs_spec(m, k),
    };
    if o.len() <= limit {
        o
    } else {
        o.take(limit)
    }
}

/// `n` is the note that projection builds back from stored document `d`.
pub open spec fn projected_note_ok(n: Note, d: DocView) -> bool {
    &&& n.id@ == stem_of(d.path)
    &&& n.path.deep_view() == Some(d.path)
    &&& n.title@ == d.title
    &&& n.body is None
    &&& n.url is None
    &&& n.tags.deep_view() == added_tags(Seq::<Seq<char>>::empty(), decoded_facets(d.tag_facets))
    &&& n.created == d.created
    &&& n.modified == d.modified
}

/// The notes described by a list of stored documents, in order.
pub fn project_results(docs: &Vec<IndexedDocument>) -> (r: Vec<Note>)
    ensures
        r@.len() == docs.deep_view().len(),
        forall|i: int|
            0 <= i < r@.len() ==> projected_note_ok(#[trigger] r@[i], docs.deep_view()[i]),
{
    let mut r: Vec<Note> = Vec::new();
    let mut i: usize = 0;
    while i < docs.len()
        invariant
            i <= docs@.len(),
            r@.len() == i,
            forall|j: int|
                0 <= j < i ==> projected_note_ok(#[trigger] r@[j], docs.deep_view()[j]),
        decreases docs@.len() - i,
    {
        let d = &docs[i];
        proof {
            assert(docs.deep_view()[i as int] == docs@[i as int]@);
        }
        let n = Note::from_stored_fields(
            Some(d.title.clone()),
            d.path.clone(),
            None,
            clone_string_vec(&d.tag_facets),
            d.created,
            d.modified,
        );
        r.push(n);
        i = i + 1;
    }
    r
}

/// One search against a committed generation: selection, ordering,
/// truncation to `limit`, and projection back into notes, exactly as
/// `query_results` describes.
pub fn run_query(
    docs: &Vec<IndexedDocument>,
    plan: &QueryPlan,
    sort: Option<SortChoice>,
    limit: usize,
) -> (r: Vec<Note>)
    ensures
        r@.len() == query_results(docs.deep_view(), plan@, sort, limit as int).len(),
        forall|i: int|
            0 <= i < r@.len() ==> projected_note_ok(
                #[trigger] r@[i],
                query_results(docs.deep_view(), plan@, sort, limit as int)[i],
            ),
{
    let prune = sort.is_none();
    let picked = select_documents(docs, plan, prune);
    let mut ordered = match sort {
        None => picked,
        Some(k) => sort_documents(picked, k),
    };
    let ghost o = match sort {
        None => selected_docs(docs.deep_view(), plan@, true),
        Some(k) => sort_docs_spec(selected_docs(docs.deep_view(), plan@, false), k),
    };
    proof {
        assert(ordered.deep_view() == o);
    }
    if ordered.len() > limit {
        ordered.truncate(limit);
        proof {
            assert(ordered.deep_view() =~= o.take(limit as int));
        }
    }
    proof {
        assert(ordered.deep_view() =~= query_results(
            docs.deep_view(),
            plan@,
            sort,
            limit as int,
        ));
    }
    project_results(&ordered)
}

/// The committed generation after one indexing pass: each document of
/// `docs`, in order, replaces whatever its path held before — the map
/// image of delete-then-add.
pub open spec fn generation_after(
    gen: Map<Seq<char>, DocView>,
    docs: Seq<DocView>,
) -> Map<Seq<char>, DocView>
    decreases docs.len(),
{
    if docs.len() == 0 {
        gen
    } else {
        generation_after(gen, docs.drop_last()).insert(docs.last().path, docs.last())
    }
}

/// Whether some document of `docs` has path `p`.
pub open spec fn has_doc_for(docs: Seq<DocView>, p: Seq<char>) -> bool
    decreases docs.len(),
{
    if docs.len() == 0 {
        false
    } else {
        docs.last().path == p || has_doc_for(docs.drop_last(), p)
    }
}

/// The last document of `docs` whose path is `p`; for a path no document
/// has, an empty placeholder.
pub open spec fn latest_doc_for(docs: Seq<DocView>, p: Seq<char>) -> DocView
    decreases docs.len(),
{
    if docs.len() == 0 {
        DocView {
            title: Seq::<char>::empty(),
            typeahead_title: Seq::<char>::empty(),
            path: p,
            body_text: Seq::<char>::empty(),
            tag_facets: Seq::<Seq<char>>::empty(),
            is_hidden: false,
            created: None,
            modified: None,
        }
    } else if docs.last().path == p {
        docs.last()
    } else {
        latest_doc_for(docs.drop_last(), p)
    }
}

/// What one indexing pass leaves at each path: the latest document of the
/// pass for paths the pass touched, and the old entry for the rest.
pub proof fn lemma_generation_lookup(
    gen: Map<Seq<char>, DocView>,
    docs: Seq<DocView>,
    p: Seq<char>,
)
    ensures
        generation_after(gen, docs).dom().contains(p) == (gen.dom().contains(p) || has_doc_for(
            docs,
            p,
        )),
        has_doc_for(docs, p) ==> generation_after(gen, docs)[p] == latest_doc_for(docs, p),
        !has_doc_for(docs, p) && gen.dom().contains(p) ==> generation_after(gen, docs)[p]
            == gen[p],
    decreases docs.len(),
{
    if docs.len() > 0 {
        lemma_generation_lookup(gen, docs.drop_last(), p);
    }
}

/// Rebuilding against an unchanged corpus a second time leaves the
/// committed generation — and with it the document count and the answer
/// to every query — exactly as the first rebuild left it.
pub proof fn lemma_rebuild_idempotent(gen: Map<Seq<char>, DocView>, docs: Seq<DocView>)
    ensures
        generation_after(generation_after(gen, docs), docs) == generation_after(gen, docs),
{
    let g1 = generation_after(gen, docs);
    let g2 = generation_after(g1, docs);
    assert forall|p: Seq<char>| g2.dom().contains(p) == g1.dom().contains(p) by {
        lemma_generation_lookup(gen, docs, p);
        lemma_generation_lookup(g1, docs, p);
    }
    assert forall|p: Seq<char>| #[trigger] g1.dom().contains(p) implies g2[p] == g1[p] by {
        lemma_generation_lookup(gen, docs, p);
        lemma_generation_lookup(g1, docs, p);
    }
    assert(g2 =~= g1);
}

proof fn lemma_latest_doc_is(docs: Seq<DocView>, i: int)
    requires
        0 <= i < docs.len(),
        forall|j: int| i < j < docs.len() ==> (#[trigger] docs[j]).path != docs[i].path,
    ensures
        has_doc_for(docs, docs[i].path),
        latest_doc_for(docs, docs[i].path) == docs[i],
    decreases docs.len(),
{
    if i < docs.len() - 1 {
        let sub = docs.drop_last();
        assert(docs.last() == docs[docs.len() - 1]);
        assert(docs.last().path != docs[i].path);
        assert(sub[i] == docs[i]);
        assert forall|j: int| i < j < sub.len() implies (#[trigger] sub[j]).path != sub[i].path by {
            assert(sub[j] == docs[j]);
        }
        lemma_latest_doc_is(sub, i);
    }
}

/// Upserting is delete-then-add: after a pass, the path of an edited note
/// holds exactly the latest document built for it, and nothing else — a
/// path can never hold two entries, so re-indexing an edited note can
/// leave no duplicate and no stale title behind.
pub proof fn lemma_upsert_current(gen: Map<Seq<char>, DocView>, docs: Seq<DocView>, i: int)
    requires
        0 <= i < docs.len(),
        forall|j: int| i < j < docs.len() ==> (#[trigger] docs[j]).path != docs[i].path,
    ensures
        generation_after(gen, docs).dom().contains(docs[i].path),
        generation_after(gen, docs)[docs[i].path] == docs[i],
{
    lemma_latest_doc_is(docs, i);
    lemma_generation_lookup(gen, docs, docs[i].path);
}

/// The documents of one indexing pass: each note of the corpus, in order,
/// projected into the document the index will store for it.
pub fn build_corpus_documents(notes: &Vec<Note>, notes_root: &str, settings: &Settings) -> (r:
    Vec<IndexedDocument>)
    requires
        forall|i: int| 0 <= i < notes@.len() ==> (#[trigger] notes@[i]).path is Some,
    ensures
        r@.len() == notes@.len(),
        forall|i: int|
            0 <= i < r@.len() ==> doc_projects_note(
                #[trigger] r.deep_view()[i],
                notes@[i],
                notes_root@,
                settings.ignore.deep_view(),
            ),
{
    let mut r: Vec<IndexedDocument> = Vec::new();
    let mut i: usize = 0;
    while i < notes.len()
        invariant
            i <= notes@.len(),
            r@.len() == i,
            forall|j: int| 0 <= j < notes@.len() ==> (#[trigger] notes@[j]).path is Some,
            forall|j: int|
                0 <= j < i ==> doc_projects_note(
                    #[trigger] r.deep_view()[j],
                    notes@[j],
                    notes_root@,
                    settings.ignore.deep_view(),
                ),
        decreases notes@.len() - i,
    {
        let d = notes[i].to_indexed_document(notes_root, settings);
        let ghost predv = r.deep_view();
        r.push(d);
        proof {
            assert forall|j: int|
                0 <= j < i + 1 implies doc_projects_note(
                #[trigger] r.deep_view()[j],
                notes@[j],
                notes_root@,
                settings.ignore.deep_view(),
            ) by {
                assert(r.deep_view()[j] == r@[j]@);
                if j < i {
                    assert(doc_projects_note(
                        predv[j],
                        notes@[j],
                        notes_root@,
                        settings.ignore.deep_view(),
                    ));
                }
            }
        }
        i = i + 1;
    }
    r
}

proof fn lemma_selected_all(docs: Seq<DocView>, p: PlanView, prune: bool, i: int)
    requires
        0 <= i < selected_docs(docs, p, prune).len(),
    ensures
        keeps_doc(selected_docs(docs, p, prune)[i], p, prune),
    decreases docs.len(),
{
    if docs.len() > 0 {
        let r = selected_docs(docs, p, prune);
        let sub = selected_docs(docs.drop_last(), p, prune);
        if keeps_doc(docs.last(), p, prune) && i == r.len() - 1 {
        } else {
            lemma_selected_all(docs.drop_last(), p, prune, i);
        }
    }
}

proof fn lemma_sort_elems(s: Seq<DocView>, k: SortChoice, i: int)
    requires
        0 <= i < sort_docs_spec(s, k).len(),
    ensures
        exists|w: int| 0 <= w < s.len() && s[w] == sort_docs_spec(s, k)[i],
    decreases s.len(),
{
    let r = sort_docs_spec(s, k);
    let sub = sort_docs_spec(s.drop_last(), k);
    lemma_sort_docs_sorted(s.drop_last(), k);
    lemma_insert_doc_elems(sub, s.last(), k, i);
    if r[i] == s.last() {
        assert(s[s.len() - 1] == r[i]);
    } else if r[i] != s.last() {
        if exists|w: int| 0 <= w < sub.len() && sub[w] == r[i] {
            let w = choose|w: int| 0 <= w < sub.len() && sub[w] == r[i];
            lemma_sort_elems(s.drop_last(), k, w);
            let v = choose|v: int| 0 <= v < s.drop_last().len() && s.drop_last()[v] == sub[w];
            assert(s[v] == r[i]);
        } else {
            assert(r[i] == s.last());
        }
    }
}

proof fn lemma_facets_all_present_elem(need: Seq<Seq<char>>, have: Seq<Seq<char>>, i: int)
    requires
        crate::plan::facets_all_present(need, have),
        0 <= i < need.len(),
    ensures
        have.contains(need[i]),
    decreases need.len(),
{
    if i < need.len() - 1 {
        assert(need.drop_last()[i] == need[i]);
        lemma_facets_all_present_elem(need.drop_last(), have, i);
    } else {
        assert(need.last() == need[i]);
    }
}

/// Every document a query returns passes the plan's filter clauses.
pub proof fn lemma_results_pass_filters(
    docs: Seq<DocView>,
    p: PlanView,
    sort: Option<SortChoice>,
    limit: int,
    i: int,
)
    requires
        0 <= limit,
        0 <= i < query_results(docs, p, sort, limit).len(),
    ensures
        crate::plan::doc_passes_filters(query_results(docs, p, sort, limit)[i], p),
        keeps_doc(query_results(docs, p, sort, limit)[i], p, sort is None),
{
    let m = selected_docs(docs, p, sort is None);
    let r = query_results(docs, p, sort, limit);
    if sort is None {
        assert(r[i] == m[i]);
        lemma_selected_all(docs, p, true, i);
    } else {
        let k = sort->0;
        let o = sort_docs_spec(m, k);
        assert(r[i] == o[i]);
        lemma_sort_docs_sorted(m, k);
        lemma_sort_elems(m, k, i);
        let w = choose|w: int| 0 <= w < m.len() && m[w] == o[i];
        lemma_selected_all(docs, p, false, w);
    }
}

/// Visibility: with the visibility clause in force, no hidden document
/// ever appears in a query's results; without it, the filters say nothing
/// about visibility and hidden documents pass like any other.
pub proof fn lemma_hidden_excluded(
    docs: Seq<DocView>,
    p: PlanView,
    sort: Option<SortChoice>,
    limit: int,
    i: int,
)
    requires
        0 <= limit,
        p.require_visible,
        0 <= i < query_results(docs, p, sort, limit).len(),
    ensures
        !query_results(docs, p, sort, limit)[i].is_hidden,
{
    lemma_results_pass_filters(docs, p, sort, limit, i);
}

/// Tag filtering: every document a query returns carries every tag facet
/// the plan demands, whatever the free text was.
pub proof fn lemma_tag_filter(
    docs: Seq<DocView>,
    p: PlanView,
    sort: Option<SortChoice>,
    limit: int,
    i: int,
    f: int,
)
    requires
        0 <= limit,
        0 <= i < query_results(docs, p, sort, limit).len(),
        0 <= f < p.tag_facets.len(),
    ensures
        query_results(docs, p, sort, limit)[i].tag_facets.contains(p.tag_facets[f]),
{
    lemma_results_pass_filters(docs, p, sort, limit, i);
    lemma_facets_all_present_elem(
        p.tag_facets,
        query_results(docs, p, sort, limit)[i].tag_facets,
        f,
    );
}

proof fn lemma_selected_none(docs: Seq<DocView>, p: PlanView, prune: bool)
    requires
        forall|i: int| 0 <= i < docs.len() ==> !keeps_doc(#[trigger] docs[i], p, prune),
    ensures
        selected_docs(docs, p, prune).len() == 0,
    decreases docs.len(),
{
    if docs.len() > 0 {
        assert(docs.last() == docs[docs.len() - 1]);
        assert forall|i: int| 0 <= i < docs.drop_last().len() implies !keeps_doc(
            #[trigger] docs.drop_last()[i],
            p,
            prune,
        ) by {
            assert(docs.drop_last()[i] == docs[i]);
        }
        lemma_selected_none(docs.drop_last(), p, prune);
    }
}

/// Relevance floor: under relevance order, a free-text query that hits no
/// scoring clause of any document returns nothing at all, rather than
/// low-confidence noise.
pub proof fn lemma_relevance_floor(docs: Seq<DocView>, p: PlanView, limit: int)
    requires
        0 <= limit,
        p.free_text is Some,
        forall|i: int|
            0 <= i < docs.len() ==> !free_text_matches(#[trigger] docs[i], p.free_text->0),
    ensures
        query_results(docs, p, None, limit).len() == 0,
{
    assert forall|i: int| 0 <= i < docs.len() implies !keeps_doc(#[trigger] docs[i], p, true) by {
        assert(!free_text_matches(docs[i], p.free_text->0));
    }
    lemma_selected_none(docs, p, true);
}

} // verus!


