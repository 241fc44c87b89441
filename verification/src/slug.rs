use vstd::prelude::*;

use crate::text::{alnum_of, chars_of, is_alphanumeric_char, lower_of, lowercase, string_from_chars};

verus! {

/// `s` with every maximal run of non-alphanumeric characters replaced by a
/// single hyphen.
pub open spec fn hyphen_fold(s: Seq<char>) -> Seq<char>
    decreases s.len(),
{
    if s.len() == 0 {
        Seq::<char>::empty()
    } else {
        let p = hyphen_fold(s.drop_last());
        if alnum_of(s.last()) {
            p.push(s.last())
        } else if p.len() > 0 && p.last() == '-' {
            p
        } else {
            p.push('-')
        }
    }
}

/// `s` without its leading hyphens.
pub open spec fn trim_leading_hyphens(s: Seq<char>) -> Seq<char>
    decreases s.len(),
{
    if s.len() > 0 && s[0] == '-' {
        trim_leading_hyphens(s.drop_first())
    } else {
        s
    }
}

/// `s` without its trailing hyphens.
pub open spec fn trim_trailing_hyphens(s: Seq<char>) -> Seq<char>
    decreases s.len(),
{
    if s.len() > 0 && s.last() == '-' {
        trim_trailing_hyphens(s.drop_last())
    } else {
        s
    }
}

/// `s` without leading or trailing hyphens.
pub open spec fn trim_hyphens(s: Seq<char>) -> Seq<char> {
    trim_trailing_hyphens(trim_leading_hyphens(s))
}

/// The slug of `s`: its lowercase form with non-alphanumeric runs collapsed
/// to single hyphens and hyphens trimmed from both ends.
pub open spec fn slug_of(s: Seq<char>) -> Seq<char> {
    trim_hyphens(hyphen_fold(lower_of(s)))
}

proof fn lemma_trim_leading_skips(s: Seq<char>, k: int)
    requires
        0 <= k <= s.len(),
        forall|j: int| 0 <= j < k ==> s[j] == '-',
    ensures
        trim_leading_hyphens(s) == trim_leading_hyphens(s.subrange(k, s.len() as int)),
    decreases k,
{
    if k > 0 {
        assert(s.drop_first() =~= s.subrange(1, s.len() as int));
        lemma_trim_leading_skips(s.drop_first(), k - 1);
        assert(s.drop_first().subrange(k - 1, s.drop_first().len() as int) =~= s.subrange(
            k,
            s.len() as int,
        ));
    } else {
        assert(s.subrange(0, s.len() as int) =~= s);
    }
}

proof fn lemma_trim_trailing_skips(s: Seq<char>, k: int)
    requires
        0 <= k <= s.len(),
        forall|j: int| k <= j < s.len() ==> s[j] == '-',
    ensures
        trim_trailing_hyphens(s) == trim_trailing_hyphens(s.subrange(0, k)),
    decreases s.len() - k,
{
    if k < s.len() {
        assert(s.drop_last() =~= s.subrange(0, s.len() - 1));
        lemma_trim_trailing_skips(s.drop_last(), k);
        assert(s.drop_last().subrange(0, k) =~= s.subrange(0, k));
    } else {
        assert(s.subrange(0, s.len() as int) =~= s);
    }
}

proof fn lemma_trim_leading_first(s: Seq<char>)
    ensures
        trim_leading_hyphens(s).len() > 0 ==> trim_leading_hyphens(s)[0] != '-',
    decreases s.len(),
{
    if s.len() > 0 && s[0] == '-' {
        lemma_trim_leading_first(s.drop_first());
    }
}

proof fn lemma_trim_trailing_prefix(s: Seq<char>)
    ensures
        trim_trailing_hyphens(s).len() <= s.len(),
        forall|i: int|
            0 <= i < trim_trailing_hyphens(s).len() ==> #[trigger] trim_trailing_hyphens(s)[i]
                == s[i],
        trim_trailing_hyphens(s).len() > 0 ==> trim_trailing_hyphens(s).last() != '-',
    decreases s.len(),
{
    if s.len() > 0 && s.last() == '-' {
        lemma_trim_trailing_prefix(s.drop_last());
        assert(forall|i: int| 0 <= i < s.drop_last().len() ==> s.drop_last()[i] == s[i]);
    }
}

/// A slug never begins or ends with a hyphen: the identifier shape the
/// note model relies on.
pub proof fn lemma_slug_no_edge_hyphens(s: Seq<char>)
    ensures
        slug_of(s).len() > 0 ==> slug_of(s)[0] != '-',
        slug_of(s).len() > 0 ==> slug_of(s).last() != '-',
{
    let led = trim_leading_hyphens(hyphen_fold(lower_of(s)));
    lemma_trim_leading_first(hyphen_fold(lower_of(s)));
    lemma_trim_trailing_prefix(led);
    if slug_of(s).len() > 0 {
        assert(slug_of(s)[0] == led[0]);
    }
}

/// The slug derived from `text`, as the index and the note model use it:
/// lowercase, non-alphanumeric runs collapsed to one hyphen, no hyphen at
/// either end.
pub fn slugify(text: &str) -> (r: String)
    ensures
        r@ == slug_of(text@),
{
    let lowered = lowercase(text);
    let cs = chars_of(lowered.as_str());
    let ghost l = lower_of(text@);
    let mut clean: Vec<char> = Vec::new();
    let mut i: usize = 0;
    while i < cs.len()
        invariant
            cs@ == l,
            i <= cs@.len(),
            clean@ == hyphen_fold(l.take(i as int)),
        decreases cs@.len() - i,
    {
        let c = cs[i];
        proof {
            assert(l.take(i + 1).drop_last() =~= l.take(i as int));
            assert(l.take(i + 1).last() == l[i as int]);
        }
        if is_alphanumeric_char(c) {
            clean.push(c);
        } else {
            let is_dup = clean.len() > 0 && clean[clean.len() - 1] == '-';
            if !is_dup {
                clean.push('-');
            }
        }
        i = i + 1;
    }
    proof {
        assert(l.take(l.len() as int) =~= l);
    }
    let ghost folded = hyphen_fold(l);

    let mut start: usize = 0;
    while start < clean.len() && clean[start] == '-'
        invariant
            clean@ == folded,
            start <= clean@.len(),
            forall|j: int| 0 <= j < start ==> folded[j] == '-',
        decreases clean@.len() - start,
    {
        start = start + 1;
    }
    let mut end: usize = clean.len();
    while end > start && clean[end - 1] == '-'
        invariant
            clean@ == folded,
            start <= end <= clean@.len(),
            forall|j: int| 0 <= j < start ==> folded[j] == '-',
            forall|j: int| end <= j < folded.len() ==> folded[j] == '-',
        decreases end,
    {
        end = end - 1;
    }
    proof {
        lemma_trim_leading_skips(folded, start as int);
        let tail = folded.subrange(start as int, folded.len() as int);
        if start < folded.len() {
            assert(tail[0] == folded[start as int]);
        }
        assert(trim_leading_hyphens(tail) == tail);
        lemma_trim_trailing_skips(tail, end - start);
        assert(tail.subrange(0, end - start) =~= folded.subrange(start as int, end as int));
        let mid = folded.subrange(start as int, end as int);
        if end > start {
            assert(mid.last() == folded[end - 1]);
        }
        assert(trim_trailing_hyphens(mid) == mid);
    }
    let piece = string_from_chars(&clean.as_slice()[start..end]);
    piece
}

/// The suffix of `s` after the last occurrence of `c`; all of `s` when `c`
/// does not occur.
pub open spec fn after_last(s: Seq<char>, c: char) -> Seq<char>
    decreases s.len(),
{
    if s.len() == 0 {
        s
    } else if s.last() == c {
        Seq::<char>::empty()
    } else {
        after_last(s.drop_last(), c).push(s.last())
    }
}

/// The index of the last occurrence of `c` in `s`, or -1 when it does not
/// occur.
pub open spec fn last_index_of(s: Seq<char>, c: char) -> int
    decreases s.len(),
{
    if s.len() == 0 {
        -1
    } else if s.last() == c {
        s.len() - 1
    } else {
        last_index_of(s.drop_last(), c)
    }
}

proof fn lemma_after_last_is_suffix(s: Seq<char>, c: char)
    ensures
        -1 <= last_index_of(s, c) < s.len(),
        after_last(s, c) =~= s.subrange(last_index_of(s, c) + 1, s.len() as int),
        forall|j: int| last_index_of(s, c) < j < s.len() ==> s[j] != c,
        last_index_of(s, c) >= 0 ==> s[last_index_of(s, c)] == c,
    decreases s.len(),
{
    if s.len() > 0 && s.last() != c {
        lemma_after_last_is_suffix(s.drop_last(), c);
        assert(s.drop_last() =~= s.subrange(0, s.len() - 1));
        let li = last_index_of(s.drop_last(), c);
        assert(s.drop_last().subrange(li + 1, s.len() - 1) =~= s.subrange(li + 1, s.len() - 1));
        assert forall|j: int| li < j < s.len() implies s[j] != c by {
            if j < s.len() - 1 {
                assert(s.drop_last()[j] == s[j]);
            }
        }
    }
}

/// The stem of the file name at the end of `path`: the part of the last
/// `/`-separated component before its final `.`, where a dot in first
/// position does not count as an extension separator.
pub open spec fn stem_of(path: Seq<char>) -> Seq<char> {
    let name = after_last(path, '/');
    let d = last_index_of(name, '.');
    if d <= 0 {
        name
    } else {
        name.subrange(0, d)
    }
}

/// The file name at the end of `path` carries the note-file extension:
/// a final component whose last dot is followed by exactly `md` or `MD`
/// in any letter case, with something before the dot.
pub open spec fn is_md_extension(path: Seq<char>) -> bool {
    let comp = after_last(path, '/');
    let d = last_index_of(comp, '.');
    &&& d > 0
    &&& comp.len() == d + 3
    &&& (comp[d + 1] == 'm' || comp[d + 1] == 'M')
    &&& (comp[d + 2] == 'd' || comp[d + 2] == 'D')
}

/// Whether the file name at the end of `path` ends in the note-file
/// extension `.md`, compared without regard to letter case.
pub fn has_md_extension(path: &str) -> (r: bool)
    ensures
        r == is_md_extension(path@),
{
    let cs = chars_of(path);
    let n = cs.len();
    let mut comp_start: usize = n;
    while comp_start > 0 && cs[comp_start - 1] != '/'
        invariant
            cs@ == path@,
            comp_start <= n,
            n == cs@.len(),
            forall|j: int| comp_start <= j < n ==> cs@[j] != '/',
        decreases comp_start,
    {
        comp_start = comp_start - 1;
    }
    proof {
        lemma_after_last_is_suffix(path@, '/');
        let li = last_index_of(path@, '/');
        if comp_start > 0 {
            assert(li == comp_start - 1) by {
                if li > comp_start - 1 {
                    assert(path@[li] == '/');
                }
            }
        } else {
            assert(li == -1);
        }
        assert(after_last(path@, '/') =~= path@.subrange(comp_start as int, n as int));
    }
    let ghost comp = after_last(path@, '/');
    let mut dot: usize = n;
    while dot > comp_start && cs[dot - 1] != '.'
        invariant
            cs@ == path@,
            comp_start <= dot <= n,
            n == cs@.len(),
            forall|j: int| dot <= j < n ==> cs@[j] != '.',
        decreases dot,
    {
        dot = dot - 1;
    }
    proof {
        lemma_after_last_is_suffix(comp, '.');
        let d = last_index_of(comp, '.');
        assert(comp.len() == n - comp_start);
        if dot > comp_start {
            assert(path@[dot - 1] == '.');
            assert(comp[dot - 1 - comp_start] == '.');
            assert(d == dot - 1 - comp_start) by {
                if d > dot - 1 - comp_start {
                    assert(comp[d] == path@[d + comp_start]);
                    assert(comp[d] == '.');
                } else if d < dot - 1 - comp_start {
                    assert(comp[dot - 1 - comp_start] != '.');
                }
            }
        } else {
            assert(d == -1) by {
                if d >= 0 {
                    assert(comp[d] == path@[d + comp_start]);
                    assert(comp[d] == '.');
                }
            }
        }
    }
    if dot > comp_start && dot - 1 > comp_start && n - dot == 2 {
        proof {
            assert(comp[dot - comp_start] == path@[dot as int]);
            assert(comp[dot + 1 - comp_start] == path@[dot + 1]);
        }
        let c1 = cs[dot];
        let c2 = cs[dot + 1];
        (c1 == 'm' || c1 == 'M') && (c2 == 'd' || c2 == 'D')
    } else {
        false
    }
}

/// The note id that a note file at `path` gets: the file name without its
/// directory part and without its extension.
pub fn get_id_from_path(path: &str) -> (r: String)
    ensures
        r@ == stem_of(path@),
{
    let cs = chars_of(path);
    let n = cs.len();
    // Find the character position just after the last '/'.
    let mut comp_start: usize = n;
    while comp_start > 0 && cs[comp_start - 1] != '/'
        invariant
            cs@ == path@,
            comp_start <= n,
            n == cs@.len(),
            forall|j: int| comp_start <= j < n ==> cs@[j] != '/',
        decreases comp_start,
    {
        comp_start = comp_start - 1;
    }
    proof {
        lemma_after_last_is_suffix(path@, '/');
        let li = last_index_of(path@, '/');
        if comp_start > 0 {
            assert(path@[comp_start - 1] == '/');
            assert(li == comp_start - 1) by {
                if li > comp_start - 1 {
                    assert(path@[li] == '/');
                }
            }
        } else {
            assert(li == -1);
        }
        assert(after_last(path@, '/') =~= path@.subrange(comp_start as int, n as int));
    }
    let ghost name = after_last(path@, '/');
    // Find the last '.' strictly inside the component.
    let mut dot: usize = n;
    while dot > comp_start && cs[dot - 1] != '.'
        invariant
            cs@ == path@,
            comp_start <= dot <= n,
            n == cs@.len(),
            forall|j: int| dot <= j < n ==> cs@[j] != '.',
        decreases dot,
    {
        dot = dot - 1;
    }
    proof {
        lemma_after_last_is_suffix(name, '.');
        let d = last_index_of(name, '.');
        assert(name.len() == n - comp_start);
        if dot > comp_start {
            assert(path@[dot - 1] == '.');
            assert(name[dot - 1 - comp_start] == '.');
            assert(d == dot - 1 - comp_start) by {
                if d > dot - 1 - comp_start {
                    assert(name[d] == path@[d + comp_start]);
                    assert(name[d] == '.');
                } else if d < dot - 1 - comp_start {
                    assert(name[dot - 1 - comp_start] != '.');
                }
            }
        } else {
            assert(d == -1) by {
                if d >= 0 {
                    assert(name[d] == path@[d + comp_start]);
                    assert(name[d] == '.');
                }
            }
        }
    }
    let stem_end: usize = if dot > comp_start && dot - 1 > comp_start {
        dot - 1
    } else {
        n
    };
    proof {
        let d = last_index_of(name, '.');
        if dot > comp_start && dot - 1 > comp_start {
            assert(d == dot - 1 - comp_start);
            assert(d > 0);
            assert(stem_of(path@) =~= name.subrange(0, d));
            assert(name.subrange(0, d) =~= path@.subrange(comp_start as int, stem_end as int));
        } else {
            assert(d <= 0);
            assert(stem_of(path@) == name);
            assert(name =~= path@.subrange(comp_start as int, stem_end as int));
        }
    }
    string_from_chars(&cs.as_slice()[comp_start..stem_end])
}

} // verus!
