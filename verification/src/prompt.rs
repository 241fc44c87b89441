use vstd::prelude::*;

use crate::slug::slug_of;
use crate::slug::slugify;
use crate::text::{chars_of, is_whitespace_char, string_from_chars, white_of};

verus! {

/// One step of whitespace splitting: the tokens finished so far and the
/// token currently being read, after consuming one more character.
pub open spec fn split_step(
    state: (Seq<Seq<char>>, Seq<char>),
    c: char,
) -> (Seq<Seq<char>>, Seq<char>) {
    if white_of(c) {
        if state.1.len() > 0 {
            (state.0.push(state.1), Seq::<char>::empty())
        } else {
            state
        }
    } else {
        (state.0, state.1.push(c))
    }
}

/// The state of whitespace splitting after consuming all of `s`.
pub open spec fn split_fold(s: Seq<char>) -> (Seq<Seq<char>>, Seq<char>)
    decreases s.len(),
{
    if s.len() == 0 {
        (Seq::<Seq<char>>::empty(), Seq::<char>::empty())
    } else {
        split_step(split_fold(s.drop_last()), s.last())
    }
}

/// The whitespace-separated tokens of `s`, in order: its maximal runs of
/// non-whitespace characters.
pub open spec fn tokens_of(s: Seq<char>) -> Seq<Seq<char>> {
    let st = split_fold(s);
    if st.1.len() > 0 {
        st.0.push(st.1)
    } else {
        st.0
    }
}

/// A token that names a tag filter: it begins with the `#` marker.
pub open spec fn is_tag_token(t: Seq<char>) -> bool {
    t.len() > 0 && t[0] == '#'
}

/// `t` without its leading `#` markers.
pub open spec fn strip_marker(t: Seq<char>) -> Seq<char>
    decreases t.len(),
{
    if t.len() > 0 && t[0] == '#' {
        strip_marker(t.drop_first())
    } else {
        t
    }
}

/// A URL occurrence starting at position `i` of `s`: an `http://` or
/// `https://` scheme, one character that is not whitespace and none of
/// `/`, `$`, `.`, `?`, `#`, and at least one further character other than a
/// line break.
pub open spec fn url_match_at(s: Seq<char>, i: int) -> bool {
    ||| (scheme_at(s, i, false) && url_tail_at(s, i + 7))
    ||| (scheme_at(s, i, true) && url_tail_at(s, i + 8))
}

/// The characters of `http://` (or `https://` when `secure`) at position `i`.
pub open spec fn scheme_at(s: Seq<char>, i: int, secure: bool) -> bool {
    let n: int = if secure {
        8
    } else {
        7
    };
    &&& 0 <= i
    &&& i + n <= s.len()
    &&& s[i] == 'h'
    &&& s[i + 1] == 't'
    &&& s[i + 2] == 't'
    &&& s[i + 3] == 'p'
    &&& (if secure {
        s[i + 4] == 's' && s[i + 5] == ':' && s[i + 6] == '/' && s[i + 7] == '/'
    } else {
        s[i + 4] == ':' && s[i + 5] == '/' && s[i + 6] == '/'
    })
}

/// What may follow the scheme for a URL occurrence to count.
pub open spec fn url_tail_at(s: Seq<char>, k: int) -> bool {
    &&& k + 2 <= s.len()
    &&& !white_of(s[k])
    &&& s[k] != '/'
    &&& s[k] != '$'
    &&& s[k] != '.'
    &&& s[k] != '?'
    &&& s[k] != '#'
    &&& s[k + 1] != '\n'
}

/// Whether a URL occurs anywhere in `t`.
pub open spec fn has_url(t: Seq<char>) -> bool {
    exists|i: int| url_match_at(t, i)
}

/// The tag names among `toks`, in order, with their `#` markers removed.
pub open spec fn tag_values(toks: Seq<Seq<char>>) -> Seq<Seq<char>>
    decreases toks.len(),
{
    if toks.len() == 0 {
        Seq::<Seq<char>>::empty()
    } else {
        let p = tag_values(toks.drop_last());
        if is_tag_token(toks.last()) {
            p.push(strip_marker(toks.last()))
        } else {
            p
        }
    }
}

/// The last token of `toks` that holds a URL and is not a tag token.
pub open spec fn last_url(toks: Seq<Seq<char>>) -> Option<Seq<char>>
    decreases toks.len(),
{
    if toks.len() == 0 {
        Option::<Seq<char>>::None
    } else if !is_tag_token(toks.last()) && has_url(toks.last()) {
        Some(toks.last())
    } else {
        last_url(toks.drop_last())
    }
}

/// The tokens of `toks` that are neither tag tokens nor URL tokens.
pub open spec fn free_parts(toks: Seq<Seq<char>>) -> Seq<Seq<char>>
    decreases toks.len(),
{
    if toks.len() == 0 {
        Seq::<Seq<char>>::empty()
    } else {
        let p = free_parts(toks.drop_last());
        if !is_tag_token(toks.last()) && !has_url(toks.last()) {
            p.push(toks.last())
        } else {
            p
        }
    }
}

/// `parts` joined into one string with single spaces between them.
pub open spec fn join_spaces(parts: Seq<Seq<char>>) -> Seq<char>
    decreases parts.len(),
{
    if parts.len() == 0 {
        Seq::<char>::empty()
    } else if parts.len() == 1 {
        parts[0]
    } else {
        join_spaces(parts.drop_last()) + seq![' '] + parts.last()
    }
}

/// The whitespace-separated tokens of `s`.
pub fn tokenize(s: &str) -> (r: Vec<Vec<char>>)
    ensures
        r.deep_view() == tokens_of(s@),
{
    let cs = chars_of(s);
    let mut toks: Vec<Vec<char>> = Vec::new();
    let mut cur: Vec<char> = Vec::new();
    let mut i: usize = 0;
    while i < cs.len()
        invariant
            cs@ == s@,
            i <= cs@.len(),
            toks.deep_view() == split_fold(s@.take(i as int)).0,
            cur@ == split_fold(s@.take(i as int)).1,
        decreases cs@.len() - i,
    {
        let c = cs[i];
        proof {
            assert(s@.take(i + 1).drop_last() =~= s@.take(i as int));
            assert(s@.take(i + 1).last() == s@[i as int]);
        }
        if is_whitespace_char(c) {
            if cur.len() > 0 {
                toks.push(cur);
                cur = Vec::new();
            }
        } else {
            cur.push(c);
        }
        i = i + 1;
        proof {
            assert(toks.deep_view() =~~= split_fold(s@.take(i as int)).0);
        }
    }
    proof {
        assert(s@.take(s@.len() as int) =~= s@);
    }
    if cur.len() > 0 {
        toks.push(cur);
    }
    proof {
        assert(toks.deep_view() =~~= tokens_of(s@));
    }
    toks
}

/// Whether a URL occurs anywhere in the token `t`.
fn token_has_url(t: &[char]) -> (r: bool)
    ensures
        r == has_url(t@),
{
    let n = t.len();
    let mut i: usize = 0;
    while i < n
        invariant
            n == t@.len(),
            i <= n,
            forall|j: int| 0 <= j < i ==> !url_match_at(t@, j),
        decreases n - i,
    {
        if match_at(t, i) {
            return true;
        }
        i = i + 1;
    }
    proof {
        assert forall|j: int| !url_match_at(t@, j) by {
            if 0 <= j < n {
            } else {
                assert(!scheme_at(t@, j, false) && !scheme_at(t@, j, true));
            }
        }
    }
    false
}

/// Whether a URL occurrence starts at position `i` of `t`.
fn match_at(t: &[char], i: usize) -> (r: bool)
    requires
        i < t@.len(),
    ensures
        r == url_match_at(t@, i as int),
{
    let n = t.len();
    if n >= 7 && i <= n - 7 && t[i] == 'h' && t[i + 1] == 't' && t[i + 2] == 't' && t[i + 3] == 'p' {
        if t[i + 4] == ':' && t[i + 5] == '/' && t[i + 6] == '/' {
            if tail_at(t, i + 7) {
                return true;
            }
        }
        if n >= 8 && i <= n - 8 && t[i + 4] == 's' && t[i + 5] == ':' && t[i + 6] == '/' && t[i + 7] == '/' {
            return tail_at(t, i + 8);
        }
        proof {
            assert(!scheme_at(t@, i as int, true));
        }
        false
    } else {
        proof {
            assert(!scheme_at(t@, i as int, false) && !scheme_at(t@, i as int, true));
        }
        false
    }
}

/// Whether a valid URL tail starts at position `k` of `t`.
fn tail_at(t: &[char], k: usize) -> (r: bool)
    ensures
        r == url_tail_at(t@, k as int),
{
    let n = t.len();
    if n < 2 || k > n - 2 {
        return false;
    }
    let c = t[k];
    if is_whitespace_char(c) {
        return false;
    }
    c != '/' && c != '$' && c != '.' && c != '?' && c != '#' && t[k + 1] != '\n'
}

/// A raw query split into structured intent: the free-text portion, the
/// requested tag filters, and a captured URL token, if any.
pub struct ParsedQuery {
    pub original_query: String,
    pub query: String,
    pub tags: Vec<String>,
    pub url: Option<String>,
}

impl ParsedQuery {
    /// Splits `query` on whitespace; tokens starting with `#` become tag
    /// filters, a token holding a URL is captured separately (the last one
    /// wins), and the remaining tokens joined by single spaces form the
    /// free-text query.
    pub fn from_query(query: &str) -> (r: ParsedQuery)
        ensures
            r.original_query@ == query@,
            r.query@ == join_spaces(free_parts(tokens_of(query@))),
            r.tags.deep_view() == tag_values(tokens_of(query@)),
            r.url.deep_view() == last_url(tokens_of(query@)),
    {
        let toks = tokenize(query);
        let ghost all = tokens_of(query@);
        let mut tags: Vec<String> = Vec::new();
        let mut url: Option<String> = None;
        let mut free: Vec<char> = Vec::new();
        let mut any_free = false;
        let mut i: usize = 0;
        while i < toks.len()
            invariant
                toks.deep_view() == all,
                i <= toks@.len(),
                tags.deep_view() == tag_values(all.take(i as int)),
                url.deep_view() == last_url(all.take(i as int)),
                free@ == join_spaces(free_parts(all.take(i as int))),
                any_free == (free_parts(all.take(i as int)).len() > 0),
            decreases toks@.len() - i,
        {
            let t = &toks[i];
            proof {
                assert(all.take(i + 1).drop_last() =~= all.take(i as int));
                assert(all.take(i + 1).last() == all[i as int]);
                assert(t.deep_view() == all[i as int]);
                assert(t@ =~= t.deep_view());
                assert(t@ == all[i as int]);
            }
            if t.len() > 0 && t[0] == '#' {
                proof {
                    assert(t@.subrange(0, t@.len() as int) =~= t@);
                }
                let mut start: usize = 0;
                while start < t.len() && t[start] == '#'
                    invariant
                        t.deep_view() == all[i as int],
                        start <= t@.len(),
                        strip_marker(t@) == strip_marker(
                            t@.subrange(start as int, t@.len() as int),
                        ),
                    decreases t@.len() - start,
                {
                    proof {
                        let sub = t@.subrange(start as int, t@.len() as int);
                        assert(sub[0] == t@[start as int]);
                        assert(sub.drop_first() =~= t@.subrange(start + 1, t@.len() as int));
                    }
                    start = start + 1;
                }
                proof {
                    let sub = t@.subrange(start as int, t@.len() as int);
                    if start < t@.len() {
                        assert(sub[0] == t@[start as int]);
                    }
                    assert(strip_marker(sub) == sub);
                }
                tags.push(string_from_chars(&t.as_slice()[start..t.len()]));
                proof {
                    assert(tags.deep_view() =~~= tag_values(all.take(i + 1)));
                }
            } else if token_has_url(t.as_slice()) {
                url = Some(string_from_chars(t.as_slice()));
            } else {
                if any_free {
                    free.push(' ');
                    proof {
                        assert(free@ =~= join_spaces(free_parts(all.take(i as int))) + seq![' ']);
                    }
                }
                let mut k: usize = 0;
                while k < t.len()
                    invariant
                        t.deep_view() == all[i as int],
                        k <= t@.len(),
                        free@ == (if any_free {
                            join_spaces(free_parts(all.take(i as int))) + seq![' ']
                        } else {
                            Seq::<char>::empty()
                        }) + all[i as int].take(k as int),
                    decreases t@.len() - k,
                {
                    free.push(t[k]);
                    k = k + 1;
                    proof {
                        assert(all[i as int].take(k as int) =~= all[i as int].take(k - 1).push(
                            all[i as int][k - 1],
                        ));
                    }
                }
                proof {
                    let parts = free_parts(all.take(i + 1));
                    assert(parts.drop_last() =~= free_parts(all.take(i as int)));
                    assert(all[i as int].take(t@.len() as int) =~= all[i as int]);
                    if any_free {
                        assert(parts.len() >= 2);
                        assert(free@ =~= join_spaces(parts));
                    } else {
                        assert(parts.len() == 1);
                        assert(free@ =~= join_spaces(parts));
                    }
                }
                any_free = true;
            }
            i = i + 1;
        }
        proof {
            assert(all.take(all.len() as int) =~= all);
        }
        let prompt = string_from_chars(free.as_slice());
        ParsedQuery { original_query: query.to_owned(), query: prompt, tags, url }
    }

    /// The slug derived from the free-text portion of the query.
    pub fn get_slug(&self) -> (r: String)
        ensures
            r@ == slug_of(self.query@),
    {
        slugify(self.query.as_str())
    }
}

} // verus!
