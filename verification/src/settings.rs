use vstd::prelude::*;

use crate::text::string_from_chars;

verus! {

/// The caller-supplied configuration the engine works against: where notes
/// and the index cache live, which paths are ignored, and how notes render.
#[derive(Debug)]
pub struct Settings {
    pub recurse: bool,
    pub cache_dir: String,
    pub notes_dir: String,
    pub ignore: Vec<String>,
    pub note_template: Option<String>,
}

/// Whether `pattern` compiles as a glob and matches `path`; `None` when the
/// pattern is invalid. Depends on the pattern and the path alone.
pub uninterp spec fn glob_verdict(pattern: Seq<char>, path: Seq<char>) -> Option<bool>;

/// Relies on globset's Glob::new, GlobSetBuilder::build and
/// GlobSet::is_match: whether the pattern compiles and matches the path.
/// Both compilation stages return their errors, so a pattern the crate
/// cannot compile — bad syntax, or past its internal size limits — yields
/// `None` rather than a panic.
#[verifier::external_body]
fn match_glob(pattern: &str, path: &str) -> (r: Option<bool>)
    ensures
        r == glob_verdict(pattern@, path@),
{
    match globset::Glob::new(pattern) {
        Ok(g) => {
            let mut builder = globset::GlobSetBuilder::new();
            builder.add(g);
            match builder.build() {
                Ok(set) => Some(set.is_match(path)),
                Err(_) => None,
            }
        },
        Err(_) => None,
    }
}

/// Relies on dirs::home_dir: the user's home directory, when the platform
/// reports one that is valid Unicode. Nothing is known of the result.
#[verifier::external_body]
fn home_directory() -> (r: Option<String>) {
    match dirs::home_dir() {
        Some(p) => p.to_str().map(|s| s.to_string()),
        None => None,
    }
}

/// `s` without its leading `/` characters.
pub open spec fn trim_leading_slashes(s: Seq<char>) -> Seq<char>
    decreases s.len(),
{
    if s.len() > 0 && s[0] == '/' {
        trim_leading_slashes(s.drop_first())
    } else {
        s
    }
}

/// `path` with a leading `~` replaced by the home directory, when one is
/// known; any further leading slashes after the `~` are dropped before the
/// two parts are joined.
pub open spec fn expanded_tilde(path: Seq<char>, home: Option<Seq<char>>) -> Seq<char> {
    if path.len() > 0 && path[0] == '~' && home is Some {
        home->0 + seq!['/'] + trim_leading_slashes(path.drop_first())
    } else {
        path
    }
}

/// `path` with a leading `~` expanded against the given home directory.
pub fn expand_tilde_with(path: &str, home: &Option<String>) -> (r: String)
    ensures
        r@ == expanded_tilde(path@, home.deep_view()),
{
    let cs = crate::text::chars_of(path);
    if cs.len() > 0 && cs[0] == '~' {
        if let Some(h) = home {
            let mut start: usize = 1;
            proof {
                assert(cs@.subrange(1, cs@.len() as int) =~= path@.drop_first());
            }
            while start < cs.len() && cs[start] == '/'
                invariant
                    cs@ == path@,
                    1 <= start <= cs@.len(),
                    trim_leading_slashes(path@.drop_first()) == trim_leading_slashes(
                        cs@.subrange(start as int, cs@.len() as int),
                    ),
                decreases cs@.len() - start,
            {
                proof {
                    let sub = cs@.subrange(start as int, cs@.len() as int);
                    assert(sub[0] == cs@[start as int]);
                    assert(sub.drop_first() =~= cs@.subrange(start + 1, cs@.len() as int));
                }
                start = start + 1;
            }
            proof {
                let sub = cs@.subrange(start as int, cs@.len() as int);
                if start < cs@.len() {
                    assert(sub[0] == cs@[start as int]);
                }
                assert(trim_leading_slashes(sub) == sub);
            }
            let mut r = h.clone();
            r.append("/");
            let rest = string_from_chars(&cs.as_slice()[start..cs.len()]);
            r.append(rest.as_str());
            proof {
                reveal_strlit("/");
                assert("/"@ =~= seq!['/']);
                assert(r@ =~= expanded_tilde(path@, home.deep_view()));
            }
            r
        } else {
            path.to_owned()
        }
    } else {
        path.to_owned()
    }
}

/// `path` with a leading `~` expanded against the platform's home
/// directory, whichever directory that turns out to be.
pub fn expand_tilde(path: &str) -> (r: String)
    ensures
        exists|h: Option<Seq<char>>| r@ == expanded_tilde(path@, h),
{
    let home = home_directory();
    let r = expand_tilde_with(path, &home);
    proof {
        assert(r@ == expanded_tilde(path@, home.deep_view()));
    }
    r
}

/// Whether some pattern of `patterns` compiles as a glob and matches `path`.
pub open spec fn path_ignored(patterns: Seq<Seq<char>>, path: Seq<char>) -> bool {
    exists|j: int|
        0 <= j < patterns.len() && glob_verdict(patterns[j], path) == Some(true)
}

impl Settings {
    /// The notes directory, with a leading `~` expanded.
    pub fn get_notes_path(&self) -> (r: String)
        ensures
            exists|h: Option<Seq<char>>| r@ == expanded_tilde(self.notes_dir@, h),
    {
        expand_tilde(self.notes_dir.as_str())
    }

    /// The index cache directory, with a leading `~` expanded.
    pub fn get_cache_path(&self) -> (r: String)
        ensures
            exists|h: Option<Seq<char>>| r@ == expanded_tilde(self.cache_dir@, h),
    {
        expand_tilde(self.cache_dir.as_str())
    }

    /// The note template path, if one is configured, with a leading `~`
    /// expanded.
    pub fn get_note_template_path(&self) -> (r: Option<String>)
        ensures
            r is Some <==> self.note_template is Some,
            r matches Some(p) ==> exists|h: Option<Seq<char>>|
                p@ == expanded_tilde(self.note_template->0@, h),
    {
        match &self.note_template {
            Some(dir) => Some(expand_tilde(dir.as_str())),
            None => None,
        }
    }

    /// Whether `path` matches one of the configured ignore patterns.
    /// A pattern that does not compile as a glob matches nothing.
    pub fn is_path_ignored(&self, path: &str) -> (r: bool)
        ensures
            r == path_ignored(self.ignore.deep_view(), path@),
    {
        let mut j: usize = 0;
        while j < self.ignore.len()
            invariant
                j <= self.ignore@.len(),
                forall|k: int|
                    0 <= k < j ==> glob_verdict(self.ignore.deep_view()[k], path@) != Some(true),
            decreases self.ignore@.len() - j,
        {
            proof {
                assert(self.ignore.deep_view()[j as int] == self.ignore@[j as int]@);
            }
            if match_glob(self.ignore[j].as_str(), path) == Some(true) {
                return true;
            }
            j = j + 1;
        }
        false
    }
}

} // verus!
