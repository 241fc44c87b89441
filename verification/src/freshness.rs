use vstd::prelude::*;

use crate::settings::{expanded_tilde, Settings};
use crate::text::chars_of;

verus! {

/// Number of seconds after which the index is considered stale.
pub const STALENESS_WINDOW_SECS: u64 = 300;

/// A decimal digit.
pub open spec fn is_digit(c: char) -> bool {
    48 <= (c as u32) <= 57
}

/// The numeric value of `c` as a digit; zero for other characters.
pub open spec fn digit_of(c: char) -> int {
    if is_digit(c) {
        (c as u32) - 48
    } else {
        0
    }
}

/// `s` is a non-empty string of decimal digits.
pub open spec fn all_digits(s: Seq<char>) -> bool {
    s.len() > 0 && forall|i: int| 0 <= i < s.len() ==> is_digit(#[trigger] s[i])
}

/// The number the digits of `s` spell in base ten.
pub open spec fn digits_val(s: Seq<char>) -> int
    decreases s.len(),
{
    if s.len() == 0 {
        0
    } else {
        digits_val(s.drop_last()) * 10 + digit_of(s.last())
    }
}

proof fn lemma_digits_val_nonneg(s: Seq<char>)
    ensures
        digits_val(s) >= 0,
    decreases s.len(),
{
    if s.len() > 0 {
        lemma_digits_val_nonneg(s.drop_last());
    }
}

proof fn lemma_digits_val_prefix(s: Seq<char>, j: int)
    requires
        0 <= j <= s.len(),
    ensures
        digits_val(s.take(j)) <= digits_val(s),
    decreases s.len() - j,
{
    if j < s.len() {
        lemma_digits_val_prefix(s, j + 1);
        assert(s.take(j + 1).drop_last() =~= s.take(j));
        assert(s.take(j + 1).last() == s[j]);
        lemma_digits_val_nonneg(s.take(j));
    } else {
        assert(s.take(j) =~= s);
    }
}

/// The number a non-empty string of decimal digits spells, when it fits
/// in 64 bits; `None` for any other string.
pub fn parse_u64(s: &str) -> (r: Option<u64>)
    ensures
        r is Some <==> (all_digits(s@) && digits_val(s@) <= u64::MAX),
        r matches Some(v) ==> v == digits_val(s@),
{
    let cs = chars_of(s);
    if cs.len() == 0 {
        return None;
    }
    let mut value: u64 = 0;
    let mut i: usize = 0;
    while i < cs.len()
        invariant
            cs@ == s@,
            0 < cs@.len(),
            i <= cs@.len(),
            value == digits_val(s@.take(i as int)),
            forall|j: int| 0 <= j < i ==> is_digit(#[trigger] s@[j]),
        decreases cs@.len() - i,
    {
        let c = cs[i];
        let u = c as u32;
        proof {
            assert(s@.take(i + 1).drop_last() =~= s@.take(i as int));
            assert(s@.take(i + 1).last() == s@[i as int]);
        }
        if !(48 <= u && u <= 57) {
            proof {
                assert(!all_digits(s@));
            }
            return None;
        }
        let d: u64 = (u - 48) as u64;
        let scaled = match value.checked_mul(10) {
            Some(v) => v,
            None => {
                proof {
                    lemma_digits_val_prefix(s@, i + 1);
                }
                return None;
            },
        };
        let next = match scaled.checked_add(d) {
            Some(v) => v,
            None => {
                proof {
                    lemma_digits_val_prefix(s@, i + 1);
                }
                return None;
            },
        };
        value = next;
        i = i + 1;
    }
    proof {
        assert(s@.take(s@.len() as int) =~= s@);
    }
    Some(value)
}

/// Whether the index is stale: there is no readable freshness marker, or
/// the marker — a decimal epoch-seconds timestamp, an unreadable one
/// counting as zero — lies more than the staleness window before `now`.
pub open spec fn stale_spec(now: u64, marker: Option<Seq<char>>) -> bool {
    match marker {
        None => true,
        Some(m) => {
            let v = if all_digits(m) && digits_val(m) <= u64::MAX {
                digits_val(m)
            } else {
                0
            };
            (now as int) > v + STALENESS_WINDOW_SECS
        },
    }
}

/// Whether a rebuild is due at time `now`, given the freshness marker's
/// text (`None` when no marker file exists).
pub fn index_needs_update(now: u64, marker: Option<&str>) -> (r: bool)
    ensures
        r == stale_spec(now, marker.deep_view()),
{
    match marker {
        None => true,
        Some(m) => {
            let v = match parse_u64(m) {
                Some(v) => v,
                None => 0,
            };
            now > v && now - v > STALENESS_WINDOW_SECS
        },
    }
}

/// Where the freshness marker lives: a fixed file name inside the index
/// cache directory.
pub fn get_metadata_path(settings: &Settings) -> (r: String)
    ensures
        exists|h: Option<Seq<char>>|
            r@ == expanded_tilde(settings.cache_dir@, h) + "/index_metadata.txt"@,
{
    let mut r = settings.get_cache_path();
    r.append("/index_metadata.txt");
    r
}

} // verus!
