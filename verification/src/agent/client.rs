//! The text side of the agent's HTTP client: a raw response is split into
//! its body.

use crate::text::{str_eq, trim, trim_text};
use vstd::prelude::*;

verus! {

/// Index of the first occurrence of the non-empty `pat` in `s`.
pub open spec fn first_index(s: Seq<char>, pat: Seq<char>) -> Option<int>
    decreases s.len(),
{
    if pat.len() == 0 || s.len() < pat.len() {
        None
    } else if s.subrange(0, pat.len() as int) == pat {
        Some(0)
    } else {
        match first_index(s.drop_first(), pat) {
            Some(i) => Some(i + 1),
            None => None,
        }
    }
}

pub open spec fn shifted(o: Option<int>, by: int) -> Option<int> {
    match o {
        Some(i) => Some(i + by),
        None => None,
    }
}

/// The blank line that ends the status line and headers.
pub open spec fn header_end() -> Seq<char> {
    seq!['\r', '\n', '\r', '\n']
}

/// The body of a raw HTTP response: what follows the first blank line,
/// trimmed; the whole text, trimmed, when there is none.
pub open spec fn body_of(raw: Seq<char>) -> Seq<char> {
    match first_index(raw, header_end()) {
        Some(i) => trim(raw.skip(i + 4)),
        None => trim(raw),
    }
}

/// Where the first `pat` starts in `s`, if anywhere.
fn find_text(s: &str, pat: &str) -> (r: Option<usize>)
    requires
        pat@.len() > 0,
    ensures
        match r {
            Some(i) => first_index(s@, pat@) == Some(i as int),
            None => first_index(s@, pat@) is None,
        },
{
    let n = s.unicode_len();
    let m = pat.unicode_len();
    let mut i: usize = 0;
    proof {
        assert(s@.skip(0) =~= s@);
    }
    while i < n && n - i >= m
        invariant
            n == s@.len(),
            m == pat@.len(),
            m > 0,
            i <= n,
            first_index(s@, pat@) == shifted(first_index(s@.skip(i as int), pat@), i as int),
        decreases n - i,
    {
        let ghost rest = s@.skip(i as int);
        proof {
            assert(rest.subrange(0, m as int) =~= s@.subrange(i as int, i + m));
        }
        if str_eq(s.substring_char(i, i + m), pat) {
            return Some(i);
        }
        proof {
            assert(rest.drop_first() =~= s@.skip(i + 1));
        }
        i = i + 1;
    }
    None
}

/// The body of a raw HTTP response (see `body_of`).
pub fn split_body(raw: &str) -> (r: String)
    ensures
        r@ == body_of(raw@),
{
    let sep = "\r\n\r\n";
    proof {
        reveal_strlit("\r\n\r\n");
        assert(sep@ =~= header_end());
    }
    match find_text(raw, sep) {
        Some(i) => {
            let n = raw.unicode_len();
            proof {
                lemma_found_fits(raw@, header_end(), i as int);
            }
            let rest = raw.substring_char(i + 4, n);
            proof {
                assert(rest@ =~= raw@.skip(i + 4));
            }
            trim_text(rest)
        },
        None => trim_text(raw),
    }
}

/// A match found by `first_index` lies inside the text.
proof fn lemma_found_fits(s: Seq<char>, pat: Seq<char>, i: int)
    requires
        first_index(s, pat) == Some(i),
    ensures
        0 <= i,
        i + pat.len() <= s.len(),
    decreases s.len(),
{
    if pat.len() == 0 || s.len() < pat.len() {
    } else if s.subrange(0, pat.len() as int) == pat {
    } else {
        lemma_found_fits(s.drop_first(), pat, i - 1);
    }
}

} // verus!
