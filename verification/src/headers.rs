//! Validation of header rewrite rules.
//!
//! Whether a header name or value is well formed is decided by the `http`
//! crate, the same authority the proxy's request path uses; the grammars it
//! enforces are stated here exactly.

use vstd::prelude::*;

verus! {

use std::str::FromStr;
use crate::pairs_model;

/// A header name token character: the bytes `http`'s `HEADER_CHARS` table
/// accepts.
pub open spec fn header_name_char_ok(c: char) -> bool {
    ('a' <= c && c <= 'z') || ('A' <= c && c <= 'Z') || ('0' <= c && c <= '9') || c == '!' || c
        == '#' || c == '$' || c == '%' || c == '&' || c == '\'' || c == '*' || c == '+' || c == '-'
        || c == '.' || c == '^' || c == '_' || c == '`' || c == '|' || c == '~'
}

/// A well-formed header name: one to 65535 token characters.
pub open spec fn header_name_ok(s: Seq<char>) -> bool {
    1 <= s.len() <= 65535 && (forall|i: int| 0 <= i < s.len() ==> header_name_char_ok(#[trigger] s[i]))
}

/// A well-formed header value character: anything outside the control range,
/// with tab allowed.
pub open spec fn header_value_char_ok(c: char) -> bool {
    (c as int >= 32 && c as int != 127) || c == '\t'
}

/// A well-formed header value.
pub open spec fn header_value_ok(s: Seq<char>) -> bool {
    forall|i: int| 0 <= i < s.len() ==> header_value_char_ok(#[trigger] s[i])
}

/// Relies on `http::header::HeaderName::from_str` (http 1.5.0): it accepts
/// exactly the non-empty strings of at most 65535 bytes whose bytes all lie
/// in its `HEADER_CHARS` token table. Over a `&str` those are exactly the
/// strings of token characters: a non-ASCII character contributes a byte of
/// 128 or more, which the table rejects, and for all-ASCII strings byte and
/// character counts coincide.
#[verifier::external_body]
pub(crate) fn check_header_name(s: &String) -> (r: bool)
    ensures
        r == header_name_ok(s@),
{
    http::header::HeaderName::from_str(s.as_str()).is_ok()
}

/// Relies on `http::header::HeaderValue::from_str` (http 1.5.0): it accepts
/// exactly the strings whose bytes are all at least 32 and not 127, or tab.
/// Over a `&str` those are exactly the strings of characters outside the
/// control range, since every byte of a non-ASCII character's encoding is at
/// least 128.
#[verifier::external_body]
pub(crate) fn check_header_value(s: &String) -> (r: bool)
    ensures
        r == header_value_ok(s@),
{
    http::header::HeaderValue::from_str(s.as_str()).is_ok()
}

/// Every add-rule in the list carries a well-formed name and value.
pub open spec fn header_rules_ok(h: Seq<(Seq<char>, Seq<char>)>) -> bool {
    forall|i: int|
        0 <= i < h.len() ==> header_name_ok((#[trigger] h[i]).0) && header_value_ok(h[i].1)
}

/// Checks a list of header add-rules; a single malformed name or value
/// rejects the whole list, since header rules cannot be partially valid.
pub fn check_header_rules(h: &Vec<(String, String)>) -> (r: bool)
    ensures
        r == header_rules_ok(pairs_model(h@)),
{
    let ghost m = pairs_model(h@);
    let mut i: usize = 0;
    while i < h.len()
        invariant
            i <= h.len(),
            m == pairs_model(h@),
            forall|k: int|
                0 <= k < i ==> header_name_ok((#[trigger] m[k]).0) && header_value_ok(m[k].1),
        decreases h.len() - i,
    {
        let ok = check_header_name(&h[i].0) && check_header_value(&h[i].1);
        if !ok {
            proof {
                assert(m[i as int] == (h@[i as int].0@, h@[i as int].1@));
            }
            return false;
        }
        i += 1;
    }
    true
}

} // verus!
