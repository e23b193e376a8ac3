//! The header that carries a bearer token.

use reqwest::header::{HeaderValue, InvalidHeaderValue};
use vstd::prelude::*;

use crate::secret::Secret;
use crate::text;

verus! {

/// `reqwest::header::HeaderValue`: the value of a header.
#[verifier::external_type_specification]
#[verifier::external_body]
pub struct ExHeaderValue(HeaderValue);

/// `reqwest::header::InvalidHeaderValue`: that a text is no value of a header.
#[verifier::external_type_specification]
#[verifier::external_body]
pub struct ExInvalidHeaderValue(InvalidHeaderValue);

/// The text that a header holds.
pub uninterp spec fn header_text(h: HeaderValue) -> Seq<char>;

/// A header may hold tabs and everything but control characters.
pub open spec fn is_header_char(c: char) -> bool {
    c == '\t' || (c as u32 >= 32 && c as u32 != 127)
}

/// A header may hold the text.
pub open spec fn is_header_text(s: Seq<char>) -> bool {
    forall|i: int| 0 <= i < s.len() ==> is_header_char(#[trigger] s[i])
}

/// `reqwest::header::HeaderValue::from_str`: fails on a byte below 32, other than the tab, and
/// on 127. Every other byte is taken, those of characters beyond ASCII among them, and the
/// header then holds the text as it is.
#[verifier::external_body]
fn header_from_str(s: &str) -> (r: Result<HeaderValue, InvalidHeaderValue>)
    ensures
        r is Ok == is_header_text(s@),
        r matches Ok(h) ==> header_text(h) == s@,
{
    HeaderValue::from_str(s)
}

/// The header for the token, unless the token holds what no header may hold.
pub fn bearer_header(token: &Secret) -> (r: Option<HeaderValue>)
    ensures
        r is Some == is_header_text(token@),
        r matches Some(h) ==> header_text(h) == "Bearer "@ + token@,
{
    let value: String = text::joined2("Bearer ", token.secret());
    proof {
        reveal_strlit("Bearer ");
        let all = "Bearer "@ + token@;
        if is_header_text(all) {
            assert forall|i: int| 0 <= i < token@.len() implies is_header_char(
                #[trigger] token@[i],
            ) by {
                assert(all[i + 7] == token@[i]);
            }
        }
        if is_header_text(token@) {
            assert forall|i: int| 0 <= i < all.len() implies is_header_char(#[trigger] all[i]) by {
                if i >= 7 {
                    assert(all[i] == token@[i - 7]);
                }
            }
        }
    }
    match header_from_str(value.as_str()) {
        Ok(header) => Some(header),
        Err(_) => None,
    }
}

} // verus!
