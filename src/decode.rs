//! The player's name as it comes in a path segment, percent-encoded.

use vstd::prelude::*;

verus! {

/// The text that percent-decoding `raw` gives, or `None` where the decoded
/// bytes are not UTF-8.
pub uninterp spec fn percent_decoded_utf8(raw: Seq<char>) -> Option<Seq<char>>;

/// Whether `s` holds no `%`, so that percent-decoding leaves it as it is.
pub open spec fn has_no_escape(s: Seq<char>) -> bool {
    forall|i: int| 0 <= i < s.len() ==> s[i] != '%'
}

/// Relies on `percent_encoding::percent_decode` and
/// `PercentDecode::decode_utf8`: the result depends on the text alone, and a
/// byte other than `%` passes through unchanged, so text without `%` comes
/// back as it went in.
#[verifier::external_body]
fn percent_decode_utf8(raw: &str) -> (r: Option<String>)
    ensures
        r is Some <==> percent_decoded_utf8(raw@) is Some,
        r matches Some(s) ==> percent_decoded_utf8(raw@) == Some(s@),
        r is Some || !has_no_escape(raw@),
        r matches Some(s) ==> (has_no_escape(raw@) ==> s@ == raw@),
{
    match percent_encoding::percent_decode(raw.as_bytes()).decode_utf8() {
        Ok(s) => Some(s.into_owned()),
        Err(_) => None,
    }
}

/// Decodes the name segment of a buzzer's path. `None` means the connection
/// is to be refused before any room is touched.
pub fn decode_player_name(raw: &str) -> (r: Option<String>)
    ensures
        r is Some <==> percent_decoded_utf8(raw@) is Some,
        r matches Some(s) ==> percent_decoded_utf8(raw@) == Some(s@),
        has_no_escape(raw@) ==> (r matches Some(s) && s@ == raw@),
{
    percent_decode_utf8(raw)
}

} // verus!
