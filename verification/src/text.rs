//! Decoding stored bytes as UTF-8 text.
use vstd::prelude::*;
use vstd::utf8::{decode_utf8, valid_utf8};

verus! {

/// The text that `bytes` encode in UTF-8, or `None` where they are not
/// valid UTF-8.
pub open spec fn utf8_text(bytes: Seq<u8>) -> Option<Seq<char>> {
    if valid_utf8(bytes) {
        Some(decode_utf8(bytes))
    } else {
        None
    }
}

/// Calls `String::from_utf8`. Its documentation states that it returns the
/// string whose UTF-8 encoding is `bytes` when they are valid UTF-8, and an
/// error otherwise; the contract claims exactly that, with validity and
/// decoding as vstd's `valid_utf8` and `decode_utf8` define them.
#[verifier::external_body]
pub fn string_from_utf8(bytes: Vec<u8>) -> (r: Option<String>)
    ensures
        match r {
            Some(s) => utf8_text(bytes@) == Some(s@),
            None => utf8_text(bytes@) is None,
        },
{
    String::from_utf8(bytes).ok()
}

} // verus!
