//! From recovered bytes to the message text: lossy UTF-8 decoding and
//! trimming, both left to the standard library.

use vstd::prelude::*;
use vstd::utf8::{decode_utf8, valid_utf8};

verus! {

/// The text that `String::from_utf8_lossy` makes of bytes that are not valid
/// UTF-8, in which U+FFFD stands for each invalid sequence.
pub uninterp spec fn lossy_replacement(bytes: Seq<u8>) -> Seq<char>;

/// The text without the white space at its start and at its end, as
/// `str::trim` returns it.
pub uninterp spec fn trimmed(text: Seq<char>) -> Seq<char>;

/// The text that bytes stand for: the text they encode where they are valid
/// UTF-8, and the text with replacement characters otherwise.
pub open spec fn lossy_text(bytes: Seq<u8>) -> Seq<char> {
    if valid_utf8(bytes) {
        decode_utf8(bytes)
    } else {
        lossy_replacement(bytes)
    }
}

/// `String::from_utf8_lossy`: valid UTF-8 comes back as the string that it
/// encodes; of other bytes only the name of the result is stated.
#[verifier::external_body]
pub(crate) fn string_from_utf8_lossy(bytes: &[u8]) -> (text: String)
    ensures
        valid_utf8(bytes@) ==> text@ == decode_utf8(bytes@),
        !valid_utf8(bytes@) ==> text@ == lossy_replacement(bytes@),
{
    String::from_utf8_lossy(bytes).into_owned()
}

/// `str::trim`: the slice without leading and trailing white space; only the
/// name of the result is stated.
#[verifier::external_body]
pub(crate) fn str_trim(text: &str) -> (inner: &str)
    ensures
        inner@ == trimmed(text@),
{
    text.trim()
}

} // verus!
