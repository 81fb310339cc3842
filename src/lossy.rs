//! Lossy UTF-8 decoding of a line's bytes.

use vstd::prelude::*;
use vstd::utf8::{encode_utf8, valid_utf8};

verus! {

/// The text that the standard library's lossy decoding makes of `b`: each
/// maximal malformed sequence becomes one U+FFFD.
pub uninterp spec fn lossy_utf8(b: Seq<u8>) -> Seq<char>;

/// Relies on `String::from_utf8_lossy`: valid UTF-8 comes back as the text
/// that it encodes, anything else with its malformed sequences replaced.
#[verifier::external_body]
fn from_utf8_lossy(b: &[u8]) -> (r: String)
    ensures
        r@ == lossy_utf8(b@),
        valid_utf8(b@) ==> encode_utf8(r@) == b@,
{
    String::from_utf8_lossy(b).into_owned()
}

/// Decodes the bytes of a line: valid UTF-8 as the text it encodes, other
/// bytes lossily.
pub fn decode_line(b: &[u8]) -> (r: String)
    ensures
        r@ == lossy_utf8(b@),
        valid_utf8(b@) ==> encode_utf8(r@) == b@,
{
    from_utf8_lossy(b)
}

} // verus!
