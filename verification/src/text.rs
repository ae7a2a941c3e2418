//! Byte-to-text conversion for decoded labels and TXT payloads.

use vstd::prelude::*;

verus! {

use vstd::utf8::decode_utf8;
use vstd::utf8::valid_utf8;

/// The character sequence that permissive UTF-8 decoding yields for `bytes`:
/// ill-formed sequences are substituted, never rejected.
pub uninterp spec fn utf8_lossy(bytes: Seq<u8>) -> Seq<char>;

/// True when `s` is the permissive decoding of `bytes`.  On valid UTF-8
/// input the permissive decoding agrees with `decode_utf8`, so `s` is then
/// pinned to the exact character sequence that the bytes encode.
pub open spec fn decodes_lossy(s: Seq<char>, bytes: Seq<u8>) -> bool {
    &&& s == utf8_lossy(bytes)
    &&& (valid_utf8(bytes) ==> s == decode_utf8(bytes))
}

/// Relies on String::from_utf8_lossy: the result depends on the bytes alone,
/// and input that is already valid UTF-8 comes back decoded unchanged.
#[verifier::external_body]
pub(crate) fn lossy_string(bytes: &Vec<u8>) -> (r: String)
    ensures
        r@ == utf8_lossy(bytes@),
        valid_utf8(bytes@) ==> r@ == decode_utf8(bytes@),
{
    String::from_utf8_lossy(bytes.as_slice()).into_owned()
}

} // verus!
