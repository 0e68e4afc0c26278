use vstd::prelude::*;

verus! {

/// The text that lossy UTF-8 decoding makes of a byte sequence: valid
/// sequences become their characters, each invalid one U+FFFD.
pub uninterp spec fn lossy_text(b: Seq<u8>) -> Seq<char>;

/// Relies on `String::from_utf8_lossy`: the text depends on the bytes
/// alone, and each valid character or invalid sequence of them gives at
/// least one character, so bytes give text.
#[verifier::external_body]
pub(crate) fn text_from_bytes(b: &[u8]) -> (r: String)
    ensures
        r@ == lossy_text(b@),
        b@.len() > 0 ==> r@.len() > 0,
{
    String::from_utf8_lossy(b).into_owned()
}

} // verus!
