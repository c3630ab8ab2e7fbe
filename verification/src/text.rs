//! Turning byte ranges into displayable text.
use vstd::prelude::*;

verus! {

/// The characters of `String::from_utf8_lossy(bytes)`: the bytes decoded as UTF-8, each
/// invalid sequence replaced by U+FFFD.
pub uninterp spec fn utf8_lossy(bytes: Seq<u8>) -> Seq<char>;

/// `String::from_utf8_lossy(bytes).into_owned()`: the bytes as text, invalid UTF-8
/// sequences replaced by U+FFFD. The result depends on the bytes alone; its characters
/// are given the name [`utf8_lossy`]. As std documents, valid UTF-8 comes back as the
/// text it encodes, so ASCII bytes come back as their characters; how invalid
/// sequences are replaced is not described here.
#[verifier::external_body]
pub(crate) fn lossy_string(bytes: &[u8]) -> (r: String)
    ensures
        r@ == utf8_lossy(bytes@),
        vstd::utf8::valid_utf8(bytes@) ==> r@ == vstd::utf8::decode_utf8(bytes@),
        (forall|k: int| 0 <= k < bytes@.len() ==> #[trigger] bytes@[k] < 128) ==> r@ == bytes@.map_values(
            |b: u8| b as char,
        ),
{
    String::from_utf8_lossy(bytes).into_owned()
}

} // verus!
