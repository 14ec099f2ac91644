//! Bytes and the texts that stand for them.

use vstd::prelude::*;
use vstd::utf8::{decode_utf8, valid_utf8};

verus! {

/// What the standard base-64 decoder of `base64` makes of a text: bytes, or an
/// error message.
pub uninterp spec fn decoded_base64(text: Seq<char>) -> Result<Seq<u8>, Seq<char>>;

/// The `decode` method of `base64::engine::general_purpose::STANDARD`, with the
/// error as its message. The result depends on the text alone.
#[verifier::external_body]
pub(crate) fn decode_base64(text: &str) -> (r: Result<Vec<u8>, String>)
    ensures
        match r {
            Ok(bytes) => decoded_base64(text@) == Ok::<Seq<u8>, Seq<char>>(bytes@),
            Err(message) => decoded_base64(text@) == Err::<Seq<u8>, Seq<char>>(message@),
        },
{
    base64::Engine::decode(&base64::engine::general_purpose::STANDARD, text)
        .map_err(|e| e.to_string())
}

/// `String::from_utf8`: the text that bytes encode, if they are UTF-8.
#[verifier::external_body]
pub(crate) fn utf8_text(bytes: Vec<u8>) -> (r: Option<String>)
    ensures
        match r {
            Some(s) => valid_utf8(bytes@) && s@ == decode_utf8(bytes@),
            None => !valid_utf8(bytes@),
        },
{
    String::from_utf8(bytes).ok()
}

/// The bytes as text, as `String::from_utf8_lossy` gives it.
pub uninterp spec fn lossy_text(bytes: Seq<u8>) -> Seq<char>;

/// `String::from_utf8_lossy`, which gives the text that the bytes encode where
/// they are UTF-8, and otherwise a text that depends on the bytes alone, with
/// replacement characters for what is not.
#[verifier::external_body]
pub(crate) fn lossy(bytes: &[u8]) -> (r: String)
    ensures
        r@ == lossy_text(bytes@),
        valid_utf8(bytes@) ==> r@ == decode_utf8(bytes@),
{
    String::from_utf8_lossy(bytes).into_owned()
}

/// What was made of a text in base 64, by its model.
pub open spec fn decoded_view(decoded: Result<Vec<u8>, String>) -> Result<Seq<u8>, Seq<char>> {
    match decoded {
        Ok(bytes) => Ok(bytes@),
        Err(message) => Err(message@),
    }
}

} // verus!
