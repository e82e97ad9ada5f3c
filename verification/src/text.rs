//! Text: what UTF-8 and base64 make of bytes.

use vstd::prelude::*;
use vstd::utf8::*;

use crate::error::{invalid_utf8_text, Error};

verus! {

/// The reason that `String::from_utf8` gives, as it is displayed, for refusing bytes.
pub uninterp spec fn utf8_fault(bytes: Seq<u8>) -> Seq<char>;

/// What `base64::decode` makes of a text: the bytes that it stands for, or, as it is
/// displayed, the reason why it stands for none.
pub uninterp spec fn base64_decoded(text: Seq<char>) -> Result<Seq<u8>, Seq<char>>;

/// The text that `base64::encode` writes bytes as.
pub uninterp spec fn base64_encoded(bytes: Seq<u8>) -> Seq<char>;

/// Calls `String::from_utf8`. Claimed of it: it accepts exactly the bytes that are valid UTF-8,
/// and gives the characters that they encode; the reason that it displays for refusing others
/// depends on the bytes alone.
#[verifier::external_body]
fn string_from_utf8(bytes: Vec<u8>) -> (decoded: Result<String, String>)
    ensures
        match decoded {
            Ok(text) => valid_utf8(bytes@) && text@ == decode_utf8(bytes@),
            Err(fault) => !valid_utf8(bytes@) && fault@ == utf8_fault(bytes@),
        },
{
    match String::from_utf8(bytes) {
        Ok(text) => Ok(text),
        Err(fault) => Err(fault.to_string()),
    }
}

/// Calls `base64::decode`, with the standard alphabet and padding. Claimed of it: what it
/// returns, bytes or the display of an error, depends on the text alone.
#[verifier::external_body]
fn base64_decode(text: &str) -> (decoded: Result<Vec<u8>, String>)
    ensures
        match decoded {
            Ok(bytes) => base64_decoded(text@) == Ok::<Seq<u8>, Seq<char>>(bytes@),
            Err(fault) => base64_decoded(text@) == Err::<Seq<u8>, Seq<char>>(fault@),
        },
{
    match base64::decode(text) {
        Ok(bytes) => Ok(bytes),
        Err(fault) => Err(fault.to_string()),
    }
}

/// There is no quote and no backslash in the text.
pub open spec fn is_unescaped(text: Seq<char>) -> bool {
    forall|i: int| 0 <= i < text.len() ==> #[trigger] text[i] != '"' && text[i] != '\\'
}

/// Calls `base64::encode`, with the standard alphabet and padding. Claimed of it: the text
/// depends on the bytes alone, `base64::decode` makes the bytes of it again, and there is no
/// quote and no backslash in it. It panics where the text would be longer than a `String` can
/// be: four characters for every three bytes or part of them.
#[verifier::external_body]
pub(crate) fn base64_encode(bytes: &[u8]) -> (text: String)
    requires
        (bytes@.len() + 2) / 3 * 4 <= isize::MAX,
    ensures
        text@ == base64_encoded(bytes@),
        match base64_decoded(text@) {
            Ok(decoded) => decoded == bytes@,
            Err(_) => false,
        },
        is_unescaped(text@),
{
    base64::encode(bytes)
}

/// `String::push`. Claimed of it: it appends the character to the string.
pub assume_specification[ String::push ](text: &mut String, c: char)
    ensures
        final(text)@ == old(text)@.push(c),
;

/// The text that the bytes encode in UTF-8, or the message of the error that they encode none.
pub open spec fn utf8_text(bytes: Seq<u8>) -> Result<Seq<char>, Seq<char>> {
    if valid_utf8(bytes) {
        Ok(decode_utf8(bytes))
    } else {
        Err(invalid_utf8_text(utf8_fault(bytes)))
    }
}

/// The text that the bytes encode in UTF-8.
pub fn decode_text(bytes: Vec<u8>) -> (decoded: Result<String, Error>)
    ensures
        match decoded {
            Ok(text) => utf8_text(bytes@) == Ok::<Seq<char>, Seq<char>>(text@),
            Err(error) => utf8_text(bytes@) == Err::<Seq<char>, Seq<char>>(error@),
        },
{
    match string_from_utf8(bytes) {
        Ok(text) => Ok(text),
        Err(fault) => Err(Error::invalid_utf8(fault.as_str())),
    }
}

/// The bytes that a text stands for in base64.
pub fn decode_base64(text: &str) -> (decoded: Result<Vec<u8>, Error>)
    ensures
        match decoded {
            Ok(bytes) => base64_decoded(text@) == Ok::<Seq<u8>, Seq<char>>(bytes@),
            Err(error) => base64_decoded(text@) == Err::<Seq<u8>, Seq<char>>(error@),
        },
{
    match base64_decode(text) {
        Ok(bytes) => Ok(bytes),
        Err(fault) => Err(Error::custom(fault)),
    }
}

/// The text of one character: the one whose number the byte is.
pub fn char_text(byte: u8) -> (text: String)
    ensures
        text@ == seq![byte as char],
{
    let mut text = String::new();
    text.push(byte as char);
    assert(text@ =~= seq![byte as char]);
    text
}

/// Bytes below 128 are valid UTF-8, and each of them encodes the character with its number.
pub proof fn lemma_ascii_text(bytes: Seq<u8>)
    requires
        forall|i: int| 0 <= i < bytes.len() ==> #[trigger] bytes[i] < 128,
    ensures
        valid_utf8(bytes),
        decode_utf8(bytes) == bytes.map_values(|byte: u8| byte as char),
{
    let chars = bytes.map_values(|byte: u8| byte as char);
    assert(is_ascii_chars(chars));
    is_ascii_chars_encode_utf8(chars);
    assert(encode_utf8(chars) =~= bytes);
    encode_utf8_valid_utf8(chars);
    encode_utf8_decode_utf8(chars);
}

} // verus!
