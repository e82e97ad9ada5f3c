//! Encoding.

use vstd::prelude::*;
use vstd::utf8::*;

use crate::input::Input;
use crate::laws::notation::law_read_text;
use crate::lexical::QUOTE;
use crate::step::{Stage, Step};
use crate::text::{base64_encode, base64_encoded};

verus! {

/// The quoted string of base64 that bytes are written as. [`Input::decode_byte_buf`] reads them
/// back from it, whatever follows.
pub fn encode_byte_buf(bytes: &[u8]) -> (encoded: Vec<u8>)
    requires
        (bytes@.len() + 2) / 3 * 4 <= isize::MAX,
    ensures
        encoded@ == seq![QUOTE] + encode_utf8(base64_encoded(bytes@)) + seq![QUOTE],
        forall|tail: Seq<u8>, stage: Stage|
            #![trigger Input::of(encoded@ + tail, stage)]
            Input::of(encoded@ + tail, stage).decode_byte_buf() == (
                Input::of(tail, stage),
                Step::<Seq<u8>, Seq<char>>::Done(bytes@),
            ),
{
    let text = base64_encode(bytes);
    let mut encoded: Vec<u8> = Vec::new();
    encoded.push(QUOTE);
    encoded.extend_from_slice(text.as_str().as_bytes());
    encoded.push(QUOTE);
    assert(encoded@ =~= seq![QUOTE] + encode_utf8(text@) + seq![QUOTE]);
    proof {
        assert forall|tail: Seq<u8>, stage: Stage|
            #![trigger Input::of(encoded@ + tail, stage)]
            Input::of(encoded@ + tail, stage).decode_byte_buf() == (
                Input::of(tail, stage),
                Step::<Seq<u8>, Seq<char>>::Done(bytes@),
            ) by {
            let input = Input::of(encoded@ + tail, stage);
            assert(input.rest =~= Seq::<u8>::empty() + seq![QUOTE] + encode_utf8(text@) + seq![
                QUOTE,
            ] + tail);
            law_read_text(input, Seq::empty(), text@, tail);
        }
    }
    encoded
}

} // verus!
