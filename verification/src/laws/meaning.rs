//! What the outcome of a reading says of the document.
//!
//! Each law takes whatever a reading came to, and says what stood in the document for it to come
//! to that: which bytes were taken, which are left, and what the value or the message has to do
//! with them. The conditions of the outcomes of one reading exclude each other, so that each of
//! them also tells when its outcome comes.

use vstd::prelude::*;
use vstd::utf8::*;

use crate::error::{
    invalid_type_text, invalid_utf8_text, invalid_value_text, unexpected_end_text,
};
use crate::input::{string_end, Input, Reading};
use crate::integer::{digits_value, has_minus, integer_value, unsigned, IntegerError};
use crate::laws::items::{read_list, read_map};
use crate::laws::notation::{blank, bool_notation, law_integer_notation, notation};
use crate::lexical::{
    lemma_run_bytes, lemma_run_len, numeric, run_len, whitespace, Class, COLON, COMMA, DECIMAL,
    ESCAPE, FALSE, LIST_BEGIN, LIST_END, MAP_BEGIN, MAP_END, NULL, QUOTE, TRUE,
};
use crate::step::{Any, Ignored, Number, Stage, Step};
use crate::text::{base64_decoded, lemma_ascii_text, utf8_fault, utf8_text};

verus! {

/// The bytes are white space and then `token`, which does not begin with any.
pub open spec fn after_space(bytes: Seq<u8>, token: Seq<u8>) -> bool {
    &&& exists|space: Seq<u8>| blank(space) && bytes == #[trigger] (space + token)
    &&& token.len() > 0 ==> !whitespace(token[0])
}

/// There is one token that bytes hold after white space.
pub proof fn law_one_token(bytes: Seq<u8>, one: Seq<u8>, other: Seq<u8>)
    requires
        after_space(bytes, one),
        after_space(bytes, other),
    ensures
        one == other,
{
    let first = choose|space: Seq<u8>| blank(space) && bytes == #[trigger] (space + one);
    let second = choose|space: Seq<u8>| blank(space) && bytes == #[trigger] (space + other);
    if first.len() < second.len() {
        assert(bytes[first.len() as int] == one[0]);
        assert(bytes[first.len() as int] == second[first.len() as int]);
    } else if second.len() < first.len() {
        assert(bytes[second.len() as int] == other[0]);
        assert(bytes[second.len() as int] == first[second.len() as int]);
    }
    assert(one =~= bytes.skip(first.len() as int));
    assert(other =~= bytes.skip(second.len() as int));
}

/// The first bytes, up to five of them.
pub open spec fn shown(bytes: Seq<u8>) -> Seq<u8> {
    if bytes.len() <= 5 {
        bytes
    } else {
        bytes.subrange(0, 5)
    }
}

/// A byte other than the wanted one stands after white space, and the message names both.
pub open spec fn is_wrong_byte(
    bytes: Seq<u8>,
    left: Seq<u8>,
    byte: u8,
    wanted: u8,
    message: Seq<char>,
) -> bool {
    &&& byte != wanted
    &&& after_space(bytes, seq![byte] + left)
    &&& message == "invalid value: "@ + seq![byte as char] + ", expected "@ + seq![wanted as char]
}

/// After white space, another byte than the wanted one was met and taken, or the end.
pub open spec fn is_wrong_token(
    input: Input,
    left: Input,
    wanted: u8,
    message: Seq<char>,
) -> bool {
    ||| {
        &&& input.stage == Stage::Closed
        &&& blank(input.rest)
        &&& left.rest.len() == 0
        &&& message == "unexpected end of stream"@
    }
    ||| exists|byte: u8| #[trigger]
        is_wrong_byte(input.rest, left.rest, byte, wanted, message)
}

/// Bytes with a token in them are not white space alone.
proof fn lemma_not_blank(bytes: Seq<u8>, token: Seq<u8>)
    requires
        after_space(bytes, token),
    ensures
        token.len() > 0 ==> !blank(bytes),
{
    let space = choose|space: Seq<u8>| blank(space) && bytes == #[trigger] (space + token);
    if token.len() > 0 {
        assert(bytes[space.len() as int] == token[0]);
    }
}

/// A reading was put off: there may be more to come, and nothing was taken but white space, if
/// a token follows it.
pub open spec fn is_put_off(input: Input, left: Input) -> bool {
    &&& input.stage == Stage::Open
    &&& left.stage == Stage::Open
    &&& if blank(input.rest) {
        left == input
    } else {
        left.rest.len() > 0 && after_space(input.rest, left.rest)
    }
}

/// The bytes that the grammar is made of, by their numbers.
pub proof fn law_bytes(byte: u8)
    ensures
        COLON == 58 && COMMA == 44 && DECIMAL == 46 && ESCAPE == 92 && QUOTE == 34,
        LIST_BEGIN == 91 && LIST_END == 93 && MAP_BEGIN == 123 && MAP_END == 125,
        TRUE@ == seq![116u8, 114, 117, 101],
        FALSE@ == seq![102u8, 97, 108, 115, 101],
        NULL@ == seq![110u8, 117, 108, 108],
        whitespace(byte) <==> 9 <= byte <= 13 || byte == 32 || byte == 133 || byte == 160,
        Class::Whitespace.has(byte) <==> whitespace(byte),
        Class::Digit.has(byte) <==> 48 <= byte <= 57,
        Class::Integral.has(byte) <==> 48 <= byte <= 57 || byte == 45 || byte == 69 || byte == 101,
        Class::Numeric.has(byte) <==> Class::Integral.has(byte) || byte == 46,
        numeric(byte) <==> Class::Numeric.has(byte),
{
}

/// The messages of errors.
pub proof fn law_messages(found: Seq<char>, wanted: Seq<char>)
    ensures
        unexpected_end_text() == "unexpected end of stream"@,
        invalid_utf8_text(found) == "invalid UTF-8: "@ + found,
        invalid_value_text(found, wanted) == "invalid value: "@ + found + ", expected "@ + wanted,
        invalid_type_text(found, wanted) == "invalid type: "@ + found + ", expected "@ + wanted,
{
}

/// The view of an outcome is of the same kind, and holds the views of what the outcome holds.
pub proof fn law_step_view<T: View, E: View>(step: Step<T, E>, value: T, error: E)
    ensures
        step is More <==> step@ is More,
        step is Done <==> step@ is Done,
        step is Failed <==> step@ is Failed,
        Step::<T, E>::Done(value)@ == Step::<T::V, E::V>::Done(value@),
        Step::<T, E>::Failed(error)@ == Step::<T::V, E::V>::Failed(error@),
{
}

/// The view of a value is of the same kind, and holds the same numbers and booleans and the
/// views of the same texts.
pub proof fn law_value_view<T: View>(
    any: Any<T>,
    number: Number<T>,
    ignored: Ignored<T>,
    text: T,
    n: i64,
    truth: bool,
)
    ensures
        number == Number::<T>::Integer(n) <==> number@ == Number::<T::V>::Integer(n),
        number is Float <==> number@ is Float,
        Number::Float(text)@ == Number::<T::V>::Float(text@),
        any is Text <==> any@ is Text,
        any is MapBegin <==> any@ is MapBegin,
        any is ListBegin <==> any@ is ListBegin,
        any is Number <==> any@ is Number,
        any == Any::<T>::Bool(truth) <==> any@ == Any::<T::V>::Bool(truth),
        any is Null <==> any@ is Null,
        Any::Text(text)@ == Any::<T::V>::Text(text@),
        Any::Number(number)@ == Any::<T::V>::Number(number@),
        ignored is Checked <==> ignored@ is Checked,
        Ignored::Number(text)@ == Ignored::<T::V>::Number(text@),
{
}

/// Bytes are a text if and only if they are the encoding of one, and then they are that of
/// their text.
pub proof fn law_text(bytes: Seq<u8>, text: Seq<char>)
    ensures
        utf8_text(bytes) == Ok::<Seq<char>, Seq<char>>(text) <==> encode_utf8(text) == bytes,
        !valid_utf8(bytes) <==> utf8_text(bytes) == Err::<Seq<char>, Seq<char>>(
            "invalid UTF-8: "@ + utf8_fault(bytes),
        ),
{
    if valid_utf8(bytes) {
        decode_utf8_encode_utf8(bytes);
    }
    encode_utf8_valid_utf8(text);
    encode_utf8_decode_utf8(text);
}

/// A run of bytes of one kind is taken, all of it and nothing else.
pub proof fn law_buffer_while(input: Input, class: Class)
    ensures
        ({
            let (left, outcome) = input.buffer_while(class);
            &&& left.stage == input.stage
            &&& match outcome {
                Step::Done(taken) => {
                    &&& input.rest == taken + left.rest
                    &&& forall|i: int| 0 <= i < taken.len() ==> class.has(#[trigger] taken[i])
                    &&& if left.rest.len() > 0 {
                        !class.has(left.rest[0])
                    } else {
                        input.stage == Stage::Closed
                    }
                },
                Step::Failed(_) => false,
                Step::More => {
                    &&& input.stage == Stage::Open
                    &&& left == input
                    &&& forall|i: int|
                        0 <= i < input.rest.len() ==> class.has(#[trigger] input.rest[i])
                },
            }
        }),
{
    lemma_run_bytes(input.rest, class);
    let len = run_len(input.rest, class) as int;
    assert(input.rest =~= input.rest.take(len) + input.rest.skip(len));
}

/// White space is dropped, all of it and nothing else.
pub proof fn law_expect_whitespace(input: Input)
    ensures
        ({
            let (left, outcome) = input.expect_whitespace();
            &&& left.stage == input.stage
            &&& match outcome {
                Step::Done(_) => {
                    &&& after_space(input.rest, left.rest)
                    &&& left.rest.len() == 0 ==> input.stage == Stage::Closed && blank(input.rest)
                },
                Step::Failed(_) => false,
                Step::More => {
                    &&& input.stage == Stage::Open
                    &&& left == input
                    &&& blank(input.rest)
                },
            }
        }),
{
    law_buffer_while(input, Class::Whitespace);
    let (left, outcome) = input.buffer_while(Class::Whitespace);
    match outcome {
        Step::Done(space) => {
            assert(blank(space));
            assert(input.rest == space + left.rest);
            if left.rest.len() == 0 {
                assert(input.rest =~= space);
            }
        },
        _ => {},
    }
}

/// The wanted byte is taken, and any other is taken and refused.
pub proof fn law_expect_byte(input: Input, byte: u8)
    ensures
        ({
            let (left, outcome) = input.expect_byte(byte);
            &&& left.stage == input.stage
            &&& match outcome {
                Step::Done(_) => input.rest == seq![byte] + left.rest,
                Step::Failed(message) => if input.rest.len() == 0 {
                    &&& input.stage == Stage::Closed
                    &&& left == input
                    &&& message == "unexpected end of stream"@
                } else {
                    &&& input.rest[0] != byte
                    &&& input.rest == seq![input.rest[0]] + left.rest
                    &&& message == "invalid value: "@ + seq![input.rest[0] as char]
                        + ", expected "@ + seq![byte as char]
                },
                Step::More => input.stage == Stage::Open && left == input && input.rest.len() == 0,
            }
        }),
{
    if input.rest.len() > 0 {
        assert(input.rest =~= seq![input.rest[0]] + input.rest.skip(1));
    }
}

/// A byte is taken if and only if it is the one that is asked for.
pub proof fn law_maybe_byte(input: Input, byte: u8)
    ensures
        ({
            let (left, outcome) = input.maybe_byte(byte);
            &&& left.stage == input.stage
            &&& match outcome {
                Step::Done(true) => input.rest == seq![byte] + left.rest,
                Step::Done(false) => {
                    &&& left == input
                    &&& if input.rest.len() > 0 {
                        input.rest[0] != byte
                    } else {
                        input.stage == Stage::Closed
                    }
                },
                Step::Failed(_) => false,
                Step::More => input.stage == Stage::Open && left == input && input.rest.len() == 0,
            }
        }),
{
    if input.rest.len() > 0 {
        assert(input.rest =~= seq![input.rest[0]] + input.rest.skip(1));
    }
}

/// The wanted byte is taken, and the white space before it; any other is taken and refused.
pub proof fn law_expect_token(input: Input, byte: u8)
    ensures
        ({
            let (left, outcome) = input.expect_token(byte);
            &&& left.stage == input.stage
            &&& match outcome {
                Step::Done(_) => after_space(input.rest, seq![byte] + left.rest),
                Step::Failed(message) => is_wrong_token(input, left, byte, message),
                Step::More => input.stage == Stage::Open && left == input && blank(input.rest),
            }
        }),
{
    law_expect_whitespace(input);
    let (there, dropped) = input.expect_whitespace();
    if dropped is Done {
        law_expect_byte(there, byte);
        let (left, outcome) = there.expect_byte(byte);
        if let Step::Failed(message) = outcome {
            if there.rest.len() > 0 {
                assert(is_wrong_byte(input.rest, left.rest, there.rest[0], byte, message));
            }
        }
    }
}

/// After an item stands a comma, which is taken, or the end, which is left; anything else is
/// refused.
pub proof fn law_expect_comma_or(input: Input, end: u8)
    ensures
        ({
            let (left, outcome) = input.expect_comma_or(end);
            &&& left.stage == input.stage
            &&& match outcome {
                Step::Done(_) => {
                    ||| after_space(input.rest, left.rest) && left.rest.len() > 0 && left.rest[0]
                        == end
                    ||| after_space(input.rest, seq![COMMA] + left.rest) && end != COMMA
                },
                Step::Failed(message) => {
                    &&& is_wrong_token(input, left, COMMA, message)
                    &&& !after_space(input.rest, seq![end] + left.rest)
                },
                Step::More => input.stage == Stage::Open && left == input && blank(input.rest),
            }
        }),
{
    law_expect_whitespace(input);
    let (there, dropped) = input.expect_whitespace();
    if dropped is Done {
        law_expect_byte(there, COMMA);
        let (left, outcome) = input.expect_comma_or(end);
        if let Step::Failed(message) = outcome {
            if there.rest.len() > 0 {
                assert(is_wrong_byte(input.rest, left.rest, there.rest[0], COMMA, message));
            }
            if after_space(input.rest, seq![end] + left.rest) {
                law_one_token(input.rest, there.rest, seq![end] + left.rest);
                assert(there.rest[0] == end);
            }
        }
    }
}

/// There is another item unless the end comes next, which is then taken.
pub proof fn law_has_next(input: Input, end: u8)
    ensures
        ({
            let (left, outcome) = input.has_next(end);
            &&& left.stage == input.stage
            &&& match outcome {
                Step::Done(false) => after_space(input.rest, seq![end] + left.rest),
                Step::Done(true) => {
                    &&& after_space(input.rest, left.rest)
                    &&& if left.rest.len() > 0 {
                        left.rest[0] != end
                    } else {
                        input.stage == Stage::Closed
                    }
                },
                Step::Failed(_) => false,
                Step::More => input.stage == Stage::Open && left == input && blank(input.rest),
            }
        }),
{
    law_expect_whitespace(input);
    let (there, dropped) = input.expect_whitespace();
    if dropped is Done {
        law_maybe_byte(there, end);
    }
}

/// A list begins with its bracket and a map with its brace, and the size hint is handed on.
pub proof fn law_begin(input: Input, size_hint: Option<usize>)
    ensures
        ({
            let (left, outcome) = input.begin_list(size_hint);
            &&& left.stage == input.stage
            &&& match outcome {
                Step::Done(hint) => hint == size_hint && after_space(
                    input.rest,
                    seq![LIST_BEGIN] + left.rest,
                ),
                Step::Failed(message) => is_wrong_token(input, left, LIST_BEGIN, message),
                Step::More => input.stage == Stage::Open && left == input && blank(input.rest),
            }
        }),
        ({
            let (left, outcome) = input.begin_map(size_hint);
            &&& left.stage == input.stage
            &&& match outcome {
                Step::Done((hint, after_colon)) => hint == size_hint && !after_colon && after_space(
                    input.rest,
                    seq![MAP_BEGIN] + left.rest,
                ),
                Step::Failed(message) => is_wrong_token(input, left, MAP_BEGIN, message),
                Step::More => input.stage == Stage::Open && left == input && blank(input.rest),
            }
        }),
{
    law_expect_token(input, LIST_BEGIN);
    law_expect_token(input, MAP_BEGIN);
}

/// `value` follows a colon, with white space before the colon and after it.
pub open spec fn after_colon(bytes: Seq<u8>, value: Seq<u8>) -> bool {
    exists|follows: Seq<u8>|
        after_space(bytes, #[trigger] (seq![COLON] + follows)) && after_space(follows, value)
}

/// Between a key and its value a colon is taken, once, and the white space around it.
pub proof fn law_begin_value(input: Input, taken: bool)
    ensures
        ({
            let (left, after, outcome) = input.begin_value(taken);
            &&& left.stage == input.stage
            &&& match outcome {
                Step::Done(_) => {
                    &&& !after
                    &&& left.rest.len() == 0 ==> input.stage == Stage::Closed
                    &&& if taken {
                        after_space(input.rest, left.rest)
                    } else {
                        after_colon(input.rest, left.rest)
                    }
                },
                Step::Failed(message) => {
                    &&& !taken
                    &&& !after
                    &&& is_wrong_token(input, left, COLON, message)
                },
                Step::More => {
                    &&& input.stage == Stage::Open
                    &&& blank(left.rest)
                    &&& if after == taken {
                        left == input
                    } else {
                        after && after_space(input.rest, seq![COLON] + left.rest)
                    }
                },
            }
        }),
{
    if taken {
        law_expect_whitespace(input);
    } else {
        law_expect_token(input, COLON);
        let (there, colon) = input.expect_token(COLON);
        if colon is Done {
            law_expect_whitespace(there);
            assert(after_space(input.rest, seq![COLON] + there.rest));
        }
    }
}

/// Every quote in the bytes is escaped: no string ends in them.
pub open spec fn is_unended(bytes: Seq<u8>) -> bool {
    forall|i: int|
        0 <= i < bytes.len() && #[trigger] bytes[i] == QUOTE ==> i > 0 && bytes[i - 1] == ESCAPE
}

/// What can stand between quotes: no string ends in it, and it does not escape the last quote.
pub open spec fn is_body(bytes: Seq<u8>) -> bool {
    &&& is_unended(bytes)
    &&& bytes.len() > 0 ==> bytes.last() != ESCAPE
}

proof fn lemma_string_end(bytes: Seq<u8>, from: nat)
    requires
        from <= bytes.len(),
        forall|i: int|
            0 <= i < from && #[trigger] bytes[i] == QUOTE ==> i > 0 && bytes[i - 1] == ESCAPE,
    ensures
        match string_end(bytes, from) {
            Some(end) => {
                &&& end < bytes.len()
                &&& bytes[end as int] == QUOTE
                &&& is_body(bytes.take(end as int))
            },
            None => is_unended(bytes),
        },
    decreases bytes.len() - from,
{
    if from < bytes.len() {
        if bytes[from as int] == QUOTE && (from == 0 || bytes[from - 1] != ESCAPE) {
            let body = bytes.take(from as int);
            assert forall|i: int| 0 <= i < body.len() && #[trigger] body[i] == QUOTE implies i > 0
                && body[i - 1] == ESCAPE by {
                assert(bytes[i] == QUOTE);
            }
        } else {
            lemma_string_end(bytes, from + 1);
        }
    }
}

/// What is between quotes is taken as it is, with the quotes, and nothing but that.
pub proof fn law_buffer_string(input: Input)
    ensures
        ({
            let (left, outcome) = input.buffer_string();
            &&& left.stage == input.stage
            &&& match outcome {
                Step::Done(body) => {
                    &&& is_body(body)
                    &&& input.rest == seq![QUOTE] + body + seq![QUOTE] + left.rest
                },
                Step::Failed(message) => if input.rest.len() == 0 {
                    &&& input.stage == Stage::Closed
                    &&& left == input
                    &&& message == "unexpected end of stream"@
                } else if input.rest[0] == QUOTE {
                    &&& input.stage == Stage::Closed
                    &&& is_unended(left.rest)
                    &&& input.rest == seq![QUOTE] + left.rest
                    &&& message == "unexpected end of stream"@
                } else {
                    &&& input.rest == seq![input.rest[0]] + left.rest
                    &&& message == "invalid value: "@ + seq![input.rest[0] as char]
                        + ", expected "@ + seq!['"']
                },
                Step::More => {
                    &&& input.stage == Stage::Open
                    &&& left == input
                    &&& input.rest.len() > 0 ==> {
                        &&& input.rest[0] == QUOTE
                        &&& is_unended(input.rest.skip(1))
                    }
                },
            }
        }),
{
    law_expect_byte(input, QUOTE);
    let (there, quote) = input.expect_byte(QUOTE);
    assert(QUOTE as char == '"');
    if quote is Done {
        lemma_string_end(there.rest, 0);
        assert(there.rest =~= input.rest.skip(1));
        if let Some(end) = string_end(there.rest, 0) {
            let body = there.rest.take(end as int);
            let left = there.rest.skip(end as int + 1);
            assert(there.rest =~= body + seq![QUOTE] + left);
            assert(input.rest =~= seq![QUOTE] + body + seq![QUOTE] + left);
        }
    }
}

/// A quoted text is what its encoding stands for; bytes between quotes that encode no text are
/// taken and refused.
pub proof fn law_parse_string(input: Input)
    ensures
        ({
            let (left, outcome) = input.parse_string();
            &&& left == input.buffer_string().0
            &&& match (outcome, input.buffer_string().1) {
                (Step::Done(text), Step::Done(body)) => body == encode_utf8(text),
                (Step::Failed(message), Step::Done(body)) => !valid_utf8(body) && message
                    == "invalid UTF-8: "@ + utf8_fault(body),
                (Step::Failed(message), Step::Failed(other)) => message == other,
                (Step::More, Step::More) => true,
                _ => false,
            }
        }),
{
    match input.buffer_string().1 {
        Step::Done(body) => {
            if valid_utf8(body) {
                decode_utf8_encode_utf8(body);
            }
        },
        _ => {},
    }
}

/// A quoted text is read after white space, and else as it is without.
pub proof fn law_decode_string(input: Input)
    ensures
        ({
            let (left, outcome) = input.decode_string();
            let (there, dropped) = input.expect_whitespace();
            &&& dropped is More ==> (left, outcome) == (input, Step::<Seq<char>, Seq<char>>::More)
            &&& dropped is Done ==> (left, outcome) == there.parse_string()
            &&& outcome matches Step::Done(text) ==> {
                &&& left.stage == input.stage
                &&& is_body(encode_utf8(text))
                &&& after_space(
                    input.rest,
                    seq![QUOTE] + encode_utf8(text) + seq![QUOTE] + left.rest,
                )
            }
        }),
{
    law_expect_whitespace(input);
    let (there, dropped) = input.expect_whitespace();
    if dropped is Done {
        law_parse_string(there);
        law_buffer_string(there);
    }
}

/// Bytes are what the quoted text stands for in base64, and what stands for none is refused for
/// the reason that base64 has.
pub proof fn law_decode_byte_buf(input: Input)
    ensures
        ({
            let (left, outcome) = input.decode_byte_buf();
            &&& left == input.parse_string().0
            &&& match (outcome, input.parse_string().1) {
                (Step::Done(bytes), Step::Done(text)) => base64_decoded(text) == Ok::<
                    Seq<u8>,
                    Seq<char>,
                >(bytes),
                (Step::Failed(message), Step::Done(text)) => base64_decoded(text) == Err::<
                    Seq<u8>,
                    Seq<char>,
                >(message),
                (Step::Failed(message), Step::Failed(other)) => message == other,
                (Step::More, Step::More) => true,
                _ => false,
            }
        }),
{
}

/// The bytes begin with the word.
pub open spec fn begins(bytes: Seq<u8>, word: Seq<u8>) -> bool {
    bytes.len() >= word.len() && bytes.subrange(0, word.len() as int) == word
}

/// The message of a refusal shows the first bytes, as a text, or says why they are none.
pub open spec fn is_refusal(
    message: Seq<char>,
    start: Seq<char>,
    bytes: Seq<u8>,
    wanted: Seq<char>,
) -> bool {
    if valid_utf8(shown(bytes)) {
        message == start + decode_utf8(shown(bytes)) + ", expected "@ + wanted
    } else {
        message == "invalid UTF-8: "@ + utf8_fault(shown(bytes))
    }
}

/// The first bytes, in the words of [`Input::head_text`].
proof fn lemma_shown(input: Input)
    ensures
        input.head_text() == utf8_text(shown(input.rest)),
{
    assert(shown(input.rest) =~= input.rest.take(
        if input.rest.len() < 5 {
            input.rest.len() as int
        } else {
            5
        },
    ));
}

/// A word that the bytes begin with is followed by the rest of them.
proof fn lemma_begins(bytes: Seq<u8>, word: Seq<u8>)
    ensures
        begins(bytes, word) == word.is_prefix_of(bytes),
        begins(bytes, word) ==> bytes == word + bytes.skip(word.len() as int),
{
    if begins(bytes, word) {
        assert(bytes =~= word + bytes.skip(word.len() as int));
    }
}

/// What was read as a boolean is written as it; anything else is left and refused.
pub proof fn law_parse_bool(input: Input)
    ensures
        ({
            let (left, outcome) = input.parse_bool();
            &&& left.stage == input.stage
            &&& match outcome {
                Step::Done(value) => after_space(input.rest, bool_notation(value) + left.rest),
                Step::Failed(message) => {
                    &&& after_space(input.rest, left.rest)
                    &&& !begins(left.rest, TRUE@)
                    &&& !begins(left.rest, FALSE@)
                    &&& left.rest.len() < 5 ==> input.stage == Stage::Closed
                    &&& if left.rest.len() == 0 {
                        message == "unexpected end of stream"@
                    } else {
                        is_refusal(message, "invalid value: "@, left.rest, "a boolean"@)
                    }
                },
                Step::More => {
                    &&& is_put_off(input, left)
                    &&& !blank(input.rest) ==> left.rest.len() < 5 && !begins(left.rest, TRUE@)
                },
            }
        }),
{
    law_expect_whitespace(input);
    let (there, dropped) = input.expect_whitespace();
    if dropped is Done {
        lemma_shown(there);
        lemma_begins(there.rest, TRUE@);
        lemma_begins(there.rest, FALSE@);
        lemma_not_blank(input.rest, there.rest);
    }
}

/// `null` is found where it stands after white space, and left; anything else is left and
/// refused.
pub proof fn law_parse_unit(input: Input)
    ensures
        ({
            let (left, outcome) = input.parse_unit();
            &&& left.stage == input.stage
            &&& match outcome {
                Step::Done(_) => after_space(input.rest, left.rest) && begins(left.rest, NULL@),
                Step::Failed(message) => {
                    &&& after_space(input.rest, left.rest)
                    &&& !begins(left.rest, NULL@)
                    &&& left.rest.len() < 4 ==> input.stage == Stage::Closed
                    &&& is_refusal(message, "invalid type: "@, left.rest, "null"@)
                },
                Step::More => {
                    &&& is_put_off(input, left)
                    &&& !blank(input.rest) ==> left.rest.len() < 4
                },
            }
        }),
{
    law_expect_whitespace(input);
    let (there, dropped) = input.expect_whitespace();
    if dropped is Done {
        lemma_shown(there);
        lemma_begins(there.rest, NULL@);
        lemma_not_blank(input.rest, there.rest);
    }
}

/// A value is lacking where `null` stands after white space, which is taken, and nowhere else.
pub proof fn law_decode_option(input: Input)
    ensures
        ({
            let (left, outcome) = input.decode_option();
            &&& left.stage == input.stage
            &&& match outcome {
                Step::Done(false) => after_space(input.rest, NULL@ + left.rest),
                Step::Done(true) => {
                    &&& after_space(input.rest, left.rest)
                    &&& !begins(left.rest, NULL@)
                    &&& left.rest.len() < 4 ==> input.stage == Stage::Closed
                },
                Step::Failed(_) => false,
                Step::More => {
                    &&& is_put_off(input, left)
                    &&& !blank(input.rest) ==> left.rest.len() < 4
                },
            }
        }),
{
    law_expect_whitespace(input);
    let (there, dropped) = input.expect_whitespace();
    if dropped is Done {
        lemma_begins(there.rest, NULL@);
        lemma_not_blank(input.rest, there.rest);
    }
}

/// After white space stand the bytes of a number, all of them and nothing else, and what is
/// left follows.
pub open spec fn is_number(input: Input, digits: Seq<u8>, left: Input) -> bool {
    &&& left.stage == input.stage
    &&& after_space(input.rest, digits + left.rest)
    &&& forall|i: int| 0 <= i < digits.len() ==> numeric(#[trigger] digits[i])
    &&& if left.rest.len() > 0 {
        !numeric(left.rest[0])
    } else {
        input.stage == Stage::Closed
    }
}

/// The text of a number is that of the bytes that it is written with.
pub proof fn law_parse_number(input: Input)
    ensures
        ({
            let (left, outcome) = input.parse_number();
            match outcome {
                Step::Done(text) => {
                    &&& is_number(input, encode_utf8(text), left)
                    &&& encode_utf8(text).len() == text.len()
                },
                Step::Failed(_) => false,
                Step::More => {
                    &&& is_put_off(input, left)
                    &&& !blank(input.rest) ==> forall|i: int|
                        0 <= i < left.rest.len() ==> numeric(#[trigger] left.rest[i])
                },
            }
        }),
{
    lemma_numeral(input);
    let (left, outcome) = input.numeral();
    if let Step::Done(digits) = outcome {
        lemma_ascii_text(digits);
        decode_utf8_encode_utf8(digits);
    }
}

proof fn lemma_numeral(input: Input)
    ensures
        ({
            let (left, outcome) = input.numeral();
            match outcome {
                Step::Done(digits) => is_number(input, digits, left),
                Step::Failed(_) => false,
                Step::More => {
                    &&& is_put_off(input, left)
                    &&& !blank(input.rest) ==> forall|i: int|
                        0 <= i < left.rest.len() ==> numeric(#[trigger] left.rest[i])
                },
            }
        }),
{
    law_expect_whitespace(input);
    let (there, dropped) = input.expect_whitespace();
    if dropped is Done {
        law_buffer_while(there, Class::Numeric);
        lemma_not_blank(input.rest, there.rest);
    }
}

/// A number is written with the same bytes however it is told where it ends.
pub proof fn law_one_number(
    input: Input,
    one: Seq<u8>,
    one_left: Input,
    other: Seq<u8>,
    other_left: Input,
)
    requires
        is_number(input, one, one_left),
        is_number(input, other, other_left),
    ensures
        one == other,
        one_left == other_left,
{
    let token = one + one_left.rest;
    law_one_token(input.rest, token, other + other_left.rest);
    if one.len() < other.len() {
        assert(token[one.len() as int] == one_left.rest[0]);
        assert((other + other_left.rest)[one.len() as int] == other[one.len() as int]);
    } else if other.len() < one.len() {
        assert((other + other_left.rest)[other.len() as int] == other_left.rest[0]);
        assert(token[other.len() as int] == one[other.len() as int]);
    }
    assert(one =~= token.take(one.len() as int));
    assert(other =~= token.take(other.len() as int));
    assert(one_left.rest =~= token.skip(one.len() as int));
    assert(other_left.rest =~= token.skip(other.len() as int));
}

/// Nothing but decimal digits.
pub open spec fn are_digits(bytes: Seq<u8>) -> bool {
    forall|i: int| 0 <= i < bytes.len() ==> 48 <= #[trigger] bytes[i] <= 57
}

/// A sign that an integer of a type with the least value `min` can have: none, a plus, or, if
/// there are negative values, a minus.
pub open spec fn is_sign(sign: Seq<u8>, min: int) -> bool {
    ||| sign.len() == 0
    ||| sign == seq![43u8]
    ||| sign == seq![45u8] && min < 0
}

/// The integer that digits stand for after a sign.
pub open spec fn signed_value(sign: Seq<u8>, digits: Seq<u8>) -> int {
    if sign == seq![45u8] {
        -digits_value(digits)
    } else {
        digits_value(digits) as int
    }
}

/// The text is a sign, then digits, then something else.
pub open spec fn is_split(
    text: Seq<u8>,
    min: int,
    sign: Seq<u8>,
    digits: Seq<u8>,
    follows: Seq<u8>,
) -> bool {
    &&& text == sign + digits + follows
    &&& is_sign(sign, min)
    &&& sign.len() == 0 && text.len() > 0 ==> !is_sign(seq![text[0]], min)
    &&& are_digits(digits)
    &&& follows.len() > 0 ==> !(48 <= follows[0] <= 57)
}

/// Digits stand for a number in the decimal system.
pub proof fn law_digits(digits: Seq<u8>, last: u8)
    requires
        48 <= last <= 57,
    ensures
        digits_value(Seq::empty()) == 0,
        digits_value(digits.push(last)) == 10 * digits_value(digits) + (last - 48),
{
    assert(digits.push(last).drop_last() =~= digits);
}

/// A text can be split, as [`integer_value`] does it.
proof fn lemma_split(text: Seq<u8>, min: int)
    ensures
        exists|sign: Seq<u8>, digits: Seq<u8>, follows: Seq<u8>| #[trigger]
            is_split(text, min, sign, digits, follows),
{
    let body = unsigned(text, min);
    let len = run_len(body, Class::Digit) as int;
    lemma_run_bytes(body, Class::Digit);
    let sign = text.take(text.len() - body.len());
    let digits = body.take(len);
    assert(text =~= sign + digits + body.skip(len));
    assert forall|i: int| 0 <= i < digits.len() implies 48 <= #[trigger] digits[i] <= 57 by {
        assert(Class::Digit.has(body[i]));
    }
    if sign.len() > 0 {
        assert(sign =~= seq![text[0]]);
    } else if text.len() > 0 {
        assert(seq![text[0]][0] == text[0]);
        assert(seq![43u8][0] == 43);
        assert(seq![45u8][0] == 45);
    }
    assert(is_split(text, min, sign, digits, body.skip(len)));
}

/// There is one way to split a text.
proof fn lemma_one_split(
    text: Seq<u8>,
    min: int,
    sign: Seq<u8>,
    digits: Seq<u8>,
    follows: Seq<u8>,
)
    requires
        is_split(text, min, sign, digits, follows),
    ensures
        ({
            let body = unsigned(text, min);
            let len = run_len(body, Class::Digit);
            &&& body == digits + follows
            &&& len == digits.len()
            &&& body.take(len as int) == digits
            &&& has_minus(text, min) == (sign == seq![45u8])
        }),
{
    let body = unsigned(text, min);
    assert(seq![43u8][0] == 43);
    assert(seq![45u8][0] == 45);
    if sign.len() > 0 {
        assert(text[0] == sign[0]);
        assert(has_minus(text, min) ==> sign =~= seq![45u8]);
    } else if text.len() > 0 {
        assert(text[0] == 43 ==> seq![text[0]] =~= seq![43u8]);
        assert(text[0] == 45 ==> seq![text[0]] =~= seq![45u8]);
    }
    assert(body =~= digits + follows);
    assert forall|i: int| 0 <= i < digits.len() implies Class::Digit.has(#[trigger] body[i]) by {
        assert(body[i] == digits[i]);
    }
    if follows.len() > 0 {
        assert(body[digits.len() as int] == follows[0]);
    }
    lemma_run_len(body, Class::Digit, digits.len());
    assert(body.take(digits.len() as int) =~= digits);
}

/// A text is an integer of a type if and only if it is a sign and digits that stand for a value
/// of the type. It is empty, or too large, or too small, or has something in it that is no digit
/// before it is any of these.
pub proof fn law_integer_value(text: Seq<u8>, min: int, max: int)
    requires
        min <= 0 <= max,
    ensures
        exists|sign: Seq<u8>, digits: Seq<u8>, follows: Seq<u8>| #[trigger]
            is_split(text, min, sign, digits, follows),
        forall|sign: Seq<u8>, digits: Seq<u8>, follows: Seq<u8>| #[trigger]
            is_split(text, min, sign, digits, follows) ==> {
                let value = signed_value(sign, digits);
                match integer_value(text, min, max) {
                    Ok(n) => {
                        &&& n == value
                        &&& min <= n <= max
                        &&& digits.len() > 0
                        &&& follows.len() == 0
                    },
                    Err(IntegerError::Empty) => text.len() == 0,
                    Err(IntegerError::TooLarge) => value > max,
                    Err(IntegerError::TooSmall) => value < min,
                    Err(IntegerError::InvalidDigit) => {
                        &&& text.len() > 0
                        &&& min <= value <= max
                        &&& digits.len() == 0 || follows.len() > 0
                    },
                }
            },
{
    lemma_split(text, min);
    assert forall|sign: Seq<u8>, digits: Seq<u8>, follows: Seq<u8>| #[trigger]
        is_split(text, min, sign, digits, follows) implies {
        let value = signed_value(sign, digits);
        match integer_value(text, min, max) {
            Ok(n) => {
                &&& n == value
                &&& min <= n <= max
                &&& digits.len() > 0
                &&& follows.len() == 0
            },
            Err(IntegerError::Empty) => text.len() == 0,
            Err(IntegerError::TooLarge) => value > max,
            Err(IntegerError::TooSmall) => value < min,
            Err(IntegerError::InvalidDigit) => {
                &&& text.len() > 0
                &&& min <= value <= max
                &&& digits.len() == 0 || follows.len() > 0
            },
        }
    } by {
        lemma_one_split(text, min, sign, digits, follows);
    }
}

/// The messages of integers that are refused.
pub proof fn law_integer_messages()
    ensures
        IntegerError::Empty.message() == "cannot parse integer from empty string"@,
        IntegerError::InvalidDigit.message() == "invalid digit found in string"@,
        IntegerError::TooLarge.message() == "number too large to fit in target type"@,
        IntegerError::TooSmall.message() == "number too small to fit in target type"@,
{
}

/// An integer is the one that the bytes of a number stand for, and what stands for none of the
/// type is taken and refused, with the reason.
pub proof fn law_parse_integer(input: Input, min: int, max: int, name: Seq<char>)
    requires
        min <= 0 <= max,
    ensures
        ({
            let (left, outcome) = input.parse_integer(min, max, name);
            let (number_left, number) = input.parse_number();
            &&& left == number_left
            &&& match (outcome, number) {
                (Step::Done(n), Step::Done(text)) => {
                    &&& min <= n <= max
                    &&& integer_value(encode_utf8(text), min, max) == Ok::<int, IntegerError>(n)
                },
                (Step::Failed(message), Step::Done(text)) => match integer_value(
                    encode_utf8(text),
                    min,
                    max,
                ) {
                    Ok(_) => false,
                    Err(error) => message == "invalid value: "@ + error.message() + ", expected "@
                        + name,
                },
                (Step::More, Step::More) => true,
                _ => false,
            }
        }),
{
    lemma_numeral(input);
    if let Step::Done(digits) = input.numeral().1 {
        lemma_ascii_text(digits);
        decode_utf8_encode_utf8(digits);
        law_integer_value(digits, min, max);
        assert(exists|sign: Seq<u8>, run: Seq<u8>, follows: Seq<u8>| #[trigger]
            is_split(digits, min, sign, run, follows));
    }
}

/// An integer outside the range of a type is refused, as too large or too small; a minus is no
/// digit where there are no negative values.
pub proof fn law_integer_out_of_range(n: int, min: int, max: int)
    requires
        min <= 0 <= max,
        n < min || n > max,
    ensures
        integer_value(notation(n), min, max) == Err::<int, IntegerError>(
            if n > max {
                IntegerError::TooLarge
            } else if min < 0 {
                IntegerError::TooSmall
            } else {
                IntegerError::InvalidDigit
            },
        ),
{
    let wide = if n < 0 {
        n
    } else {
        -1
    };
    let top = if n > 0 {
        n
    } else {
        0
    };
    law_integer_notation(n, wide, top);
    law_integer_value(notation(n), wide, top);
    law_integer_value(notation(n), min, max);
    let (sign, digits, follows) = choose|sign: Seq<u8>, digits: Seq<u8>, follows: Seq<u8>| #[trigger]
        is_split(notation(n), wide, sign, digits, follows);
    assert(is_split(notation(n), wide, sign, digits, follows));
    if min < 0 {
        assert(is_split(notation(n), min, sign, digits, follows));
    } else if n < 0 {
        assert(notation(n)[0] == 45);
        let empty = Seq::<u8>::empty();
        assert(empty + empty + notation(n) =~= notation(n));
        assert(is_sign(seq![45u8], 0) ==> seq![45u8][0] == 43);
        assert(seq![notation(n)[0]] =~= seq![45u8]);
        assert(is_split(notation(n), min, empty, empty, notation(n)));
    } else {
        if sign.len() > 0 {
            assert(notation(n)[0] == sign[0]);
            assert(numeric(notation(n)[0]));
        }
        assert(is_split(notation(n), min, sign, digits, follows));
    }
}

/// An integer outside the range of a type is taken and refused, with the reason and the type.
pub proof fn law_read_out_of_range(
    input: Input,
    space: Seq<u8>,
    n: int,
    tail: Seq<u8>,
    min: int,
    max: int,
    name: Seq<char>,
)
    requires
        blank(space),
        min <= 0 <= max,
        n < min || n > max,
        input.rest == space + notation(n) + tail,
        if tail.len() > 0 {
            !numeric(tail[0])
        } else {
            input.stage == Stage::Closed
        },
    ensures
        input.parse_integer(min, max, name) == (
            Input::of(tail, input.stage),
            Step::<int, Seq<char>>::Failed(
                "invalid value: "@ + (if n > max {
                    "number too large to fit in target type"@
                } else if min < 0 {
                    "number too small to fit in target type"@
                } else {
                    "invalid digit found in string"@
                }) + ", expected "@ + name,
            ),
        ),
{
    let digits = notation(n);
    let left = Input::of(tail, input.stage);
    law_integer_notation(
        n,
        if n < 0 {
            n
        } else {
            0
        },
        if n > 0 {
            n
        } else {
            0
        },
    );
    assert(input.rest =~= space + (digits + tail));
    assert(numeric(digits[0]));
    assert(is_number(input, digits, left));
    lemma_numeral(input);
    let (there, outcome) = input.numeral();
    match outcome {
        Step::Done(same) => {
            law_one_number(input, digits, left, same, there);
        },
        _ => {
            lemma_not_blank(input.rest, digits + tail);
            law_one_token(input.rest, digits + tail, there.rest);
            assert(there.rest[digits.len() as int] == tail[0]);
        },
    }
    law_integer_out_of_range(n, min, max);
}

/// What is read as an `i8` is read as an integer between the bounds of the type.
pub proof fn law_decode_i8(input: Input)
    ensures
        ({
            let (left, outcome) = input.decode_i8();
            let (same, integer) = input.parse_integer(-128, 127, "i8"@);
            &&& left == same
            &&& match (outcome, integer) {
                (Step::Done(value), Step::Done(n)) => value == n,
                (Step::Failed(message), Step::Failed(other)) => message == other,
                (Step::More, Step::More) => true,
                _ => false,
            }
        }),
{
    law_parse_integer(input, -128, 127, "i8"@);
}

/// What is read as an `i16` is read as an integer between the bounds of the type.
pub proof fn law_decode_i16(input: Input)
    ensures
        ({
            let (left, outcome) = input.decode_i16();
            let (same, integer) = input.parse_integer(-32768, 32767, "i16"@);
            &&& left == same
            &&& match (outcome, integer) {
                (Step::Done(value), Step::Done(n)) => value == n,
                (Step::Failed(message), Step::Failed(other)) => message == other,
                (Step::More, Step::More) => true,
                _ => false,
            }
        }),
{
    law_parse_integer(input, -32768, 32767, "i16"@);
}

/// What is read as an `i32` is read as an integer between the bounds of the type.
pub proof fn law_decode_i32(input: Input)
    ensures
        ({
            let (left, outcome) = input.decode_i32();
            let (same, integer) = input.parse_integer(-2147483648, 2147483647, "i32"@);
            &&& left == same
            &&& match (outcome, integer) {
                (Step::Done(value), Step::Done(n)) => value == n,
                (Step::Failed(message), Step::Failed(other)) => message == other,
                (Step::More, Step::More) => true,
                _ => false,
            }
        }),
{
    law_parse_integer(input, -2147483648, 2147483647, "i32"@);
}

/// What is read as an `i64` is read as an integer between the bounds of the type.
pub proof fn law_decode_i64(input: Input)
    ensures
        ({
            let (left, outcome) = input.decode_i64();
            let (same, integer) = input.parse_integer(-9223372036854775808, 9223372036854775807, "i64"@);
            &&& left == same
            &&& match (outcome, integer) {
                (Step::Done(value), Step::Done(n)) => value == n,
                (Step::Failed(message), Step::Failed(other)) => message == other,
                (Step::More, Step::More) => true,
                _ => false,
            }
        }),
{
    law_parse_integer(input, -9223372036854775808, 9223372036854775807, "i64"@);
}

/// What is read as a `u8` is read as an integer between the bounds of the type.
pub proof fn law_decode_u8(input: Input)
    ensures
        ({
            let (left, outcome) = input.decode_u8();
            let (same, integer) = input.parse_integer(0, 255, "u8"@);
            &&& left == same
            &&& match (outcome, integer) {
                (Step::Done(value), Step::Done(n)) => value == n,
                (Step::Failed(message), Step::Failed(other)) => message == other,
                (Step::More, Step::More) => true,
                _ => false,
            }
        }),
{
    law_parse_integer(input, 0, 255, "u8"@);
}

/// What is read as a `u16` is read as an integer between the bounds of the type.
pub proof fn law_decode_u16(input: Input)
    ensures
        ({
            let (left, outcome) = input.decode_u16();
            let (same, integer) = input.parse_integer(0, 65535, "u16"@);
            &&& left == same
            &&& match (outcome, integer) {
                (Step::Done(value), Step::Done(n)) => value == n,
                (Step::Failed(message), Step::Failed(other)) => message == other,
                (Step::More, Step::More) => true,
                _ => false,
            }
        }),
{
    law_parse_integer(input, 0, 65535, "u16"@);
}

/// What is read as a `u32` is read as an integer between the bounds of the type.
pub proof fn law_decode_u32(input: Input)
    ensures
        ({
            let (left, outcome) = input.decode_u32();
            let (same, integer) = input.parse_integer(0, 4294967295, "u32"@);
            &&& left == same
            &&& match (outcome, integer) {
                (Step::Done(value), Step::Done(n)) => value == n,
                (Step::Failed(message), Step::Failed(other)) => message == other,
                (Step::More, Step::More) => true,
                _ => false,
            }
        }),
{
    law_parse_integer(input, 0, 4294967295, "u32"@);
}

/// What is read as a `u64` is read as an integer between the bounds of the type.
pub proof fn law_decode_u64(input: Input)
    ensures
        ({
            let (left, outcome) = input.decode_u64();
            let (same, integer) = input.parse_integer(0, 18446744073709551615, "u64"@);
            &&& left == same
            &&& match (outcome, integer) {
                (Step::Done(value), Step::Done(n)) => value == n,
                (Step::Failed(message), Step::Failed(other)) => message == other,
                (Step::More, Step::More) => true,
                _ => false,
            }
        }),
{
    law_parse_integer(input, 0, 18446744073709551615, "u64"@);
}

/// After white space stands the byte.
pub open spec fn is_next(bytes: Seq<u8>, byte: u8) -> bool {
    exists|follows: Seq<u8>| after_space(bytes, #[trigger] (seq![byte] + follows))
}

/// The first byte that no number without a decimal point is written with is a decimal point.
pub open spec fn is_pointed(bytes: Seq<u8>) -> bool {
    exists|i: int|
        0 <= i < bytes.len() && #[trigger] bytes[i] == DECIMAL && forall|j: int|
            0 <= j < i ==> Class::Integral.has(#[trigger] bytes[j])
}

/// A number is an integer unless it has a decimal point, and it is then its text. Whether it has
/// one is known when a byte has come that is no part of an integer.
pub proof fn law_decode_number(input: Input)
    requires
        input.rest.len() > 0,
    ensures
        ({
            let (left, outcome) = input.decode_number();
            let goes_on = input.stage == Stage::Open && forall|i: int|
                0 <= i < input.rest.len() ==> Class::Integral.has(#[trigger] input.rest[i]);
            if goes_on {
                outcome is More && left == input
            } else if is_pointed(input.rest) {
                match (outcome, input.parse_number().1) {
                    (Step::Done(Number::Float(text)), Step::Done(same)) => text == same && left
                        == input.parse_number().0,
                    (Step::More, Step::More) => left == input.parse_number().0,
                    _ => false,
                }
            } else {
                match (outcome, input.decode_i64().1) {
                    (Step::Done(Number::Integer(n)), Step::Done(same)) => n == same && left
                        == input.decode_i64().0,
                    (Step::Failed(message), Step::Failed(same)) => message == same && left
                        == input.decode_i64().0,
                    (Step::More, Step::More) => left == input.decode_i64().0,
                    _ => false,
                }
            }
        }),
{
    lemma_run_bytes(input.rest, Class::Integral);
    law_parse_number(input);
    let len = run_len(input.rest, Class::Integral) as int;
    if is_pointed(input.rest) {
        let point = choose|i: int|
            0 <= i < input.rest.len() && #[trigger] input.rest[i] == DECIMAL && forall|j: int|
                0 <= j < i ==> Class::Integral.has(#[trigger] input.rest[j]);
        lemma_run_len(input.rest, Class::Integral, point as nat);
    } else if len < input.rest.len() {
        assert(input.rest[len] != DECIMAL);
    }
}

/// A number with a point in it is pointed, if it begins where it is looked at.
proof fn lemma_pointed(input: Input)
    requires
        input.rest.len() > 0,
        numeric(input.rest[0]),
    ensures
        input.parse_number().1 matches Step::Done(text) ==> {
            &&& text.len() > 0
            &&& text.contains('.') == is_pointed(input.rest)
        },
        input.parse_number().1 is More ==> input.stage == Stage::Open && input.parse_number().0
            == input && forall|i: int|
            0 <= i < input.rest.len() ==> numeric(#[trigger] input.rest[i]),
{
    lemma_run_len(input.rest, Class::Whitespace, 0);
    assert(input.rest.skip(0) =~= input.rest);
    lemma_run_bytes(input.rest, Class::Numeric);
    if let Step::Done(text) = input.parse_number().1 {
        let len = run_len(input.rest, Class::Numeric) as int;
        let digits = input.rest.take(len);
        assert(text == digits.map_values(|byte: u8| byte as char));
        lemma_point(input.rest, len);
        lemma_point_text(digits);
    }
}

/// There is a point in the text of bytes if and only if there is one among the bytes.
proof fn lemma_point_text(digits: Seq<u8>)
    ensures
        digits.map_values(|byte: u8| byte as char).contains('.') == digits.contains(DECIMAL),
{
    let text = digits.map_values(|byte: u8| byte as char);
    assert(DECIMAL as char == '.');
    if digits.contains(DECIMAL) {
        let at = choose|i: int| 0 <= i < digits.len() && digits[i] == DECIMAL;
        assert(text[at] == '.');
    }
    if text.contains('.') {
        let at = choose|i: int| 0 <= i < text.len() && text[i] == '.';
        assert(digits[at] as char == '.');
        assert(digits[at] == DECIMAL);
    }
}

/// There is a point among the bytes of a number if and only if it is pointed.
proof fn lemma_point(bytes: Seq<u8>, len: int)
    requires
        0 <= len <= bytes.len(),
        forall|i: int| 0 <= i < len ==> numeric(#[trigger] bytes[i]),
        len < bytes.len() ==> !numeric(bytes[len]),
    ensures
        bytes.take(len).contains(DECIMAL) == is_pointed(bytes),
{
    let digits = bytes.take(len);
    if is_pointed(bytes) {
        let point = choose|i: int|
            0 <= i < bytes.len() && #[trigger] bytes[i] == DECIMAL && forall|j: int|
                0 <= j < i ==> Class::Integral.has(#[trigger] bytes[j]);
        if len <= point {
            assert(len < point ==> Class::Integral.has(bytes[len]));
        }
        assert(digits[point] == DECIMAL);
    }
    if digits.contains(DECIMAL) {
        let at = choose|i: int| 0 <= i < digits.len() && digits[i] == DECIMAL;
        assert(bytes[at] == DECIMAL);
        lemma_first_point(bytes, at);
    }
}

/// Of the points among the bytes of a number one is the first.
proof fn lemma_first_point(bytes: Seq<u8>, at: int)
    requires
        0 <= at < bytes.len(),
        bytes[at] == DECIMAL,
        forall|i: int| 0 <= i < at ==> numeric(#[trigger] bytes[i]),
    ensures
        is_pointed(bytes),
    decreases at,
{
    if exists|i: int| 0 <= i < at && #[trigger] bytes[i] == DECIMAL {
        let before = choose|i: int| 0 <= i < at && #[trigger] bytes[i] == DECIMAL;
        lemma_first_point(bytes, before);
    }
}

/// A value whose type the document tells is what the reading of that type reads it as. What
/// begins like no value is left and refused.
pub proof fn law_decode_any(input: Input, expected: Seq<char>)
    ensures
        ({
            let (left, outcome) = input.decode_any(expected);
            &&& left.stage == input.stage
            &&& match outcome {
                Step::Done(Any::Text(text)) => input.decode_string() == (
                    left,
                    Step::<Seq<char>, Seq<char>>::Done(text),
                ),
                Step::Done(Any::MapBegin) => after_space(input.rest, seq![MAP_BEGIN] + left.rest),
                Step::Done(Any::ListBegin) => after_space(input.rest, seq![LIST_BEGIN] + left.rest),
                Step::Done(Any::Number(Number::Integer(n))) => input.decode_i64() == (
                    left,
                    Step::<i64, Seq<char>>::Done(n),
                ),
                Step::Done(Any::Number(Number::Float(text))) => text.contains('.')
                    && input.parse_number() == (left, Step::<Seq<char>, Seq<char>>::Done(text)),
                Step::Done(Any::Bool(value)) => after_space(
                    input.rest,
                    bool_notation(value) + left.rest,
                ),
                Step::Done(Any::Null) => after_space(input.rest, NULL@ + left.rest),
                Step::Failed(message) => is_no_value(input, left, message, expected),
                Step::More => {
                    &&& is_put_off(input, left)
                    &&& !blank(input.rest) ==> if left.rest[0] == QUOTE {
                        is_unended(left.rest.skip(1))
                    } else if numeric(left.rest[0]) {
                        forall|i: int|
                            0 <= i < left.rest.len() ==> numeric(#[trigger] left.rest[i])
                    } else {
                        &&& left.rest[0] != LIST_BEGIN && left.rest[0] != MAP_BEGIN
                        &&& left.rest.len() < 5
                        &&& !begins(left.rest, TRUE@) && !begins(left.rest, NULL@)
                    }
                },
            }
        }),
{
    law_expect_whitespace(input);
    let (there, dropped) = input.expect_whitespace();
    if dropped is Done && there.rest.len() > 0 {
        lemma_not_blank(input.rest, there.rest);
        assert(there.rest =~= seq![there.rest[0]] + there.rest.skip(1));
        assert(after_space(input.rest, seq![there.rest[0]] + there.rest.skip(1)));
        let first = there.rest[0];
        if first == QUOTE {
            law_parse_string(there);
            law_buffer_string(there);
        } else if numeric(first) {
            lemma_any_number(input, expected);
        } else if first != MAP_BEGIN && first != LIST_BEGIN {
            lemma_shown(there);
            lemma_begins(there.rest, TRUE@);
            lemma_begins(there.rest, FALSE@);
            lemma_begins(there.rest, NULL@);
        }
    }
}

/// There is no value to read: there is nothing, or a string or an integer that is refused, or
/// something that begins like no value.
pub open spec fn is_no_value(
    input: Input,
    left: Input,
    message: Seq<char>,
    expected: Seq<char>,
) -> bool {
    ||| {
        &&& input.stage == Stage::Closed
        &&& blank(input.rest)
        &&& left.rest.len() == 0
        &&& message == "unexpected end of stream"@
    }
    ||| {
        &&& is_next(input.rest, QUOTE)
        &&& input.decode_string() == (left, Step::<Seq<char>, Seq<char>>::Failed(message))
    }
    ||| {
        &&& input.decode_i64() == (left, Step::<i64, Seq<char>>::Failed(message))
        &&& input.parse_number().1 matches Step::Done(text) && text.len() > 0 && !text.contains('.')
    }
    ||| {
        &&& after_space(input.rest, left.rest)
        &&& left.rest.len() > 0
        &&& left.rest.len() < 5 ==> input.stage == Stage::Closed
        &&& left.rest[0] != QUOTE && left.rest[0] != LIST_BEGIN && left.rest[0] != MAP_BEGIN
        &&& !numeric(left.rest[0])
        &&& !begins(left.rest, TRUE@) && !begins(left.rest, FALSE@) && !begins(left.rest, NULL@)
        &&& is_refusal(message, "invalid value: "@, left.rest, expected)
    }
}

/// Where a number is next, the reading of a value of whatever type reads the number.
proof fn lemma_any_number(input: Input, expected: Seq<char>)
    requires
        input.expect_whitespace().1 is Done,
        input.expect_whitespace().0.rest.len() > 0,
        numeric(input.expect_whitespace().0.rest[0]),
    ensures
        ({
            let there = input.expect_whitespace().0;
            let (left, outcome) = input.decode_any(expected);
            &&& left.stage == input.stage
            &&& match outcome {
                Step::Done(Any::Number(Number::Integer(n))) => input.decode_i64() == (
                    left,
                    Step::<i64, Seq<char>>::Done(n),
                ),
                Step::Done(Any::Number(Number::Float(text))) => text.contains('.')
                    && input.parse_number() == (left, Step::<Seq<char>, Seq<char>>::Done(text)),
                Step::Done(_) => false,
                Step::Failed(message) => {
                    &&& input.decode_i64() == (left, Step::<i64, Seq<char>>::Failed(message))
                    &&& input.parse_number().1 matches Step::Done(text) && text.len() > 0
                        && !text.contains('.')
                },
                Step::More => {
                    &&& input.stage == Stage::Open
                    &&& left == there
                    &&& forall|i: int|
                        0 <= i < left.rest.len() ==> numeric(#[trigger] left.rest[i])
                },
            }
        }),
{
    law_expect_whitespace(input);
    let there = input.expect_whitespace().0;
    lemma_run_len(there.rest, Class::Whitespace, 0);
    assert(there.rest.skip(0) =~= there.rest);
    assert(there.expect_whitespace() == (there, Step::<(), Seq<char>>::Done(())));
    assert(there.numeral() == input.numeral());
    law_decode_number(there);
    lemma_pointed(there);
    law_parse_number(there);
    law_decode_i64(there);
    law_parse_integer(there, -9223372036854775808, 9223372036854775807, "i64"@);
}

/// A value that is not wanted is taken as the reading of its type takes it: a string, the text
/// of a number, a boolean; or a `null`, which is left, or nothing. Anything else is refused.
pub proof fn law_ignore_value(input: Input)
    ensures
        ({
            let (left, outcome) = input.ignore_value();
            &&& left.stage == input.stage
            &&& match outcome {
                Step::Done(Ignored::Checked) => {
                    ||| input.stage == Stage::Closed && blank(input.rest) && left.rest.len() == 0
                    ||| input.decode_string().1 is Done && left == input.decode_string().0
                    ||| after_space(input.rest, left.rest) && begins(left.rest, NULL@)
                    ||| after_space(input.rest, TRUE@ + left.rest)
                    ||| after_space(input.rest, FALSE@ + left.rest)
                },
                Step::Done(Ignored::Number(text)) => text.len() > 0 && input.parse_number() == (
                    left,
                    Step::<Seq<char>, Seq<char>>::Done(text),
                ),
                Step::Failed(message) => {
                    ||| {
                        &&& is_next(input.rest, QUOTE)
                        &&& input.decode_string() == (
                            left,
                            Step::<Seq<char>, Seq<char>>::Failed(message),
                        )
                    }
                    ||| {
                        &&& is_next(input.rest, 110)
                        &&& input.parse_unit() == (left, Step::<(), Seq<char>>::Failed(message))
                    }
                    ||| {
                        &&& left.rest.len() > 0
                        &&& left.rest[0] != QUOTE && left.rest[0] != 110 && !numeric(left.rest[0])
                        &&& input.parse_bool() == (left, Step::<bool, Seq<char>>::Failed(message))
                    }
                },
                Step::More => {
                    &&& is_put_off(input, left)
                    &&& !blank(input.rest) ==> if left.rest[0] == QUOTE {
                        is_unended(left.rest.skip(1))
                    } else if numeric(left.rest[0]) {
                        forall|i: int|
                            0 <= i < left.rest.len() ==> numeric(#[trigger] left.rest[i])
                    } else if left.rest[0] == 110 {
                        left.rest.len() < 4
                    } else {
                        left.rest.len() < 5 && !begins(left.rest, TRUE@)
                    }
                },
            }
        }),
{
    law_expect_whitespace(input);
    let (there, dropped) = input.expect_whitespace();
    if dropped is Done && there.rest.len() > 0 {
        lemma_not_blank(input.rest, there.rest);
        assert(there.rest =~= seq![there.rest[0]] + there.rest.skip(1));
        assert(after_space(input.rest, seq![there.rest[0]] + there.rest.skip(1)));
        let first = there.rest[0];
        if first == QUOTE {
            law_parse_string(there);
            law_buffer_string(there);
        } else if numeric(first) {
            lemma_run_len(there.rest, Class::Whitespace, 0);
            assert(there.rest.skip(0) =~= there.rest);
            assert(there.expect_whitespace() == (there, Step::<(), Seq<char>>::Done(())));
            assert(there.numeral() == input.numeral());
            lemma_pointed(there);
            law_parse_number(there);
        } else {
            lemma_begins(there.rest, TRUE@);
            lemma_begins(there.rest, FALSE@);
            lemma_begins(there.rest, NULL@);
        }
    }
}

/// Elements of a list are read one after the other only if a comma stands between them.
pub proof fn law_list_commas<T>(op: spec_fn(Input) -> Reading<T>, input: Input, limit: nat)
    ensures
        read_list(op, input, limit).1 matches Step::Done(values) ==> {
            let left = read_list(op, input, limit).0;
            let there = input.has_next(LIST_END).0;
            let after = op(there).0;
            if values.len() == 0 {
                after_space(input.rest, seq![LIST_END] + left.rest)
            } else {
                &&& op(there).1 == Step::<T, Seq<char>>::Done(values[0])
                &&& values.len() > 1 ==> exists|next: Seq<u8>|
                    after_space(after.rest, #[trigger] (seq![COMMA] + next)) && read_list(
                        op,
                        Input::of(next, after.stage),
                        (limit - 1) as nat,
                    ) == (left, Step::<Seq<T>, Seq<char>>::Done(values.skip(1)))
            }
        },
{
    if let Step::Done(values) = read_list(op, input, limit).1 {
        law_has_next(input, LIST_END);
        let (there, next) = input.has_next(LIST_END);
        if next == Step::<bool, Seq<char>>::Done(true) {
            let after = op(there).0;
            law_expect_comma_or(after, LIST_END);
            let (follows, _) = after.expect_comma_or(LIST_END);
            let inner = read_list(op, follows, (limit - 1) as nat);
            assert(values.skip(1) =~= inner.1->Done_0);
            assert(follows == Input::of(follows.rest, after.stage));
            if follows.rest.len() > 0 && follows.rest[0] == LIST_END {
                law_has_next(follows, LIST_END);
                lemma_at_once(follows.rest);
                let (at, ended) = follows.has_next(LIST_END);
                if ended == Step::<bool, Seq<char>>::Done(true) {
                    law_one_token(follows.rest, follows.rest, at.rest);
                }
            }
        }
    }
}

/// Bytes that do not begin with white space are their own token.
proof fn lemma_at_once(bytes: Seq<u8>)
    requires
        bytes.len() > 0,
        !whitespace(bytes[0]),
    ensures
        after_space(bytes, bytes),
{
    assert(bytes =~= Seq::<u8>::empty() + bytes);
    assert(blank(Seq::<u8>::empty()));
}

/// Entries of a map are read one after the other only if a comma stands between them, and a key
/// and its value only if a colon does.
pub proof fn law_map_commas<K, V>(
    key_op: spec_fn(Input) -> Reading<K>,
    op: spec_fn(Input) -> Reading<V>,
    input: Input,
    limit: nat,
)
    ensures
        read_map(key_op, op, input, limit).1 matches Step::Done(entries) ==> {
            let left = read_map(key_op, op, input, limit).0;
            let there = input.has_next(MAP_END).0;
            let (key_left, key) = key_op(there);
            if entries.len() == 0 {
                after_space(input.rest, seq![MAP_END] + left.rest)
            } else {
                &&& key == Step::<K, Seq<char>>::Done(entries[0].0)
                &&& exists|value: Seq<u8>| #[trigger]
                    after_colon(key_left.rest, value) && {
                        let (after, read) = op(Input::of(value, key_left.stage));
                        &&& read == Step::<V, Seq<char>>::Done(entries[0].1)
                        &&& entries.len() > 1 ==> exists|next: Seq<u8>|
                            after_space(after.rest, #[trigger] (seq![COMMA] + next)) && read_map(
                                key_op,
                                op,
                                Input::of(next, after.stage),
                                (limit - 1) as nat,
                            ) == (left, Step::<Seq<(K, V)>, Seq<char>>::Done(entries.skip(1)))
                    }
            }
        },
{
    if let Step::Done(entries) = read_map(key_op, op, input, limit).1 {
        law_has_next(input, MAP_END);
        let (there, next) = input.has_next(MAP_END);
        if next == Step::<bool, Seq<char>>::Done(true) {
            let key_left = key_op(there).0;
            law_begin_value(key_left, false);
            let value = key_left.begin_value(false).0;
            assert(value == Input::of(value.rest, key_left.stage));
            assert(after_colon(key_left.rest, value.rest));
            let after = op(value).0;
            law_expect_comma_or(after, MAP_END);
            let (follows, _) = after.expect_comma_or(MAP_END);
            let inner = read_map(key_op, op, follows, (limit - 1) as nat);
            assert(entries.skip(1) =~= inner.1->Done_0);
            assert(follows == Input::of(follows.rest, after.stage));
            if follows.rest.len() > 0 && follows.rest[0] == MAP_END {
                law_has_next(follows, MAP_END);
                lemma_at_once(follows.rest);
                let (at, ended) = follows.has_next(MAP_END);
                if ended == Step::<bool, Seq<char>>::Done(true) {
                    law_one_token(follows.rest, follows.rest, at.rest);
                }
            }
        }
    }
}

} // verus!
