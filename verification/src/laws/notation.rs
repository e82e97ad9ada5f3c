//! What is written is read: each reading gives back the value whose notation it comes upon,
//! drops the white space before it, and leaves what follows.

use vstd::prelude::*;
use vstd::utf8::*;

use crate::error::{invalid_type_text, invalid_value_text, unexpected_end_text};
use crate::input::{string_end, Input};
use crate::integer::{digits_value, integer_value, unsigned, IntegerError};
use crate::lexical::{
    lemma_run_bytes, lemma_run_len, numeric, run_len, whitespace, Class, DECIMAL, ESCAPE, FALSE,
    LIST_BEGIN, MAP_BEGIN, NULL, QUOTE, TRUE,
};
use crate::step::{Any, Ignored, Number, Stage, Step};
use crate::text::{base64_decoded, lemma_ascii_text};

verus! {

/// Nothing but white space.
pub open spec fn blank(space: Seq<u8>) -> bool {
    forall|i: int| 0 <= i < space.len() ==> whitespace(#[trigger] space[i])
}

/// White space before a token is dropped.
pub proof fn lemma_space(input: Input, space: Seq<u8>, token: Seq<u8>)
    requires
        blank(space),
        input.rest == space + token,
        token.len() > 0,
        !whitespace(token[0]),
    ensures
        input.expect_whitespace() == (
            Input::of(token, input.stage),
            Step::<(), Seq<char>>::Done(()),
        ),
{
    assert forall|i: int| 0 <= i < space.len() implies Class::Whitespace.has(
        #[trigger] input.rest[i],
    ) by {
        assert(input.rest[i] == space[i]);
    }
    assert(input.rest[space.len() as int] == token[0]);
    lemma_run_len(input.rest, Class::Whitespace, space.len());
    assert(input.rest.skip(space.len() as int) =~= token);
}

/// White space before a token makes no difference to the readings that drop it.
pub proof fn law_leading_space(
    input: Input,
    space: Seq<u8>,
    token: Seq<u8>,
    expected: Seq<char>,
    byte: u8,
)
    requires
        blank(space),
        input.rest == space + token,
        token.len() > 0,
        !whitespace(token[0]),
    ensures
        ({
            let there = Input::of(token, input.stage);
            &&& input.expect_comma_or(byte) == there.expect_comma_or(byte)
            &&& input.expect_token(byte) == there.expect_token(byte)
            &&& input.has_next(byte) == there.has_next(byte)
            &&& input.parse_bool() == there.parse_bool()
            &&& input.parse_unit() == there.parse_unit()
            &&& input.parse_number() == there.parse_number()
            &&& input.decode_i8() == there.decode_i8()
            &&& input.decode_i16() == there.decode_i16()
            &&& input.decode_i32() == there.decode_i32()
            &&& input.decode_i64() == there.decode_i64()
            &&& input.decode_u8() == there.decode_u8()
            &&& input.decode_u16() == there.decode_u16()
            &&& input.decode_u32() == there.decode_u32()
            &&& input.decode_u64() == there.decode_u64()
            &&& input.decode_string() == there.decode_string()
            &&& input.decode_option() == there.decode_option()
            &&& input.decode_any(expected) == there.decode_any(expected)
            &&& input.ignore_value() == there.ignore_value()
        }),
{
    lemma_space(input, space, token);
    lemma_space(Input::of(token, input.stage), Seq::empty(), token);
    assert(Seq::<u8>::empty() + token =~= token);
}

/// The notation of a boolean.
pub open spec fn bool_notation(value: bool) -> Seq<u8> {
    if value {
        TRUE@
    } else {
        FALSE@
    }
}

/// A boolean is read as what it is written as, whatever follows.
pub proof fn law_read_bool(input: Input, space: Seq<u8>, value: bool, tail: Seq<u8>)
    requires
        blank(space),
        input.rest == space + bool_notation(value) + tail,
    ensures
        input.parse_bool() == (
            Input::of(tail, input.stage),
            Step::<bool, Seq<char>>::Done(value),
        ),
        forall|expected: Seq<char>| #[trigger]
            input.decode_any(expected) == (
                Input::of(tail, input.stage),
                Step::<Any<Seq<char>>, Seq<char>>::Done(Any::Bool(value)),
            ),
        input.ignore_value() == (
            Input::of(tail, input.stage),
            Step::<Ignored<Seq<char>>, Seq<char>>::Done(Ignored::Checked),
        ),
{
    let token = bool_notation(value) + tail;
    assert(input.rest =~= space + token);
    lemma_space(input, space, token);
    assert(token.subrange(0, bool_notation(value).len() as int) =~= bool_notation(value));
    assert(token.skip(bool_notation(value).len() as int) =~= tail);
    if !value {
        assert(!TRUE@.is_prefix_of(token)) by {
            assert(token.subrange(0, 4)[0] == FALSE@[0]);
        }
        assert(!NULL@.is_prefix_of(token)) by {
            assert(token.subrange(0, 4)[0] == FALSE@[0]);
        }
    }
}

/// `null` is read as the lack of a value, whatever follows.
pub proof fn law_read_null(input: Input, space: Seq<u8>, tail: Seq<u8>)
    requires
        blank(space),
        input.rest == space + NULL@ + tail,
    ensures
        input.decode_option() == (
            Input::of(tail, input.stage),
            Step::<bool, Seq<char>>::Done(false),
        ),
        input.parse_unit() == (
            Input::of(NULL@ + tail, input.stage),
            Step::<(), Seq<char>>::Done(()),
        ),
        forall|expected: Seq<char>| #[trigger]
            input.decode_any(expected) == (
                Input::of(tail, input.stage),
                Step::<Any<Seq<char>>, Seq<char>>::Done(Any::Null),
            ),
        input.ignore_value() == (
            Input::of(NULL@ + tail, input.stage),
            Step::<Ignored<Seq<char>>, Seq<char>>::Done(Ignored::Checked),
        ),
{
    let token = NULL@ + tail;
    assert(input.rest =~= space + token);
    lemma_space(input, space, token);
    assert(token.subrange(0, 4) =~= NULL@);
    assert(token.skip(4) =~= tail);
    assert(!TRUE@.is_prefix_of(token)) by {
        assert(token.subrange(0, 4)[0] == NULL@[0]);
    }
}

/// The beginning of a list is told from that of a map, whatever follows.
pub proof fn law_read_any_begin(
    space: Seq<u8>,
    tail: Seq<u8>,
    stage: Stage,
    expected: Seq<char>,
)
    requires
        blank(space),
    ensures
        Input::of(space + seq![LIST_BEGIN] + tail, stage).decode_any(expected) == (
            Input::of(tail, stage),
            Step::<Any<Seq<char>>, Seq<char>>::Done(Any::ListBegin),
        ),
        Input::of(space + seq![MAP_BEGIN] + tail, stage).decode_any(expected) == (
            Input::of(tail, stage),
            Step::<Any<Seq<char>>, Seq<char>>::Done(Any::MapBegin),
        ),
{
    let list = seq![LIST_BEGIN] + tail;
    let map = seq![MAP_BEGIN] + tail;
    assert(space + seq![LIST_BEGIN] + tail =~= space + list);
    assert(space + seq![MAP_BEGIN] + tail =~= space + map);
    lemma_space(Input::of(space + list, stage), space, list);
    lemma_space(Input::of(space + map, stage), space, map);
    assert(list.skip(1) =~= tail);
    assert(map.skip(1) =~= tail);
}

/// A value is not taken for the lack of one, and is left to be read, if four bytes of it and of
/// what follows are at hand, or all that there are.
pub proof fn law_read_option(input: Input, space: Seq<u8>, token: Seq<u8>)
    requires
        blank(space),
        input.rest == space + token,
        token.len() > 0,
        !whitespace(token[0]),
        !NULL@.is_prefix_of(token),
        token.len() < 4 ==> input.stage == Stage::Closed,
    ensures
        input.decode_option() == (
            Input::of(token, input.stage),
            Step::<bool, Seq<char>>::Done(true),
        ),
{
    lemma_space(input, space, token);
}

/// A string whose body holds no quote that would end it is read as its body, as it is,
/// whatever follows.
pub proof fn law_read_string(input: Input, space: Seq<u8>, body: Seq<u8>, tail: Seq<u8>)
    requires
        blank(space),
        input.rest == space + seq![QUOTE] + body + seq![QUOTE] + tail,
        forall|i: int|
            0 <= i < body.len() && #[trigger] body[i] == QUOTE ==> i > 0 && body[i - 1] == ESCAPE,
        body.len() > 0 ==> body.last() != ESCAPE,
        valid_utf8(body),
    ensures
        input.decode_string() == (
            Input::of(tail, input.stage),
            Step::<Seq<char>, Seq<char>>::Done(decode_utf8(body)),
        ),
        forall|expected: Seq<char>| #[trigger]
            input.decode_any(expected) == (
                Input::of(tail, input.stage),
                Step::<Any<Seq<char>>, Seq<char>>::Done(Any::Text(decode_utf8(body))),
            ),
        input.ignore_value() == (
            Input::of(tail, input.stage),
            Step::<Ignored<Seq<char>>, Seq<char>>::Done(Ignored::Checked),
        ),
{
    let token = seq![QUOTE] + body + seq![QUOTE] + tail;
    let rest = body + seq![QUOTE] + tail;
    assert(input.rest =~= space + token);
    lemma_space(input, space, token);
    assert(token.skip(1) =~= rest);
    lemma_body_end(body, tail, 0);
    assert(rest.take(body.len() as int) =~= body);
    assert(rest.skip(body.len() as int + 1) =~= tail);
}

/// The string ends after its body.
proof fn lemma_body_end(body: Seq<u8>, tail: Seq<u8>, from: nat)
    requires
        from <= body.len(),
        forall|i: int|
            0 <= i < body.len() && #[trigger] body[i] == QUOTE ==> i > 0 && body[i - 1] == ESCAPE,
        body.len() > 0 ==> body.last() != ESCAPE,
    ensures
        string_end(body + seq![QUOTE] + tail, from) == Some(body.len()),
    decreases body.len() - from,
{
    let rest = body + seq![QUOTE] + tail;
    if from < body.len() {
        assert(rest[from as int] == body[from as int]);
        if from > 0 {
            assert(rest[from - 1] == body[from - 1]);
        }
        lemma_body_end(body, tail, from + 1);
    } else {
        assert(rest[from as int] == QUOTE);
        if from > 0 {
            assert(rest[from - 1] == body.last());
        }
    }
}

/// Which bytes a character is encoded with: one that is the character, or several that are no
/// ASCII characters.
proof fn lemma_encode_scalar(c: char)
    ensures
        ({
            let bytes = encode_scalar(c as u32);
            if (c as u32) < 0x80 {
                bytes == seq![c as u8] && (c as u8) as char == c
            } else {
                bytes.len() > 0 && forall|i: int| 0 <= i < bytes.len() ==> #[trigger] bytes[i] >= 0x80
            }
        }),
{
    let scalar = c as u32;
    char_is_scalar(c);
    if scalar < 0x80 {
        assert(leading_byte_width_1(scalar) == scalar as u8) by (bit_vector)
            requires
                scalar < 0x80,
        ;
    } else {
        assert(leading_byte_width_2(scalar) >= 0x80 && leading_byte_width_3(scalar) >= 0x80
            && leading_byte_width_4(scalar) >= 0x80 && last_continuation_byte(scalar) >= 0x80
            && second_last_continuation_byte(scalar) >= 0x80 && third_last_continuation_byte(scalar)
            >= 0x80) by (bit_vector);
    }
}

/// In the encoding of a text, as in the text, every quote is escaped, and the last byte is no
/// escape. `escaped` tells whether an escape comes before the text.
proof fn lemma_encode_quotes(text: Seq<char>, escaped: bool)
    requires
        forall|i: int|
            0 <= i < text.len() && #[trigger] text[i] == '"' ==> if i == 0 {
                escaped
            } else {
                text[i - 1] == '\\'
            },
        text.len() > 0 ==> text.last() != '\\',
    ensures
        ({
            let bytes = encode_utf8(text);
            &&& forall|i: int|
                0 <= i < bytes.len() && #[trigger] bytes[i] == QUOTE ==> if i == 0 {
                    escaped
                } else {
                    bytes[i - 1] == ESCAPE
                }
            &&& text.len() > 0 ==> bytes.len() > 0
            &&& bytes.len() > 0 ==> bytes.last() != ESCAPE
        }),
    decreases text.len(),
{
    if text.len() > 0 {
        let first = encode_scalar(text[0] as u32);
        let rest = text.drop_first();
        lemma_encode_scalar(text[0]);
        assert forall|i: int| 0 <= i < rest.len() && #[trigger] rest[i] == '"' implies if i == 0 {
            text[0] == '\\'
        } else {
            rest[i - 1] == '\\'
        } by {
            assert(text[i + 1] == '"');
        }
        lemma_encode_quotes(rest, text[0] == '\\');
        let bytes = encode_utf8(text);
        assert forall|i: int| 0 <= i < bytes.len() && #[trigger] bytes[i] == QUOTE implies if i == 0 {
            escaped
        } else {
            bytes[i - 1] == ESCAPE
        } by {
            if i < first.len() {
                assert(first[i] == QUOTE);
                assert(QUOTE as char == '"');
                assert(text[0] == '"');
            } else {
                assert(encode_utf8(rest)[i - first.len()] == QUOTE);
                if i == first.len() {
                    assert(bytes[i - 1] == first[i - 1]);
                }
            }
        }
        if rest.len() == 0 {
            assert(bytes =~= first);
            assert(text.last() == text[0]);
            assert(bytes.last() == first[first.len() - 1]);
            assert(ESCAPE as char == '\\');
        } else {
            assert(bytes.last() == encode_utf8(rest).last());
        }
    }
}

/// A text in which every quote follows a backslash, and whose last character is no backslash,
/// is read back from between its quotes, with its backslashes. Where bytes are wanted, and no
/// white space comes first, it is read as what it stands for in base64.
pub proof fn law_read_text(input: Input, space: Seq<u8>, text: Seq<char>, tail: Seq<u8>)
    requires
        blank(space),
        input.rest == space + seq![QUOTE] + encode_utf8(text) + seq![QUOTE] + tail,
        forall|i: int|
            0 <= i < text.len() && #[trigger] text[i] == '"' ==> i > 0 && text[i - 1] == '\\',
        text.len() > 0 ==> text.last() != '\\',
    ensures
        input.decode_string() == (
            Input::of(tail, input.stage),
            Step::<Seq<char>, Seq<char>>::Done(text),
        ),
        space.len() == 0 ==> input.decode_byte_buf() == (
            Input::of(tail, input.stage),
            match base64_decoded(text) {
                Ok(bytes) => Step::<Seq<u8>, Seq<char>>::Done(bytes),
                Err(message) => Step::Failed(message),
            },
        ),
{
    lemma_encode_quotes(text, false);
    encode_utf8_valid_utf8(text);
    encode_utf8_decode_utf8(text);
    law_read_string(input, space, encode_utf8(text), tail);
    if space.len() == 0 {
        lemma_space(input, space, input.rest);
    }
}

/// The decimal notation of a natural number.
pub open spec fn decimal(n: nat) -> Seq<u8>
    decreases n,
{
    if n < 10 {
        seq![('0' as u8 + n) as u8]
    } else {
        decimal(n / 10).push(('0' as u8 + n % 10) as u8)
    }
}

/// The decimal notation of an integer.
pub open spec fn notation(n: int) -> Seq<u8> {
    if n < 0 {
        seq!['-' as u8] + decimal((-n) as nat)
    } else {
        decimal(n as nat)
    }
}

proof fn lemma_decimal(n: nat)
    ensures
        decimal(n).len() > 0,
        forall|i: int| 0 <= i < decimal(n).len() ==> Class::Digit.has(#[trigger] decimal(n)[i]),
        digits_value(decimal(n)) == n,
    decreases n,
{
    if n < 10 {
        assert(decimal(n).drop_last() =~= Seq::<u8>::empty());
        assert(digits_value(decimal(n)) == 10 * digits_value(decimal(n).drop_last()) + n);
    } else {
        lemma_decimal(n / 10);
        assert(decimal(n).drop_last() =~= decimal(n / 10));
    }
}

/// The notation of an integer stands for it.
pub proof fn law_integer_notation(n: int, min: int, max: int)
    requires
        min <= n <= max,
        min <= 0 <= max,
    ensures
        integer_value(notation(n), min, max) == Ok::<int, IntegerError>(n),
        notation(n).len() > 0,
        forall|i: int| 0 <= i < notation(n).len() ==> numeric(#[trigger] notation(n)[i]),
{
    let magnitude = if n < 0 {
        -n
    } else {
        n
    } as nat;
    let digits = decimal(magnitude);
    lemma_decimal(magnitude);
    assert(Class::Digit.has(digits[0]));
    assert(unsigned(notation(n), min) =~= digits);
    lemma_run_len(digits, Class::Digit, digits.len());
    assert(digits.take(digits.len() as int) =~= digits);
}

/// An integer is read as what it is written as, if something follows that is no part of a
/// number, or the end of the document.
pub proof fn law_read_integer(
    input: Input,
    space: Seq<u8>,
    n: int,
    tail: Seq<u8>,
    min: int,
    max: int,
    name: Seq<char>,
)
    requires
        blank(space),
        min <= n <= max,
        min <= 0 <= max,
        input.rest == space + notation(n) + tail,
        if tail.len() > 0 {
            !numeric(tail[0])
        } else {
            input.stage == Stage::Closed
        },
    ensures
        input.parse_integer(min, max, name) == (
            Input::of(tail, input.stage),
            Step::<int, Seq<char>>::Done(n),
        ),
{
    let digits = notation(n);
    let token = digits + tail;
    law_integer_notation(n, min, max);
    assert(numeric(digits[0]));
    assert(input.rest =~= space + token);
    lemma_space(input, space, token);
    assert forall|i: int| 0 <= i < digits.len() implies Class::Numeric.has(#[trigger] token[i]) by {
        assert(token[i] == digits[i]);
    }
    if tail.len() > 0 {
        assert(token[digits.len() as int] == tail[0]);
    }
    lemma_run_len(token, Class::Numeric, digits.len());
    assert(token.take(digits.len() as int) =~= digits);
    assert(token.skip(digits.len() as int) =~= tail);
    if tail.len() == 0 {
        assert(token =~= digits);
        assert(tail =~= Seq::<u8>::empty());
    }
}

/// An `i64` is read where the document tells the type, if something follows that is no part of
/// a number, or the end of the document.
pub proof fn law_read_any_integer(
    input: Input,
    space: Seq<u8>,
    n: i64,
    tail: Seq<u8>,
    expected: Seq<char>,
)
    requires
        blank(space),
        input.rest == space + notation(n as int) + tail,
        if tail.len() > 0 {
            !numeric(tail[0])
        } else {
            input.stage == Stage::Closed
        },
    ensures
        input.decode_any(expected) == (
            Input::of(tail, input.stage),
            Step::<Any<Seq<char>>, Seq<char>>::Done(Any::Number(Number::Integer(n))),
        ),
{
    let digits = notation(n as int);
    let token = digits + tail;
    let there = Input::of(token, input.stage);
    law_integer_notation(n as int, i64::MIN as int, i64::MAX as int);
    assert(numeric(digits[0]));
    assert(input.rest =~= space + token);
    lemma_space(input, space, token);
    lemma_integral(n as int);
    assert forall|i: int| 0 <= i < digits.len() implies Class::Integral.has(#[trigger] token[i]) by {
        assert(token[i] == digits[i]);
    }
    if tail.len() > 0 {
        assert(token[digits.len() as int] == tail[0]);
    }
    lemma_run_len(token, Class::Integral, digits.len());
    assert(Seq::<u8>::empty() + digits + tail =~= token);
    law_read_integer(
        there,
        Seq::empty(),
        n as int,
        tail,
        i64::MIN as int,
        i64::MAX as int,
        "i64"@,
    );
}

/// There is no decimal point in the notation of an integer.
proof fn lemma_integral(n: int)
    ensures
        forall|i: int| 0 <= i < notation(n).len() ==> Class::Integral.has(#[trigger] notation(n)[i]),
{
    if n < 0 {
        lemma_decimal((-n) as nat);
    } else {
        lemma_decimal(n as nat);
    }
}

/// A number is read as the text that it is written as, if something follows that is no part
/// of a number, or the end of the document. So is, where the document tells the type, one with
/// a decimal point.
pub proof fn law_read_number(
    input: Input,
    space: Seq<u8>,
    digits: Seq<u8>,
    tail: Seq<u8>,
    expected: Seq<char>,
)
    requires
        blank(space),
        digits.len() > 0,
        forall|i: int| 0 <= i < digits.len() ==> numeric(#[trigger] digits[i]),
        input.rest == space + digits + tail,
        if tail.len() > 0 {
            !numeric(tail[0])
        } else {
            input.stage == Stage::Closed
        },
    ensures
        input.parse_number() == (
            Input::of(tail, input.stage),
            Step::<Seq<char>, Seq<char>>::Done(digits.map_values(|byte: u8| byte as char)),
        ),
        digits.contains(DECIMAL) ==> input.decode_any(expected) == (
            Input::of(tail, input.stage),
            Step::<Any<Seq<char>>, Seq<char>>::Done(
                Any::Number(Number::Float(digits.map_values(|byte: u8| byte as char))),
            ),
        ),
        input.ignore_value() == (
            Input::of(tail, input.stage),
            Step::<Ignored<Seq<char>>, Seq<char>>::Done(
                Ignored::Number(digits.map_values(|byte: u8| byte as char)),
            ),
        ),
{
    let token = digits + tail;
    let there = Input::of(token, input.stage);
    assert(numeric(digits[0]));
    assert(input.rest =~= space + token);
    lemma_space(input, space, token);
    assert(Seq::<u8>::empty() + token =~= token);
    lemma_space(there, Seq::empty(), token);
    assert forall|i: int| 0 <= i < digits.len() implies Class::Numeric.has(#[trigger] token[i]) by {
        assert(token[i] == digits[i]);
    }
    if tail.len() > 0 {
        assert(token[digits.len() as int] == tail[0]);
    }
    lemma_run_len(token, Class::Numeric, digits.len());
    assert(token.take(digits.len() as int) =~= digits);
    assert(token.skip(digits.len() as int) =~= tail);
    if tail.len() == 0 {
        assert(token =~= digits);
        assert(tail =~= Seq::<u8>::empty());
    }
    if digits.contains(DECIMAL) {
        let point = choose|i: int| 0 <= i < digits.len() && digits[i] == DECIMAL;
        lemma_run_bytes(token, Class::Integral);
        let len = run_len(token, Class::Integral);
        if len > point {
            assert(Class::Integral.has(token[point]));
        }
        assert(Class::Numeric.has(token[len as int]));
    }
}

/// Where there is nothing but white space before the end of the document, a boolean, a `null`,
/// a string, an integer and a value of whatever type are not found; the text of a number is
/// empty there, an optional value is not told to be lacking, and a value that is not wanted is
/// not missed.
pub proof fn law_read_nothing(input: Input, min: int, max: int, name: Seq<char>, expected: Seq<char>)
    requires
        input.stage == Stage::Closed,
        blank(input.rest),
    ensures
        ({
            let end = Input::of(Seq::empty(), Stage::Closed);
            let message = unexpected_end_text();
            &&& input.expect_whitespace() == (end, Step::<(), Seq<char>>::Done(()))
            &&& input.parse_bool() == (end, Step::<bool, Seq<char>>::Failed(message))
            &&& input.parse_unit() == (
                end,
                Step::<(), Seq<char>>::Failed(invalid_type_text(Seq::empty(), "null"@)),
            )
            &&& input.decode_string() == (end, Step::<Seq<char>, Seq<char>>::Failed(message))
            &&& input.parse_number() == (end, Step::<Seq<char>, Seq<char>>::Done(Seq::empty()))
            &&& input.decode_option() == (end, Step::<bool, Seq<char>>::Done(true))
            &&& input.parse_integer(min, max, name) == (
                end,
                Step::<int, Seq<char>>::Failed(
                    invalid_value_text(IntegerError::Empty.message(), name),
                ),
            )
            &&& input.decode_any(expected) == (
                end,
                Step::<Any<Seq<char>>, Seq<char>>::Failed(message),
            )
            &&& input.ignore_value() == (
                end,
                Step::<Ignored<Seq<char>>, Seq<char>>::Done(Ignored::Checked),
            )
        }),
{
    lemma_run_len(input.rest, Class::Whitespace, input.rest.len());
    lemma_run_bytes(Seq::empty(), Class::Numeric);
    let end = Input::of(Seq::empty(), Stage::Closed);
    lemma_ascii_text(Seq::empty());
    assert(end.rest.take(0) =~= Seq::<u8>::empty());
    assert(Seq::<u8>::empty().map_values(|byte: u8| byte as char) =~= Seq::<char>::empty());
}

/// What begins like no value is refused where the document tells the type, if five bytes of it
/// and of what follows are at hand, or all that there are. The message names them, up to five.
pub proof fn law_read_unknown(
    input: Input,
    space: Seq<u8>,
    token: Seq<u8>,
    expected: Seq<char>,
)
    requires
        blank(space),
        input.rest == space + token,
        token.len() > 0,
        !whitespace(token[0]),
        token[0] != QUOTE && token[0] != MAP_BEGIN && token[0] != LIST_BEGIN,
        !numeric(token[0]),
        !TRUE@.is_prefix_of(token),
        !FALSE@.is_prefix_of(token),
        !NULL@.is_prefix_of(token),
        token.len() < 5 ==> input.stage == Stage::Closed,
    ensures
        ({
            let there = Input::of(token, input.stage);
            input.decode_any(expected) == (
                there,
                Step::<Any<Seq<char>>, Seq<char>>::Failed(
                    match there.head_text() {
                        Ok(text) => invalid_value_text(text, expected),
                        Err(message) => message,
                    },
                ),
            )
        }),
{
    lemma_space(input, space, token);
}

} // verus!
