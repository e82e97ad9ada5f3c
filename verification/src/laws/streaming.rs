//! Readings and the arrival of the document.
//!
//! A reading is a function from what a decoder has before it to what it leaves and an outcome.
//! The laws here say how readings and the arrival of the document go together.

use vstd::prelude::*;

use crate::input::{string_end, Input, Reading};
use crate::lexical::{
    lemma_run_bytes, lemma_run_len, numeric, run_len, whitespace, Class, COLON, COMMA, FALSE,
    LIST_BEGIN, MAP_BEGIN, NULL, QUOTE, TRUE,
};
use crate::step::{Stage, Step};

verus! {

/// At the given input, which is still open, what the source hands over next does not come too
/// late for a reading and does not disturb it: a reading that was put off comes, when it is
/// repeated, to what it comes to if the data was there from the start, and one that was not
/// put off would have had the same outcome.
pub open spec fn streams_at<T>(
    op: spec_fn(Input) -> Reading<T>,
    input: Input,
    data: Option<Seq<u8>>,
) -> bool {
    &&& op(input).0.stage == Stage::Open
    &&& match op(input).1 {
        Step::More => op(op(input).0.buffer(data)) == op(input.buffer(data)),
        outcome => op(input.buffer(data)) == (op(input).0.buffer(data), outcome),
    }
}

/// `streams_at`, for every open input and whatever comes next.
pub open spec fn streams<T>(op: spec_fn(Input) -> Reading<T>) -> bool {
    forall|input: Input, data: Option<Seq<u8>>|
        input.stage == Stage::Open ==> #[trigger] streams_at(op, input, data)
}

/// An input that is open and begins with something other than white space.
pub open spec fn at_token(input: Input) -> bool {
    input.stage == Stage::Open && input.rest.len() > 0 && !whitespace(input.rest[0])
}

/// The reading that drops white space first.
pub open spec fn trimmed<T>(here: spec_fn(Input) -> Reading<T>) -> spec_fn(Input) -> Reading<T> {
    |input: Input|
        match input.expect_whitespace() {
            (input, Step::Done(_)) => here(input),
            (input, _) => (input, Step::More),
        }
}

/// A run that ends within the bytes at hand is not changed by those that follow.
proof fn lemma_run_len_append(bytes: Seq<u8>, more: Seq<u8>, class: Class)
    requires
        run_len(bytes, class) < bytes.len(),
    ensures
        run_len(bytes + more, class) == run_len(bytes, class),
{
    lemma_run_bytes(bytes, class);
    let len = run_len(bytes, class);
    assert forall|i: int| 0 <= i < len implies class.has(#[trigger] (bytes + more)[i]) by {
        assert((bytes + more)[i] == bytes[i]);
    }
    lemma_run_len(bytes + more, class, len);
}

/// A string that ends within the bytes at hand is not changed by those that follow.
proof fn lemma_string_end_append(bytes: Seq<u8>, more: Seq<u8>, from: nat)
    ensures
        string_end(bytes, from) matches Some(end) ==> {
            &&& from <= end < bytes.len()
            &&& string_end(bytes + more, from) == Some(end)
        },
    decreases bytes.len() - from,
{
    if from < bytes.len() {
        lemma_string_end_append(bytes, more, from + 1);
    }
}

/// Taking bytes and getting more of them go in either order.
proof fn lemma_after_buffer(input: Input, taken: int, data: Option<Seq<u8>>)
    requires
        0 <= taken <= input.rest.len(),
    ensures
        input.after(taken).buffer(data) == input.buffer(data).after(taken),
{
    match data {
        Some(bytes) => {
            assert(input.rest.skip(taken) + bytes =~= (input.rest + bytes).skip(taken));
        },
        None => {},
    }
}

proof fn lemma_buffer_while_streams(input: Input, data: Option<Seq<u8>>, class: Class)
    requires
        input.stage == Stage::Open,
    ensures
        streams_at(|i: Input| i.buffer_while(class), input, data),
{
    lemma_run_bytes(input.rest, class);
    let len = run_len(input.rest, class);
    if len < input.rest.len() {
        lemma_after_buffer(input, len as int, data);
        if let Some(bytes) = data {
            lemma_run_len_append(input.rest, bytes, class);
            assert((input.rest + bytes).take(len as int) =~= input.rest.take(len as int));
        }
    }
}

proof fn lemma_expect_whitespace_streams(input: Input, data: Option<Seq<u8>>)
    requires
        input.stage == Stage::Open,
    ensures
        streams_at(|i: Input| i.expect_whitespace(), input, data),
        input.expect_whitespace().1 is Done ==> at_token(input.expect_whitespace().0),
        !(input.expect_whitespace().1 is Failed),
{
    lemma_buffer_while_streams(input, data, Class::Whitespace);
    lemma_run_bytes(input.rest, Class::Whitespace);
}

/// White space is dropped once.
pub(crate) proof fn lemma_at_token(input: Input)
    requires
        input.rest.len() > 0,
        !whitespace(input.rest[0]),
    ensures
        input.expect_whitespace() == (input, Step::<(), Seq<char>>::Done(())),
{
    lemma_run_len(input.rest, Class::Whitespace, 0);
    assert(input.rest.skip(0) =~= input.rest);
}

/// A reading that streams at a token streams at the white space before it as well.
proof fn lemma_trimmed_streams_at<T>(
    here: spec_fn(Input) -> Reading<T>,
    input: Input,
    data: Option<Seq<u8>>,
)
    requires
        input.stage == Stage::Open,
        input.expect_whitespace().1 is Done ==> {
            let token = input.expect_whitespace().0;
            &&& streams_at(here, token, data)
            &&& here(token).1 is More ==> here(token).0 == token
        },
    ensures
        streams_at(trimmed(here), input, data),
{
    let op = trimmed(here);
    lemma_expect_whitespace_streams(input, data);
    let (token, dropped) = input.expect_whitespace();
    if dropped is Done {
        let next = token.buffer(data);
        assert(next.rest[0] == token.rest[0]);
        lemma_at_token(next);
        assert(input.buffer(data).expect_whitespace().0 == next);
        assert(op(input) == here(token));
        assert(op(next) == here(next));
        assert(op(input.buffer(data)) == here(next));
    }
}

/// A reading that streams at the tokens streams after white space as well.
pub(crate) proof fn lemma_trimmed_streams<T>(here: spec_fn(Input) -> Reading<T>)
    requires
        forall|input: Input, data: Option<Seq<u8>>|
            at_token(input) ==> #[trigger] streams_at(here, input, data),
        forall|input: Input|
            at_token(input) && (#[trigger] here(input)).1 is More ==> here(input).0 == input,
    ensures
        streams(trimmed(here)),
{
    let op = trimmed(here);
    assert forall|input: Input, data: Option<Seq<u8>>| input.stage == Stage::Open implies
        #[trigger] streams_at(op, input, data) by {
        lemma_expect_whitespace_streams(input, data);
        lemma_trimmed_streams_at(here, input, data);
    }
}

/// The first bytes are not changed by those that follow.
proof fn lemma_prefix_append(word: Seq<u8>, bytes: Seq<u8>, more: Seq<u8>)
    requires
        word.len() <= bytes.len(),
    ensures
        word.is_prefix_of(bytes + more) == word.is_prefix_of(bytes),
{
    assert((bytes + more).subrange(0, word.len() as int) =~= bytes.subrange(0, word.len() as int));
}

/// `streams` holds of [`Input::expect_byte`] and [`Input::maybe_byte`].
pub proof fn law_byte_streams(byte: u8)
    ensures
        streams(|i: Input| i.expect_byte(byte)),
        streams(|i: Input| i.maybe_byte(byte)),
{
    let expect = |i: Input| i.expect_byte(byte);
    let maybe = |i: Input| i.maybe_byte(byte);
    assert forall|input: Input, data: Option<Seq<u8>>| input.stage == Stage::Open implies
        #[trigger] streams_at(expect, input, data) by {
        if input.rest.len() > 0 {
            lemma_after_buffer(input, 1, data);
        }
    }
    assert forall|input: Input, data: Option<Seq<u8>>| input.stage == Stage::Open implies
        #[trigger] streams_at(maybe, input, data) by {
        if input.rest.len() > 0 {
            lemma_after_buffer(input, 1, data);
        }
    }
}

/// `streams` holds of [`Input::buffer_while`].
pub proof fn law_buffer_while_streams(class: Class)
    ensures
        streams(|i: Input| i.buffer_while(class)),
{
    let op = |i: Input| i.buffer_while(class);
    assert forall|input: Input, data: Option<Seq<u8>>| input.stage == Stage::Open implies
        #[trigger] streams_at(op, input, data) by {
        lemma_buffer_while_streams(input, data, class);
    }
}

/// `streams` holds of [`Input::expect_whitespace`].
pub proof fn law_expect_whitespace_streams()
    ensures
        streams(|i: Input| i.expect_whitespace()),
{
    let op = |i: Input| i.expect_whitespace();
    assert forall|input: Input, data: Option<Seq<u8>>| input.stage == Stage::Open implies
        #[trigger] streams_at(op, input, data) by {
        lemma_expect_whitespace_streams(input, data);
    }
}

/// `streams` holds of [`Input::expect_comma_or`], [`Input::expect_token`] and
/// [`Input::has_next`].
pub proof fn law_delimiter_streams(byte: u8)
    ensures
        streams(|i: Input| i.expect_comma_or(byte)),
        streams(|i: Input| i.expect_token(byte)),
        streams(|i: Input| i.has_next(byte)),
{
    let comma = |i: Input|
        if i.rest.len() > 0 && i.rest[0] == byte {
            (i, Step::Done(()))
        } else {
            i.expect_byte(COMMA)
        };
    let token = |i: Input| i.expect_byte(byte);
    let next = |i: Input|
        match i.maybe_byte(byte) {
            (i, Step::Done(ended)) => (i, Step::Done(!ended)),
            (i, _) => (i, Step::More),
        };
    law_byte_streams(byte);
    law_byte_streams(COMMA);
    assert forall|input: Input, data: Option<Seq<u8>>| at_token(input) implies #[trigger] streams_at(
        comma,
        input,
        data,
    ) by {
        assert(streams_at(|i: Input| i.expect_byte(COMMA), input, data));
    }
    lemma_trimmed_streams(comma);
    assert forall|input: Input, data: Option<Seq<u8>>| at_token(input) implies #[trigger] streams_at(
        token,
        input,
        data,
    ) by {
        assert(streams_at(|i: Input| i.expect_byte(byte), input, data));
    }
    lemma_trimmed_streams(token);
    assert forall|input: Input, data: Option<Seq<u8>>| at_token(input) implies #[trigger] streams_at(
        next,
        input,
        data,
    ) by {
        assert(streams_at(|i: Input| i.maybe_byte(byte), input, data));
    }
    lemma_trimmed_streams(next);
    lemma_same_streams(trimmed(comma), |i: Input| i.expect_comma_or(byte));
    lemma_same_streams(trimmed(token), |i: Input| i.expect_token(byte));
    lemma_same_streams(trimmed(next), |i: Input| i.has_next(byte));
}

/// What is said of a reading holds of one that is the same everywhere.
pub(crate) proof fn lemma_same_streams<T>(
    op: spec_fn(Input) -> Reading<T>,
    same: spec_fn(Input) -> Reading<T>,
)
    requires
        streams(op),
        forall|input: Input| #[trigger] op(input) == same(input),
    ensures
        streams(same),
{
    assert(op =~= same);
}

/// `streams` holds of [`Input::buffer_string`].
pub proof fn law_buffer_string_streams()
    ensures
        streams(|i: Input| i.buffer_string()),
{
    let op = |i: Input| i.buffer_string();
    assert forall|input: Input, data: Option<Seq<u8>>| input.stage == Stage::Open implies
        #[trigger] streams_at(op, input, data) by {
        if input.rest.len() > 0 {
            let body = input.after(1);
            lemma_after_buffer(input, 1, data);
            let more = match data {
                Some(bytes) => bytes,
                None => Seq::<u8>::empty(),
            };
            lemma_string_end_append(body.rest, more, 0);
            if let Some(end) = string_end(body.rest, 0) {
                lemma_after_buffer(body, end as int + 1, data);
                assert((body.rest + more).take(end as int) =~= body.rest.take(end as int));
            }
        }
    }
}

/// `streams` holds of [`Input::parse_string`], [`Input::decode_string`] and
/// [`Input::decode_byte_buf`].
pub proof fn law_string_streams()
    ensures
        streams(|i: Input| i.parse_string()),
        streams(|i: Input| i.decode_string()),
        streams(|i: Input| i.decode_byte_buf()),
{
    let raw = |i: Input| i.buffer_string();
    let text = |i: Input| i.parse_string();
    let bytes = |i: Input| i.decode_byte_buf();
    law_buffer_string_streams();
    assert forall|input: Input, data: Option<Seq<u8>>| input.stage == Stage::Open implies
        #[trigger] streams_at(text, input, data) by {
        assert(streams_at(raw, input, data));
    }
    assert forall|input: Input, data: Option<Seq<u8>>| input.stage == Stage::Open implies
        #[trigger] streams_at(bytes, input, data) by {
        assert(streams_at(text, input, data));
    }
    lemma_trimmed_streams(text);
    lemma_same_streams(trimmed(text), |i: Input| i.decode_string());
}

/// The first five bytes are not changed by those that follow.
proof fn lemma_head_text_buffer(input: Input, data: Option<Seq<u8>>)
    requires
        input.rest.len() >= 5,
    ensures
        input.buffer(data).head_text() == input.head_text(),
{
    assert(input.buffer(data).rest.take(5) =~= input.rest.take(5));
}

/// What the first bytes are found to be is not changed by those that follow.
pub(crate) proof fn lemma_words_buffer(input: Input, data: Option<Seq<u8>>)
    ensures
        input.rest.len() >= 4 ==> {
            &&& TRUE@.is_prefix_of(input.buffer(data).rest) == TRUE@.is_prefix_of(input.rest)
            &&& NULL@.is_prefix_of(input.buffer(data).rest) == NULL@.is_prefix_of(input.rest)
            &&& input.after(4).buffer(data) == input.buffer(data).after(4)
        },
        input.rest.len() >= 5 ==> {
            &&& FALSE@.is_prefix_of(input.buffer(data).rest) == FALSE@.is_prefix_of(input.rest)
            &&& input.after(5).buffer(data) == input.buffer(data).after(5)
            &&& input.buffer(data).head_text() == input.head_text()
        },
{
    if input.rest.len() >= 4 {
        lemma_after_buffer(input, 4, data);
        if let Some(bytes) = data {
            lemma_prefix_append(TRUE@, input.rest, bytes);
            lemma_prefix_append(NULL@, input.rest, bytes);
        }
    }
    if input.rest.len() >= 5 {
        lemma_after_buffer(input, 5, data);
        lemma_head_text_buffer(input, data);
        if let Some(bytes) = data {
            lemma_prefix_append(FALSE@, input.rest, bytes);
        }
    }
}

/// `streams` holds of [`Input::parse_bool`] and [`Input::decode_option`].
pub proof fn law_word_streams()
    ensures
        streams(|i: Input| i.parse_bool()),
        streams(|i: Input| i.decode_option()),
{
    let truth = |i: Input| i.bool_here();
    let option = |i: Input| i.option_here();
    assert forall|input: Input, data: Option<Seq<u8>>| at_token(input) implies #[trigger] streams_at(
        truth,
        input,
        data,
    ) by {
        lemma_words_buffer(input, data);
    }
    assert forall|input: Input, data: Option<Seq<u8>>| at_token(input) implies #[trigger] streams_at(
        option,
        input,
        data,
    ) by {
        lemma_words_buffer(input, data);
    }
    lemma_trimmed_streams(truth);
    lemma_trimmed_streams(option);
    lemma_same_streams(trimmed(truth), |i: Input| i.parse_bool());
    lemma_same_streams(trimmed(option), |i: Input| i.decode_option());
}

/// `streams` holds of [`Input::parse_number`] and of [`Input::parse_integer`], and so of the
/// readings of the integer types.
pub proof fn law_number_streams(min: int, max: int, name: Seq<char>)
    ensures
        streams(|i: Input| i.parse_number()),
        streams(|i: Input| i.parse_integer(min, max, name)),
{
    let numeral = |i: Input| i.numeral();
    let digits = |i: Input| i.buffer_while(Class::Numeric);
    law_buffer_while_streams(Class::Numeric);
    assert forall|input: Input, data: Option<Seq<u8>>| at_token(input) implies #[trigger] streams_at(
        digits,
        input,
        data,
    ) by {
        lemma_buffer_while_streams(input, data, Class::Numeric);
    }
    lemma_trimmed_streams(digits);
    lemma_same_streams(trimmed(digits), numeral);
    let text = |i: Input| i.parse_number();
    let integer = |i: Input| i.parse_integer(min, max, name);
    assert forall|input: Input, data: Option<Seq<u8>>| input.stage == Stage::Open implies
        #[trigger] streams_at(text, input, data) by {
        assert(streams_at(numeral, input, data));
        input.lemma_numeral();
    }
    assert forall|input: Input, data: Option<Seq<u8>>| input.stage == Stage::Open implies
        #[trigger] streams_at(integer, input, data) by {
        assert(streams_at(numeral, input, data));
        input.lemma_numeral();
    }
}

/// A reading streams if its outcome is made of that of one that does.
proof fn lemma_mapped_streams<T, U>(
    op: spec_fn(Input) -> Reading<T>,
    map: spec_fn(Step<T, Seq<char>>) -> Step<U, Seq<char>>,
    mapped: spec_fn(Input) -> Reading<U>,
)
    requires
        streams(op),
        forall|outcome: Step<T, Seq<char>>|
            outcome is More <==> (#[trigger] map(outcome)) is More,
        forall|input: Input|
            #[trigger] mapped(input) == (op(input).0, map(op(input).1)),
    ensures
        streams(mapped),
{
    assert forall|input: Input, data: Option<Seq<u8>>| input.stage == Stage::Open implies
        #[trigger] streams_at(mapped, input, data) by {
        assert(streams_at(op, input, data));
        assert(map(op(input).1) is More <==> op(input).1 is More);
    }
}

/// `streams` holds of [`Input::decode_i8`].
pub proof fn law_i8_streams()
    ensures
        streams(|i: Input| i.decode_i8()),
{
    law_number_streams(i8::MIN as int, i8::MAX as int, "i8"@);
    lemma_mapped_streams(
        |i: Input| i.parse_integer(i8::MIN as int, i8::MAX as int, "i8"@),
        |outcome: Step<int, Seq<char>>|
            match outcome {
                Step::More => Step::More,
                Step::Done(value) => Step::Done(value as i8),
                Step::Failed(message) => Step::Failed(message),
            },
        |i: Input| i.decode_i8(),
    );
}

/// `streams` holds of [`Input::decode_i16`].
pub proof fn law_i16_streams()
    ensures
        streams(|i: Input| i.decode_i16()),
{
    law_number_streams(i16::MIN as int, i16::MAX as int, "i16"@);
    lemma_mapped_streams(
        |i: Input| i.parse_integer(i16::MIN as int, i16::MAX as int, "i16"@),
        |outcome: Step<int, Seq<char>>|
            match outcome {
                Step::More => Step::More,
                Step::Done(value) => Step::Done(value as i16),
                Step::Failed(message) => Step::Failed(message),
            },
        |i: Input| i.decode_i16(),
    );
}

/// `streams` holds of [`Input::decode_i32`].
pub proof fn law_i32_streams()
    ensures
        streams(|i: Input| i.decode_i32()),
{
    law_number_streams(i32::MIN as int, i32::MAX as int, "i32"@);
    lemma_mapped_streams(
        |i: Input| i.parse_integer(i32::MIN as int, i32::MAX as int, "i32"@),
        |outcome: Step<int, Seq<char>>|
            match outcome {
                Step::More => Step::More,
                Step::Done(value) => Step::Done(value as i32),
                Step::Failed(message) => Step::Failed(message),
            },
        |i: Input| i.decode_i32(),
    );
}

/// `streams` holds of [`Input::decode_i64`].
pub proof fn law_i64_streams()
    ensures
        streams(|i: Input| i.decode_i64()),
{
    law_number_streams(i64::MIN as int, i64::MAX as int, "i64"@);
    lemma_mapped_streams(
        |i: Input| i.parse_integer(i64::MIN as int, i64::MAX as int, "i64"@),
        |outcome: Step<int, Seq<char>>|
            match outcome {
                Step::More => Step::More,
                Step::Done(value) => Step::Done(value as i64),
                Step::Failed(message) => Step::Failed(message),
            },
        |i: Input| i.decode_i64(),
    );
}

/// `streams` holds of [`Input::decode_u8`].
pub proof fn law_u8_streams()
    ensures
        streams(|i: Input| i.decode_u8()),
{
    law_number_streams(u8::MIN as int, u8::MAX as int, "u8"@);
    lemma_mapped_streams(
        |i: Input| i.parse_integer(u8::MIN as int, u8::MAX as int, "u8"@),
        |outcome: Step<int, Seq<char>>|
            match outcome {
                Step::More => Step::More,
                Step::Done(value) => Step::Done(value as u8),
                Step::Failed(message) => Step::Failed(message),
            },
        |i: Input| i.decode_u8(),
    );
}

/// `streams` holds of [`Input::decode_u16`].
pub proof fn law_u16_streams()
    ensures
        streams(|i: Input| i.decode_u16()),
{
    law_number_streams(u16::MIN as int, u16::MAX as int, "u16"@);
    lemma_mapped_streams(
        |i: Input| i.parse_integer(u16::MIN as int, u16::MAX as int, "u16"@),
        |outcome: Step<int, Seq<char>>|
            match outcome {
                Step::More => Step::More,
                Step::Done(value) => Step::Done(value as u16),
                Step::Failed(message) => Step::Failed(message),
            },
        |i: Input| i.decode_u16(),
    );
}

/// `streams` holds of [`Input::decode_u32`].
pub proof fn law_u32_streams()
    ensures
        streams(|i: Input| i.decode_u32()),
{
    law_number_streams(u32::MIN as int, u32::MAX as int, "u32"@);
    lemma_mapped_streams(
        |i: Input| i.parse_integer(u32::MIN as int, u32::MAX as int, "u32"@),
        |outcome: Step<int, Seq<char>>|
            match outcome {
                Step::More => Step::More,
                Step::Done(value) => Step::Done(value as u32),
                Step::Failed(message) => Step::Failed(message),
            },
        |i: Input| i.decode_u32(),
    );
}

/// `streams` holds of [`Input::decode_u64`].
pub proof fn law_u64_streams()
    ensures
        streams(|i: Input| i.decode_u64()),
{
    law_number_streams(u64::MIN as int, u64::MAX as int, "u64"@);
    lemma_mapped_streams(
        |i: Input| i.parse_integer(u64::MIN as int, u64::MAX as int, "u64"@),
        |outcome: Step<int, Seq<char>>|
            match outcome {
                Step::More => Step::More,
                Step::Done(value) => Step::Done(value as u64),
                Step::Failed(message) => Step::Failed(message),
            },
        |i: Input| i.decode_u64(),
    );
}

/// `streams_at` holds of [`Input::decode_number`] wherever a number begins.
pub proof fn law_decode_number_streams(input: Input, data: Option<Seq<u8>>)
    requires
        input.stage == Stage::Open,
        input.rest.len() > 0,
        numeric(input.rest[0]),
    ensures
        streams_at(|i: Input| i.decode_number(), input, data),
        input.decode_number().1 is More ==> input.decode_number().0 == input,
{
    let len = run_len(input.rest, Class::Integral);
    lemma_at_token(input);
    lemma_run_bytes(input.rest, Class::Integral);
    if len < input.rest.len() {
        law_number_streams(0, 0, Seq::empty());
        law_i64_streams();
        assert(streams_at(|i: Input| i.parse_number(), input, data));
        assert(streams_at(|i: Input| i.decode_i64(), input, data));
        if let Some(bytes) = data {
            lemma_run_len_append(input.rest, bytes, Class::Integral);
            assert((input.rest + bytes)[len as int] == input.rest[len as int]);
        }
    }
}

proof fn lemma_any_here_streams(expected: Seq<char>, input: Input, data: Option<Seq<u8>>)
    requires
        at_token(input),
    ensures
        streams_at(|i: Input| i.any_here(expected), input, data),
        input.any_here(expected).1 is More ==> input.any_here(expected).0 == input,
{
    let next = input.buffer(data);
    assert(next.rest[0] == input.rest[0]);
    if input.rest[0] == QUOTE {
        law_string_streams();
        assert(streams_at(|i: Input| i.parse_string(), input, data));
    } else if input.rest[0] == MAP_BEGIN || input.rest[0] == LIST_BEGIN {
        lemma_after_buffer(input, 1, data);
    } else if numeric(input.rest[0]) {
        law_decode_number_streams(input, data);
    } else {
        lemma_words_buffer(input, data);
    }
}

/// `streams` holds of [`Input::decode_any`].
pub proof fn law_decode_any_streams(expected: Seq<char>)
    ensures
        streams(|i: Input| i.decode_any(expected)),
{
    let here = |i: Input| i.any_here(expected);
    assert forall|input: Input, data: Option<Seq<u8>>| at_token(input) implies #[trigger] streams_at(
        here,
        input,
        data,
    ) by {
        lemma_any_here_streams(expected, input, data);
    }
    assert forall|input: Input| at_token(input) && (#[trigger] here(input)).1 is More implies here(
        input,
    ).0 == input by {
        lemma_any_here_streams(expected, input, None);
    }
    lemma_trimmed_streams(here);
    lemma_same_streams(trimmed(here), |i: Input| i.decode_any(expected));
}

/// Whether the message of a refused `null` depends on what comes next: four bytes are at hand,
/// after any white space, that are not `null`, and a fifth one would add to the message.
pub open spec fn is_short_of_message(input: Input, data: Option<Seq<u8>>) -> bool {
    let (token, dropped) = input.expect_whitespace();
    &&& dropped is Done
    &&& token.rest.len() == 4
    &&& !NULL@.is_prefix_of(token.rest)
    &&& token.buffer(data).head_text() != token.head_text()
}

/// `streams_at` holds of [`Input::parse_unit`] wherever the message of its error does not
/// depend on how many bytes are at hand.
pub proof fn law_parse_unit_streams(input: Input, data: Option<Seq<u8>>)
    requires
        input.stage == Stage::Open,
        !is_short_of_message(input, data),
    ensures
        streams_at(|i: Input| i.parse_unit(), input, data),
{
    let here = |i: Input| i.unit_here();
    lemma_expect_whitespace_streams(input, data);
    lemma_words_buffer(input.expect_whitespace().0, data);
    lemma_trimmed_streams_at(here, input, data);
    assert(trimmed(here) =~= |i: Input| i.parse_unit());
}

/// `streams_at` holds of [`Input::ignore_value`] wherever the message of its error does not
/// depend on how many bytes are at hand.
pub proof fn law_ignore_value_streams(input: Input, data: Option<Seq<u8>>)
    requires
        input.stage == Stage::Open,
        !(is_short_of_message(input, data) && input.expect_whitespace().0.rest[0] == 'n' as u8),
    ensures
        streams_at(|i: Input| i.ignore_value(), input, data),
{
    let here = |i: Input| i.ignore_here();
    lemma_expect_whitespace_streams(input, data);
    let (token, dropped) = input.expect_whitespace();
    if dropped is Done {
        assert(token.buffer(data).rest[0] == token.rest[0]);
        lemma_at_token(token);
        lemma_words_buffer(token, data);
        if token.rest[0] == QUOTE {
            law_string_streams();
            assert(streams_at(|i: Input| i.parse_string(), token, data));
        } else if numeric(token.rest[0]) {
            law_number_streams(0, 0, Seq::empty());
            assert(streams_at(|i: Input| i.parse_number(), token, data));
        }
    }
    lemma_trimmed_streams_at(here, input, data);
    assert(trimmed(here) =~= |i: Input| i.ignore_value());
}

/// `streams` holds of [`Input::begin_list`] and [`Input::begin_map`].
pub proof fn law_begin_streams(size_hint: Option<usize>)
    ensures
        streams(|i: Input| i.begin_list(size_hint)),
        streams(|i: Input| i.begin_map(size_hint)),
{
    law_delimiter_streams(LIST_BEGIN);
    law_delimiter_streams(MAP_BEGIN);
    lemma_mapped_streams(
        |i: Input| i.expect_token(LIST_BEGIN),
        |outcome: Step<(), Seq<char>>|
            match outcome {
                Step::More => Step::More,
                Step::Done(_) => Step::Done(size_hint),
                Step::Failed(message) => Step::Failed(message),
            },
        |i: Input| i.begin_list(size_hint),
    );
    lemma_mapped_streams(
        |i: Input| i.expect_token(MAP_BEGIN),
        |outcome: Step<(), Seq<char>>|
            match outcome {
                Step::More => Step::More,
                Step::Done(_) => Step::Done((size_hint, false)),
                Step::Failed(message) => Step::Failed(message),
            },
        |i: Input| i.begin_map(size_hint),
    );
}

/// What `streams_at` says of a reading holds of [`Input::begin_value`], which remembers whether
/// it has taken the colon when it is put off.
pub proof fn law_begin_value_streams(input: Input, data: Option<Seq<u8>>, after_colon: bool)
    requires
        input.stage == Stage::Open,
    ensures
        ({
            let (left, taken, outcome) = input.begin_value(after_colon);
            &&& left.stage == Stage::Open
            &&& if outcome is More {
                left.buffer(data).begin_value(taken) == input.buffer(data).begin_value(
                    after_colon,
                )
            } else {
                input.buffer(data).begin_value(after_colon) == (left.buffer(data), taken, outcome)
            }
        }),
{
    lemma_expect_whitespace_streams(input, data);
    law_delimiter_streams(COLON);
    assert(streams_at(|i: Input| i.expect_token(COLON), input, data));
    if !after_colon && input.expect_token(COLON).1 is Done {
        lemma_expect_whitespace_streams(input.expect_token(COLON).0, data);
    }
}

} // verus!
