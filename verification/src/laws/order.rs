//! What every reading keeps: it takes bytes from the front only, and it asks for more only
//! while there may be more.

use vstd::prelude::*;

use crate::input::{string_end, Input, Reading};
use crate::lexical::{lemma_run_bytes, run_len, Class, COLON, COMMA, LIST_BEGIN, MAP_BEGIN, QUOTE};
use crate::step::Stage;

verus! {

/// A reading takes nothing but the first bytes. Whether there is more to come does not change
/// by it, and it is put off only if there may be.
pub open spec fn orderly<T>(input: Input, reading: Reading<T>) -> bool {
    let (left, outcome) = reading;
    &&& left.rest.is_suffix_of(input.rest)
    &&& left.stage == input.stage
    &&& outcome is More ==> input.stage == Stage::Open
}

/// What is left of what was left is left of the whole.
proof fn lemma_suffix(first: Seq<u8>, second: Seq<u8>, third: Seq<u8>)
    requires
        second.is_suffix_of(first),
        third.is_suffix_of(second),
    ensures
        third.is_suffix_of(first),
{
    assert(third =~= first.subrange(first.len() - third.len(), first.len() as int));
}

/// To take the first bytes is orderly.
proof fn lemma_after(input: Input, taken: int)
    requires
        0 <= taken <= input.rest.len(),
    ensures
        input.after(taken).rest.is_suffix_of(input.rest),
{
    assert(input.rest.skip(taken) =~= input.rest.subrange(taken, input.rest.len() as int));
}

/// One reading after another is orderly.
proof fn lemma_orderly_twice<T, U>(input: Input, first: Reading<T>, second: Reading<U>)
    requires
        orderly(input, first),
        !(first.1 is More),
        orderly(first.0, second),
    ensures
        orderly(input, second),
{
    lemma_suffix(input.rest, first.0.rest, second.0.rest);
}

/// [`Input::buffer_while`] and [`Input::expect_whitespace`] are orderly.
pub proof fn law_buffer_while_orderly(input: Input, class: Class)
    ensures
        orderly(input, input.buffer_while(class)),
        orderly(input, input.expect_whitespace()),
{
    lemma_run_bytes(input.rest, class);
    lemma_after(input, run_len(input.rest, class) as int);
    lemma_run_bytes(input.rest, Class::Whitespace);
    lemma_after(input, run_len(input.rest, Class::Whitespace) as int);
    lemma_after(input, 0);
    assert(input.rest.skip(0) =~= input.rest);
}

/// [`Input::expect_byte`] and [`Input::maybe_byte`] are orderly.
pub proof fn law_byte_orderly(input: Input, byte: u8)
    ensures
        orderly(input, input.expect_byte(byte)),
        orderly(input, input.maybe_byte(byte)),
{
    lemma_after(input, 0);
    assert(input.rest.skip(0) =~= input.rest);
    if input.rest.len() > 0 {
        lemma_after(input, 1);
    }
}

/// [`Input::expect_comma_or`], [`Input::expect_token`] and [`Input::has_next`] are orderly.
pub proof fn law_delimiter_orderly(input: Input, byte: u8)
    ensures
        orderly(input, input.expect_comma_or(byte)),
        orderly(input, input.expect_token(byte)),
        orderly(input, input.has_next(byte)),
{
    law_buffer_while_orderly(input, Class::Whitespace);
    let dropped = input.expect_whitespace();
    if dropped.1 is Done {
        law_byte_orderly(dropped.0, byte);
        law_byte_orderly(dropped.0, COMMA);
        lemma_orderly_twice(input, dropped, dropped.0.expect_byte(byte));
        lemma_orderly_twice(input, dropped, dropped.0.expect_byte(COMMA));
        lemma_orderly_twice(input, dropped, dropped.0.maybe_byte(byte));
    }
}

/// [`Input::begin_list`], [`Input::begin_map`] and [`Input::begin_value`] are orderly.
pub proof fn law_begin_orderly(input: Input, size_hint: Option<usize>, after_colon: bool)
    ensures
        orderly(input, input.begin_list(size_hint)),
        orderly(input, input.begin_map(size_hint)),
        orderly(
            input,
            (input.begin_value(after_colon).0, input.begin_value(after_colon).2),
        ),
{
    law_delimiter_orderly(input, LIST_BEGIN);
    law_delimiter_orderly(input, MAP_BEGIN);
    law_delimiter_orderly(input, COLON);
    law_buffer_while_orderly(input, Class::Whitespace);
    let colon = input.expect_token(COLON);
    if colon.1 is Done {
        law_buffer_while_orderly(colon.0, Class::Whitespace);
        lemma_orderly_twice(input, colon, colon.0.expect_whitespace());
    }
}

/// A string ends within its bytes.
proof fn lemma_string_end(bytes: Seq<u8>, from: nat)
    ensures
        string_end(bytes, from) matches Some(end) ==> from <= end < bytes.len(),
    decreases bytes.len() - from,
{
    if from < bytes.len() {
        lemma_string_end(bytes, from + 1);
    }
}

/// [`Input::buffer_string`], [`Input::parse_string`], [`Input::decode_string`] and
/// [`Input::decode_byte_buf`] are orderly.
pub proof fn law_string_orderly(input: Input)
    ensures
        orderly(input, input.buffer_string()),
        orderly(input, input.parse_string()),
        orderly(input, input.decode_string()),
        orderly(input, input.decode_byte_buf()),
{
    lemma_buffer_string_orderly(input);
    law_buffer_while_orderly(input, Class::Whitespace);
    let dropped = input.expect_whitespace();
    if dropped.1 is Done {
        lemma_buffer_string_orderly(dropped.0);
        lemma_orderly_twice(input, dropped, dropped.0.parse_string());
    }
}

proof fn lemma_buffer_string_orderly(input: Input)
    ensures
        orderly(input, input.buffer_string()),
{
    law_byte_orderly(input, QUOTE);
    let quote = input.expect_byte(QUOTE);
    let body = quote.0;
    lemma_after(input, 0);
    assert(input.rest.skip(0) =~= input.rest);
    lemma_string_end(body.rest, 0);
    if quote.1 is Done {
        if let Some(end) = string_end(body.rest, 0) {
            lemma_after(body, end as int + 1);
            lemma_suffix(input.rest, body.rest, body.after(end as int + 1).rest);
        }
    }
}

/// [`Input::bool_here`] and the like are orderly.
proof fn lemma_words_orderly(input: Input, expected: Seq<char>)
    ensures
        orderly(input, input.bool_here()),
        orderly(input, input.unit_here()),
        orderly(input, input.word_here(expected)),
{
    lemma_after(input, 0);
    assert(input.rest.skip(0) =~= input.rest);
    if input.rest.len() >= 4 {
        lemma_after(input, 4);
    }
    if input.rest.len() >= 5 {
        lemma_after(input, 5);
    }
}

/// [`Input::parse_bool`], [`Input::parse_unit`] and [`Input::decode_option`] are orderly.
pub proof fn law_word_orderly(input: Input)
    ensures
        orderly(input, input.parse_bool()),
        orderly(input, input.parse_unit()),
        orderly(input, input.decode_option()),
{
    law_buffer_while_orderly(input, Class::Whitespace);
    let dropped = input.expect_whitespace();
    if dropped.1 is Done {
        let token = dropped.0;
        lemma_words_orderly(token, Seq::empty());
        lemma_orderly_twice(input, dropped, token.bool_here());
        lemma_orderly_twice(input, dropped, token.unit_here());
        if token.rest.len() >= 4 {
            lemma_after(token, 4);
            lemma_suffix(input.rest, token.rest, token.after(4).rest);
        }
    }
}

/// [`Input::parse_number`], [`Input::parse_integer`] and the readings of the integer types are
/// orderly.
pub proof fn law_number_orderly(input: Input, min: int, max: int, name: Seq<char>)
    ensures
        orderly(input, input.parse_number()),
        orderly(input, input.parse_integer(min, max, name)),
        orderly(input, input.decode_i8()),
        orderly(input, input.decode_i16()),
        orderly(input, input.decode_i32()),
        orderly(input, input.decode_i64()),
        orderly(input, input.decode_u8()),
        orderly(input, input.decode_u16()),
        orderly(input, input.decode_u32()),
        orderly(input, input.decode_u64()),
{
    law_buffer_while_orderly(input, Class::Whitespace);
    input.lemma_numeral();
    let dropped = input.expect_whitespace();
    if dropped.1 is Done {
        law_buffer_while_orderly(dropped.0, Class::Numeric);
        lemma_orderly_twice(input, dropped, dropped.0.buffer_while(Class::Numeric));
    }
}

/// [`Input::decode_number`] is orderly.
pub proof fn law_decode_number_orderly(input: Input)
    ensures
        orderly(input, input.decode_number()),
{
    law_number_orderly(input, 0, 0, Seq::empty());
    lemma_run_bytes(input.rest, Class::Integral);
    lemma_after(input, 0);
    assert(input.rest.skip(0) =~= input.rest);
}

/// [`Input::decode_any`] is orderly.
pub proof fn law_decode_any_orderly(input: Input, expected: Seq<char>)
    ensures
        orderly(input, input.decode_any(expected)),
{
    law_buffer_while_orderly(input, Class::Whitespace);
    let dropped = input.expect_whitespace();
    if dropped.1 is Done {
        let token = dropped.0;
        lemma_words_orderly(token, expected);
        law_string_orderly(token);
        law_decode_number_orderly(token);
        lemma_after(token, 0);
        assert(token.rest.skip(0) =~= token.rest);
        if token.rest.len() > 0 {
            lemma_after(token, 1);
        }
        lemma_orderly_twice(input, dropped, token.any_here(expected));
    }
}

/// [`Input::ignore_value`] is orderly.
pub proof fn law_ignore_value_orderly(input: Input)
    ensures
        orderly(input, input.ignore_value()),
{
    law_buffer_while_orderly(input, Class::Whitespace);
    let dropped = input.expect_whitespace();
    if dropped.1 is Done {
        let token = dropped.0;
        lemma_words_orderly(token, Seq::empty());
        law_string_orderly(token);
        law_number_orderly(token, 0, 0, Seq::empty());
        lemma_after(token, 0);
        assert(token.rest.skip(0) =~= token.rest);
        lemma_orderly_twice(input, dropped, token.ignore_here());
    }
}

} // verus!
