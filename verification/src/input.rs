//! What a decoder has before it, and what each reading makes of it.
//!
//! Everything in this module is specification: the methods of the decoder are stated in terms of
//! the functions here that bear their names.

use vstd::prelude::*;

use crate::error::{invalid_type_text, invalid_value_text, unexpected_end_text};
use crate::integer::integer_value;
use crate::lexical::{
    lemma_run_bytes, numeric, run_len, Class, COLON, COMMA, DECIMAL, ESCAPE, FALSE, LIST_BEGIN,
    MAP_BEGIN, NULL, QUOTE, TRUE,
};
use crate::step::{Any, Ignored, Number, Stage, Step};
use crate::text::{base64_decoded, utf8_text};

verus! {

/// What a reading leaves, and its outcome.
pub type Reading<T> = (Input, Step<T, Seq<char>>);

/// What a decoder has before it.
#[verifier::ext_equal]
pub struct Input {
    /// The bytes at hand that no reading has taken yet.
    pub rest: Seq<u8>,
    /// How far the source has come.
    pub stage: Stage,
}

/// Where in `bytes` the string ends whose beginning they are: at the first quote that no
/// escape precedes.
pub open spec fn string_end(bytes: Seq<u8>, from: nat) -> Option<nat>
    decreases bytes.len() - from,
{
    if from >= bytes.len() {
        None
    } else if bytes[from as int] == QUOTE && (from == 0 || bytes[from - 1] != ESCAPE) {
        Some(from)
    } else {
        string_end(bytes, from + 1)
    }
}

impl Input {
    /// The input with the given bytes at hand.
    pub open spec fn of(rest: Seq<u8>, stage: Stage) -> Input {
        Input { rest, stage }
    }

    /// The input once the source has handed over more bytes, or, for `None`, its end.
    pub open spec fn buffer(self, data: Option<Seq<u8>>) -> Input {
        match data {
            Some(bytes) => Input { rest: self.rest + bytes, stage: self.stage },
            None => Input { rest: self.rest, stage: Stage::Closed },
        }
    }

    /// The input without its first bytes.
    pub open spec fn after(self, taken: int) -> Input {
        Input { rest: self.rest.skip(taken), stage: self.stage }
    }

    /// Whether `len` bytes are at hand, or all that there are.
    pub open spec fn reaches(self, len: nat) -> bool {
        self.rest.len() >= len || self.stage == Stage::Closed
    }

    /// Takes the bytes of one kind that come first.
    pub open spec fn buffer_while(self, class: Class) -> Reading<Seq<u8>> {
        let len = run_len(self.rest, class);
        if self.reaches(len + 1) {
            (self.after(len as int), Step::Done(self.rest.take(len as int)))
        } else {
            (self, Step::More)
        }
    }

    /// Drops the white space that comes first.
    pub open spec fn expect_whitespace(self) -> Reading<()> {
        match self.buffer_while(Class::Whitespace) {
            (input, Step::Done(_)) => (input, Step::Done(())),
            (input, _) => (input, Step::More),
        }
    }

    /// Takes one byte, which must be the given one.
    pub open spec fn expect_byte(self, byte: u8) -> Reading<()> {
        if !self.reaches(1) {
            (self, Step::More)
        } else if self.rest.len() == 0 {
            (self, Step::Failed(unexpected_end_text()))
        } else if self.rest[0] == byte {
            (self.after(1), Step::Done(()))
        } else {
            (
                self.after(1),
                Step::Failed(invalid_value_text(seq![self.rest[0] as char], seq![byte as char])),
            )
        }
    }

    /// Takes the given byte if it comes next, and tells whether it did.
    pub open spec fn maybe_byte(self, byte: u8) -> Reading<bool> {
        if !self.reaches(1) {
            (self, Step::More)
        } else if self.rest.len() > 0 && self.rest[0] == byte {
            (self.after(1), Step::Done(true))
        } else {
            (self, Step::Done(false))
        }
    }

    /// Takes a comma, or leaves the given byte in its place.
    pub open spec fn expect_comma_or(self, byte: u8) -> Reading<()> {
        match self.expect_whitespace() {
            (input, Step::Done(_)) => if input.rest.len() > 0 && input.rest[0] == byte {
                (input, Step::Done(()))
            } else {
                input.expect_byte(COMMA)
            },
            (input, _) => (input, Step::More),
        }
    }

    /// Takes a quoted string, and gives the bytes between the quotes as they are.
    pub open spec fn buffer_string(self) -> Reading<Seq<u8>> {
        match self.expect_byte(QUOTE) {
            (_, Step::More) => (self, Step::More),
            (input, Step::Failed(message)) => (input, Step::Failed(message)),
            (input, Step::Done(_)) => match string_end(input.rest, 0) {
                Some(end) => (
                    input.after(end as int + 1),
                    Step::Done(input.rest.take(end as int)),
                ),
                None => if input.stage == Stage::Closed {
                    (input, Step::Failed(unexpected_end_text()))
                } else {
                    (self, Step::More)
                },
            },
        }
    }

    /// Takes a quoted string.
    pub open spec fn parse_string(self) -> Reading<Seq<char>> {
        match self.buffer_string() {
            (input, Step::More) => (input, Step::More),
            (input, Step::Failed(message)) => (input, Step::Failed(message)),
            (input, Step::Done(bytes)) => match utf8_text(bytes) {
                Ok(text) => (input, Step::Done(text)),
                Err(message) => (input, Step::Failed(message)),
            },
        }
    }

    /// The text of the first bytes, up to five of them, or the message of the error that they
    /// are no text.
    pub open spec fn head_text(self) -> Result<Seq<char>, Seq<char>> {
        utf8_text(
            self.rest.take(
                if self.rest.len() < 5 {
                    self.rest.len() as int
                } else {
                    5
                },
            ),
        )
    }

    /// Takes a boolean from an input that does not begin with white space.
    pub open spec fn bool_here(self) -> Reading<bool> {
        if !self.reaches(4) {
            (self, Step::More)
        } else if self.rest.len() == 0 {
            (self, Step::Failed(unexpected_end_text()))
        } else if TRUE@.is_prefix_of(self.rest) {
            (self.after(4), Step::Done(true))
        } else if !self.reaches(5) {
            (self, Step::More)
        } else if FALSE@.is_prefix_of(self.rest) {
            (self.after(5), Step::Done(false))
        } else {
            match self.head_text() {
                Ok(text) => (self, Step::Failed(invalid_value_text(text, "a boolean"@))),
                Err(message) => (self, Step::Failed(message)),
            }
        }
    }

    /// Takes a boolean.
    pub open spec fn parse_bool(self) -> Reading<bool> {
        match self.expect_whitespace() {
            (input, Step::Done(_)) => input.bool_here(),
            (input, _) => (input, Step::More),
        }
    }

    /// Finds `null`, and leaves it, in an input that does not begin with white space.
    pub open spec fn unit_here(self) -> Reading<()> {
        if !self.reaches(4) {
            (self, Step::More)
        } else if NULL@.is_prefix_of(self.rest) {
            (self, Step::Done(()))
        } else {
            match self.head_text() {
                Ok(text) => (self, Step::Failed(invalid_type_text(text, "null"@))),
                Err(message) => (self, Step::Failed(message)),
            }
        }
    }

    /// Finds `null`, and leaves it.
    pub open spec fn parse_unit(self) -> Reading<()> {
        match self.expect_whitespace() {
            (input, Step::Done(_)) => input.unit_here(),
            (input, _) => (input, Step::More),
        }
    }

    /// Takes the bytes of a number.
    pub open spec fn numeral(self) -> Reading<Seq<u8>> {
        match self.expect_whitespace() {
            (input, Step::Done(_)) => input.buffer_while(Class::Numeric),
            (input, _) => (input, Step::More),
        }
    }

    /// Takes the text of a number.
    pub open spec fn parse_number(self) -> Reading<Seq<char>> {
        match self.numeral() {
            (input, Step::Done(bytes)) => (
                input,
                Step::Done(bytes.map_values(|byte: u8| byte as char)),
            ),
            (input, _) => (input, Step::More),
        }
    }

    /// Takes an integer of the named type, whose values lie between `min` and `max`.
    pub open spec fn parse_integer(self, min: int, max: int, name: Seq<char>) -> Reading<int> {
        match self.numeral() {
            (input, Step::Done(bytes)) => match integer_value(bytes, min, max) {
                Ok(value) => (input, Step::Done(value)),
                Err(error) => (input, Step::Failed(invalid_value_text(error.message(), name))),
            },
            (input, _) => (input, Step::More),
        }
    }

    /// Takes an `i8`.
    pub open spec fn decode_i8(self) -> Reading<i8> {
        match self.parse_integer(i8::MIN as int, i8::MAX as int, "i8"@) {
            (input, Step::Done(value)) => (input, Step::Done(value as i8)),
            (input, Step::Failed(message)) => (input, Step::Failed(message)),
            (input, Step::More) => (input, Step::More),
        }
    }

    /// Takes an `i16`.
    pub open spec fn decode_i16(self) -> Reading<i16> {
        match self.parse_integer(i16::MIN as int, i16::MAX as int, "i16"@) {
            (input, Step::Done(value)) => (input, Step::Done(value as i16)),
            (input, Step::Failed(message)) => (input, Step::Failed(message)),
            (input, Step::More) => (input, Step::More),
        }
    }

    /// Takes an `i32`.
    pub open spec fn decode_i32(self) -> Reading<i32> {
        match self.parse_integer(i32::MIN as int, i32::MAX as int, "i32"@) {
            (input, Step::Done(value)) => (input, Step::Done(value as i32)),
            (input, Step::Failed(message)) => (input, Step::Failed(message)),
            (input, Step::More) => (input, Step::More),
        }
    }

    /// Takes an `i64`.
    pub open spec fn decode_i64(self) -> Reading<i64> {
        match self.parse_integer(i64::MIN as int, i64::MAX as int, "i64"@) {
            (input, Step::Done(value)) => (input, Step::Done(value as i64)),
            (input, Step::Failed(message)) => (input, Step::Failed(message)),
            (input, Step::More) => (input, Step::More),
        }
    }

    /// Takes a `u8`.
    pub open spec fn decode_u8(self) -> Reading<u8> {
        match self.parse_integer(u8::MIN as int, u8::MAX as int, "u8"@) {
            (input, Step::Done(value)) => (input, Step::Done(value as u8)),
            (input, Step::Failed(message)) => (input, Step::Failed(message)),
            (input, Step::More) => (input, Step::More),
        }
    }

    /// Takes a `u16`.
    pub open spec fn decode_u16(self) -> Reading<u16> {
        match self.parse_integer(u16::MIN as int, u16::MAX as int, "u16"@) {
            (input, Step::Done(value)) => (input, Step::Done(value as u16)),
            (input, Step::Failed(message)) => (input, Step::Failed(message)),
            (input, Step::More) => (input, Step::More),
        }
    }

    /// Takes a `u32`.
    pub open spec fn decode_u32(self) -> Reading<u32> {
        match self.parse_integer(u32::MIN as int, u32::MAX as int, "u32"@) {
            (input, Step::Done(value)) => (input, Step::Done(value as u32)),
            (input, Step::Failed(message)) => (input, Step::Failed(message)),
            (input, Step::More) => (input, Step::More),
        }
    }

    /// Takes a `u64`.
    pub open spec fn decode_u64(self) -> Reading<u64> {
        match self.parse_integer(u64::MIN as int, u64::MAX as int, "u64"@) {
            (input, Step::Done(value)) => (input, Step::Done(value as u64)),
            (input, Step::Failed(message)) => (input, Step::Failed(message)),
            (input, Step::More) => (input, Step::More),
        }
    }

    /// Takes a number, and tells whether it has a decimal point, from an input that is not
    /// empty.
    pub open spec fn decode_number(self) -> Reading<Number<Seq<char>>> {
        let len = run_len(self.rest, Class::Integral);
        if !self.reaches(len + 1) {
            (self, Step::More)
        } else if len < self.rest.len() && self.rest[len as int] == DECIMAL {
            self.float_number()
        } else {
            self.integer_number()
        }
    }

    /// Takes a number that has a decimal point.
    pub open spec fn float_number(self) -> Reading<Number<Seq<char>>> {
        match self.parse_number() {
            (input, Step::Done(text)) => (input, Step::Done(Number::Float(text))),
            (input, _) => (input, Step::More),
        }
    }

    /// Takes a number that has no decimal point.
    pub open spec fn integer_number(self) -> Reading<Number<Seq<char>>> {
        match self.decode_i64() {
            (input, Step::Done(value)) => (input, Step::Done(Number::Integer(value))),
            (input, Step::Failed(message)) => (input, Step::Failed(message)),
            (input, Step::More) => (input, Step::More),
        }
    }

    /// Takes a quoted string, and the white space before it.
    pub open spec fn decode_string(self) -> Reading<Seq<char>> {
        match self.expect_whitespace() {
            (input, Step::Done(_)) => input.parse_string(),
            (input, _) => (input, Step::More),
        }
    }

    /// Takes a quoted string of base64, and gives the bytes that it stands for.
    pub open spec fn decode_byte_buf(self) -> Reading<Seq<u8>> {
        match self.parse_string() {
            (input, Step::More) => (input, Step::More),
            (input, Step::Failed(message)) => (input, Step::Failed(message)),
            (input, Step::Done(text)) => match base64_decoded(text) {
                Ok(bytes) => (input, Step::Done(bytes)),
                Err(message) => (input, Step::Failed(message)),
            },
        }
    }

    /// Takes `null` if it comes next, and tells whether there is a value in its place.
    pub open spec fn decode_option(self) -> Reading<bool> {
        match self.expect_whitespace() {
            (input, Step::Done(_)) => input.option_here(),
            (input, _) => (input, Step::More),
        }
    }

    /// Takes `null` if it comes next, and tells whether there is a value in its place, in an
    /// input that does not begin with white space.
    pub open spec fn option_here(self) -> Reading<bool> {
        if !self.reaches(4) {
            (self, Step::More)
        } else if NULL@.is_prefix_of(self.rest) {
            (self.after(4), Step::Done(false))
        } else {
            (self, Step::Done(true))
        }
    }

    /// Takes the given byte, and the white space before it.
    pub open spec fn expect_token(self, byte: u8) -> Reading<()> {
        match self.expect_whitespace() {
            (input, Step::Done(_)) => input.expect_byte(byte),
            (input, _) => (input, Step::More),
        }
    }

    /// Takes the beginning of a list, which is handed the given size hint.
    pub open spec fn begin_list(self, size_hint: Option<usize>) -> Reading<Option<usize>> {
        match self.expect_token(LIST_BEGIN) {
            (input, Step::Done(_)) => (input, Step::Done(size_hint)),
            (input, Step::Failed(message)) => (input, Step::Failed(message)),
            (input, Step::More) => (input, Step::More),
        }
    }

    /// Takes the beginning of a map, which is handed the given size hint, and of which no colon
    /// was taken yet.
    pub open spec fn begin_map(self, size_hint: Option<usize>) -> Reading<(Option<usize>, bool)> {
        match self.expect_token(MAP_BEGIN) {
            (input, Step::Done(_)) => (input, Step::Done((size_hint, false))),
            (input, Step::Failed(message)) => (input, Step::Failed(message)),
            (input, Step::More) => (input, Step::More),
        }
    }

    /// Takes a value of whatever type from an input that does not begin with white space.
    pub open spec fn any_here(self, expected: Seq<char>) -> Reading<Any<Seq<char>>> {
        if self.rest.len() == 0 {
            (self, Step::Failed(unexpected_end_text()))
        } else if self.rest[0] == QUOTE {
            match self.parse_string() {
                (input, Step::Done(text)) => (input, Step::Done(Any::Text(text))),
                (input, Step::Failed(message)) => (input, Step::Failed(message)),
                (input, Step::More) => (input, Step::More),
            }
        } else if self.rest[0] == MAP_BEGIN {
            (self.after(1), Step::Done(Any::MapBegin))
        } else if self.rest[0] == LIST_BEGIN {
            (self.after(1), Step::Done(Any::ListBegin))
        } else if numeric(self.rest[0]) {
            match self.decode_number() {
                (input, Step::Done(number)) => (input, Step::Done(Any::Number(number))),
                (input, Step::Failed(message)) => (input, Step::Failed(message)),
                (input, Step::More) => (input, Step::More),
            }
        } else {
            self.word_here(expected)
        }
    }

    /// Takes `true`, `false` or `null` from an input that begins with it.
    pub open spec fn word_here(self, expected: Seq<char>) -> Reading<Any<Seq<char>>> {
        if !self.reaches(4) {
            (self, Step::More)
        } else if TRUE@.is_prefix_of(self.rest) {
            (self.after(4), Step::Done(Any::Bool(true)))
        } else if NULL@.is_prefix_of(self.rest) {
            (self.after(4), Step::Done(Any::Null))
        } else if !self.reaches(5) {
            (self, Step::More)
        } else if FALSE@.is_prefix_of(self.rest) {
            (self.after(5), Step::Done(Any::Bool(false)))
        } else {
            match self.head_text() {
                Ok(text) => (self, Step::Failed(invalid_value_text(text, expected))),
                Err(message) => (self, Step::Failed(message)),
            }
        }
    }

    /// Takes a value of whatever type.
    pub open spec fn decode_any(self, expected: Seq<char>) -> Reading<Any<Seq<char>>> {
        match self.expect_whitespace() {
            (input, Step::Done(_)) => input.any_here(expected),
            (input, _) => (input, Step::More),
        }
    }

    /// Takes a value that is not wanted.
    pub open spec fn ignore_value(self) -> Reading<Ignored<Seq<char>>> {
        match self.expect_whitespace() {
            (input, Step::Done(_)) => input.ignore_here(),
            (input, _) => (input, Step::More),
        }
    }

    /// Takes a value that is not wanted from an input that does not begin with white space.
    pub open spec fn ignore_here(self) -> Reading<Ignored<Seq<char>>> {
        if self.rest.len() == 0 {
            (self, Step::Done(Ignored::Checked))
        } else if self.rest[0] == QUOTE {
            match self.parse_string() {
                (input, Step::Done(_)) => (input, Step::Done(Ignored::Checked)),
                (input, Step::Failed(message)) => (input, Step::Failed(message)),
                (input, Step::More) => (input, Step::More),
            }
        } else if numeric(self.rest[0]) {
            match self.parse_number() {
                (input, Step::Done(text)) => (input, Step::Done(Ignored::Number(text))),
                (input, _) => (input, Step::More),
            }
        } else if self.rest[0] == 'n' as u8 {
            match self.unit_here() {
                (input, Step::Done(_)) => (input, Step::Done(Ignored::Checked)),
                (input, Step::Failed(message)) => (input, Step::Failed(message)),
                (input, Step::More) => (input, Step::More),
            }
        } else {
            match self.bool_here() {
                (input, Step::Done(_)) => (input, Step::Done(Ignored::Checked)),
                (input, Step::Failed(message)) => (input, Step::Failed(message)),
                (input, Step::More) => (input, Step::More),
            }
        }
    }

    /// Takes the end of a list or a map if it comes next, and tells whether it did not.
    pub open spec fn has_next(self, end: u8) -> Reading<bool> {
        match self.expect_whitespace() {
            (input, Step::Done(_)) => match input.maybe_byte(end) {
                (input, Step::Done(ended)) => (input, Step::Done(!ended)),
                (input, _) => (input, Step::More),
            },
            (input, _) => (input, Step::More),
        }
    }

    /// Takes the colon between a key and its value, and the white space around it. Once the
    /// colon is taken, which `after_colon` tells, only what follows it is still to be taken.
    pub open spec fn begin_value(self, after_colon: bool) -> (Input, bool, Step<(), Seq<char>>) {
        if after_colon {
            let (input, outcome) = self.expect_whitespace();
            (input, outcome is More, outcome)
        } else {
            match self.expect_token(COLON) {
                (input, Step::Done(_)) => {
                    let (input, outcome) = input.expect_whitespace();
                    (input, outcome is More, outcome)
                },
                (input, outcome) => (input, false, outcome),
            }
        }
    }

    /// A number is written with nothing but what numbers are written with.
    pub proof fn lemma_numeral(self)
        ensures
            match self.numeral().1 {
                Step::Done(bytes) => forall|i: int|
                    0 <= i < bytes.len() ==> numeric(#[trigger] bytes[i]),
                Step::Failed(_) => false,
                Step::More => true,
            },
    {
        match self.expect_whitespace() {
            (input, Step::Done(_)) => {
                lemma_run_bytes(input.rest, Class::Numeric);
            },
            _ => {},
        }
    }
}

} // verus!
