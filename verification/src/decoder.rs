//! The decoder.

use vstd::prelude::*;
use vstd::utf8::*;

use crate::error::Error;
use crate::input::{string_end, Input};
use crate::integer::parse_integer;
use crate::lexical::{
    is_numeric, lemma_run_len, run_len, starts_with, Class, COMMA, DECIMAL, ESCAPE, FALSE,
    LIST_BEGIN, MAP_BEGIN, NULL, QUOTE, TRUE,
};
use crate::step::{Any, Ignored, Number, Stage, Step};
use crate::text::{char_text, decode_base64, decode_text, lemma_ascii_text};

verus! {

/// Decodes a JSON document that comes in chunks.
///
/// A reading whose outcome the bytes at hand do not settle is [`Step::More`]: it is then to be
/// repeated after [`Decoder::buffer`] was given what the source has next.
pub struct Decoder {
    buffer: Vec<u8>,
    stage: Stage,
}

impl View for Decoder {
    type V = Input;

    closed spec fn view(&self) -> Input {
        Input { rest: self.buffer@, stage: self.stage }
    }
}

impl Decoder {
    /// A decoder that was not given anything yet.
    pub fn new() -> (decoder: Decoder)
        ensures
            decoder@ == Input::of(Seq::empty(), Stage::Open),
    {
        Decoder { buffer: Vec::new(), stage: Stage::Open }
    }

    /// How far the source has come.
    pub fn stage(&self) -> (stage: Stage)
        ensures
            stage == self@.stage,
    {
        self.stage
    }

    /// Takes what the source has next: a chunk, or, for `None`, its end.
    pub fn buffer(&mut self, data: Option<Vec<u8>>)
        requires
            data is Some ==> old(self)@.stage == Stage::Open,
        ensures
            final(self)@ == old(self)@.buffer(
                match data {
                    Some(bytes) => Some(bytes@),
                    None => None,
                },
            ),
    {
        match data {
            Some(bytes) => {
                let mut bytes = bytes;
                self.buffer.append(&mut bytes);
            },
            None => {
                self.stage = Stage::Closed;
            },
        }
    }

    /// Tells whether `len` bytes are at hand, or all that there are.
    fn reaches(&self, len: usize) -> (reached: bool)
        ensures
            reached == self@.reaches(len as nat),
    {
        self.buffer.len() >= len || self.stage == Stage::Closed
    }

    /// Takes the first `len` bytes.
    fn take(&mut self, len: usize) -> (taken: Vec<u8>)
        requires
            len <= old(self)@.rest.len(),
        ensures
            taken@ == old(self)@.rest.take(len as int),
            final(self)@ == old(self)@.after(len as int),
    {
        let mut rest = self.buffer.split_off(len);
        std::mem::swap(&mut rest, &mut self.buffer);
        rest
    }

    /// How many of the bytes at hand come first that are of one kind.
    fn run(&self, class: Class) -> (len: usize)
        ensures
            len == run_len(self@.rest, class),
            len <= self@.rest.len(),
    {
        let mut i: usize = 0;
        while i < self.buffer.len() && class.contains(self.buffer[i])
            invariant
                i <= self.buffer.len(),
                forall|j: int| 0 <= j < i ==> class.has(#[trigger] self.buffer@[j]),
            decreases self.buffer.len() - i,
        {
            i = i + 1;
        }
        proof {
            lemma_run_len(self.buffer@, class, i as nat);
        }
        i
    }

    /// Takes the bytes of one kind that come first.
    pub fn buffer_while(&mut self, class: Class) -> (step: Step<Vec<u8>, Error>)
        ensures
            (final(self)@, step@) == old(self)@.buffer_while(class),
    {
        let len = self.run(class);
        if len < self.buffer.len() || self.stage == Stage::Closed {
            Step::Done(self.take(len))
        } else {
            Step::More
        }
    }

    /// Drops the white space that comes first.
    pub fn expect_whitespace(&mut self) -> (step: Step<(), Error>)
        ensures
            (final(self)@, step@) == old(self)@.expect_whitespace(),
    {
        match self.buffer_while(Class::Whitespace) {
            Step::Done(_) => Step::Done(()),
            _ => Step::More,
        }
    }

    /// Takes one byte, which must be the given one.
    pub fn expect_byte(&mut self, byte: u8) -> (step: Step<(), Error>)
        ensures
            (final(self)@, step@) == old(self)@.expect_byte(byte),
    {
        if !self.reaches(1) {
            return Step::More;
        }
        if self.buffer.is_empty() {
            return Step::Failed(Error::unexpected_end());
        }
        let next = self.buffer.remove(0);
        assert(self@.rest =~= old(self)@.rest.skip(1));
        if next == byte {
            Step::Done(())
        } else {
            Step::Failed(
                Error::invalid_value(char_text(next).as_str(), char_text(byte).as_str()),
            )
        }
    }

    /// Takes the given byte if it comes next, and tells whether it did.
    pub fn maybe_byte(&mut self, byte: u8) -> (step: Step<bool, Error>)
        ensures
            (final(self)@, step@) == old(self)@.maybe_byte(byte),
    {
        if !self.reaches(1) {
            return Step::More;
        }
        if !self.buffer.is_empty() && self.buffer[0] == byte {
            let _ = self.buffer.remove(0);
            assert(self@.rest =~= old(self)@.rest.skip(1));
            Step::Done(true)
        } else {
            Step::Done(false)
        }
    }

    /// Takes a comma, or leaves the given byte in its place.
    pub fn expect_comma_or(&mut self, byte: u8) -> (step: Step<(), Error>)
        ensures
            (final(self)@, step@) == old(self)@.expect_comma_or(byte),
    {
        match self.expect_whitespace() {
            Step::Done(_) => {},
            _ => {
                return Step::More;
            },
        }
        if !self.buffer.is_empty() && self.buffer[0] == byte {
            Step::Done(())
        } else {
            self.expect_byte(COMMA)
        }
    }

    /// Takes a quoted string, and gives the bytes between the quotes as they are: the string
    /// ends at the first quote that no escape precedes.
    pub fn buffer_string(&mut self) -> (step: Step<Vec<u8>, Error>)
        ensures
            (final(self)@, step@) == old(self)@.buffer_string(),
    {
        if !self.reaches(1) {
            return Step::More;
        }
        if self.buffer.is_empty() || self.buffer[0] != QUOTE {
            return match self.expect_byte(QUOTE) {
                Step::Failed(error) => Step::Failed(error),
                _ => Step::More,
            };
        }
        let ghost rest = self.buffer@.skip(1);
        let mut i: usize = 1;
        while i < self.buffer.len() && !(self.buffer[i] == QUOTE && self.buffer[i - 1] != ESCAPE)
            invariant
                1 <= i <= self.buffer.len(),
                self.buffer@[0] == QUOTE,
                rest == self.buffer@.skip(1),
                string_end(rest, 0) == string_end(rest, (i - 1) as nat),
            decreases self.buffer.len() - i,
        {
            i = i + 1;
        }
        if i < self.buffer.len() && self.buffer[i] == QUOTE && self.buffer[i - 1] != ESCAPE {
            let _ = self.buffer.remove(0);
            assert(self@.rest =~= rest);
            let taken = self.take(i - 1);
            let _ = self.buffer.remove(0);
            assert(self@.rest =~= rest.skip(i as int));
            assert(taken@ =~= rest.take(i - 1));
            Step::Done(taken)
        } else if self.stage == Stage::Closed {
            let _ = self.buffer.remove(0);
            assert(self@.rest =~= rest);
            Step::Failed(Error::unexpected_end())
        } else {
            Step::More
        }
    }

    /// Takes a quoted string.
    pub fn parse_string(&mut self) -> (step: Step<String, Error>)
        ensures
            (final(self)@, step@) == old(self)@.parse_string(),
    {
        match self.buffer_string() {
            Step::More => Step::More,
            Step::Failed(error) => Step::Failed(error),
            Step::Done(bytes) => match decode_text(bytes) {
                Ok(text) => Step::Done(text),
                Err(error) => Step::Failed(error),
            },
        }
    }

    /// The text of the first bytes, up to five of them.
    fn head_text(&self) -> (text: Result<String, Error>)
        ensures
            match text {
                Ok(text) => self@.head_text() == Ok::<Seq<char>, Seq<char>>(text@),
                Err(error) => self@.head_text() == Err::<Seq<char>, Seq<char>>(error@),
            },
    {
        let mut head: Vec<u8> = Vec::new();
        let mut i: usize = 0;
        while i < 5 && i < self.buffer.len()
            invariant
                i <= 5,
                i <= self.buffer.len(),
                head@ == self.buffer@.take(i as int),
            decreases 5 - i,
        {
            head.push(self.buffer[i]);
            i = i + 1;
            assert(head@ =~= self.buffer@.take(i as int));
        }
        decode_text(head)
    }

    /// Takes a boolean.
    pub fn parse_bool(&mut self) -> (step: Step<bool, Error>)
        ensures
            (final(self)@, step@) == old(self)@.parse_bool(),
    {
        match self.expect_whitespace() {
            Step::Done(_) => {},
            _ => {
                return Step::More;
            },
        }
        self.bool_here()
    }

    /// Takes a boolean from an input that does not begin with white space.
    fn bool_here(&mut self) -> (step: Step<bool, Error>)
        ensures
            (final(self)@, step@) == old(self)@.bool_here(),
    {
        if !self.reaches(4) {
            return Step::More;
        }
        if self.buffer.is_empty() {
            return Step::Failed(Error::unexpected_end());
        }
        if starts_with(&self.buffer, &TRUE) {
            let _ = self.take(4);
            return Step::Done(true);
        }
        if !self.reaches(5) {
            return Step::More;
        }
        if starts_with(&self.buffer, &FALSE) {
            let _ = self.take(5);
            return Step::Done(false);
        }
        match self.head_text() {
            Ok(text) => Step::Failed(Error::invalid_value(text.as_str(), "a boolean")),
            Err(error) => Step::Failed(error),
        }
    }

    /// Finds `null`, and leaves it.
    pub fn parse_unit(&mut self) -> (step: Step<(), Error>)
        ensures
            (final(self)@, step@) == old(self)@.parse_unit(),
    {
        match self.expect_whitespace() {
            Step::Done(_) => {},
            _ => {
                return Step::More;
            },
        }
        self.unit_here()
    }

    /// Finds `null`, and leaves it, in an input that does not begin with white space.
    fn unit_here(&mut self) -> (step: Step<(), Error>)
        ensures
            (final(self)@, step@) == old(self)@.unit_here(),
    {
        if !self.reaches(4) {
            return Step::More;
        }
        if starts_with(&self.buffer, &NULL) {
            return Step::Done(());
        }
        match self.head_text() {
            Ok(text) => Step::Failed(Error::invalid_type(text.as_str(), "null")),
            Err(error) => Step::Failed(error),
        }
    }

    /// Takes the text of a number.
    pub fn parse_number(&mut self) -> (step: Step<String, Error>)
        ensures
            (final(self)@, step@) == old(self)@.parse_number(),
    {
        match self.expect_whitespace() {
            Step::Done(_) => {},
            _ => {
                return Step::More;
            },
        }
        match self.buffer_while(Class::Numeric) {
            Step::Done(bytes) => {
                proof {
                    old(self)@.lemma_numeral();
                    assert(old(self)@.numeral().1->Done_0 == bytes@);
                    lemma_ascii_text(bytes@);
                }
                match decode_text(bytes) {
                    Ok(text) => Step::Done(text),
                    Err(error) => Step::Failed(error),
                }
            },
            _ => Step::More,
        }
    }

    /// Takes an integer of the named type, whose values lie between `min` and `max`.
    fn parse_integer(&mut self, min: i128, max: i128, name: &str) -> (step: Step<i128, Error>)
        requires
            i64::MIN <= min <= 0 <= max <= u64::MAX,
        ensures
            ({
                let (input, outcome) = old(self)@.parse_integer(min as int, max as int, name@);
                &&& final(self)@ == input
                &&& match step {
                    Step::More => outcome == Step::<int, Seq<char>>::More,
                    Step::Done(value) => outcome == Step::<int, Seq<char>>::Done(value as int)
                        && min <= value <= max,
                    Step::Failed(error) => outcome == Step::<int, Seq<char>>::Failed(error@),
                }
            }),
    {
        match self.parse_number() {
            Step::More => Step::More,
            Step::Failed(error) => Step::Failed(error),
            Step::Done(text) => {
                let bytes = text.as_str().as_bytes();
                proof {
                    old(self)@.lemma_numeral();
                    let numeral = old(self)@.numeral().1->Done_0;
                    lemma_ascii_text(numeral);
                    decode_utf8_encode_utf8(numeral);
                }
                match parse_integer(bytes, min, max) {
                    Ok(value) => Step::Done(value),
                    Err(error) => Step::Failed(Error::invalid_value(error.as_str(), name)),
                }
            },
        }
    }

    /// Takes an `i8`.
    pub fn decode_i8(&mut self) -> (step: Step<i8, Error>)
        ensures
            (final(self)@, step@) == old(self)@.decode_i8(),
    {
        match self.parse_integer(i8::MIN as i128, i8::MAX as i128, "i8") {
            Step::More => Step::More,
            Step::Done(value) => Step::Done(value as i8),
            Step::Failed(error) => Step::Failed(error),
        }
    }

    /// Takes an `i16`.
    pub fn decode_i16(&mut self) -> (step: Step<i16, Error>)
        ensures
            (final(self)@, step@) == old(self)@.decode_i16(),
    {
        match self.parse_integer(i16::MIN as i128, i16::MAX as i128, "i16") {
            Step::More => Step::More,
            Step::Done(value) => Step::Done(value as i16),
            Step::Failed(error) => Step::Failed(error),
        }
    }

    /// Takes an `i32`.
    pub fn decode_i32(&mut self) -> (step: Step<i32, Error>)
        ensures
            (final(self)@, step@) == old(self)@.decode_i32(),
    {
        match self.parse_integer(i32::MIN as i128, i32::MAX as i128, "i32") {
            Step::More => Step::More,
            Step::Done(value) => Step::Done(value as i32),
            Step::Failed(error) => Step::Failed(error),
        }
    }

    /// Takes an `i64`.
    pub fn decode_i64(&mut self) -> (step: Step<i64, Error>)
        ensures
            (final(self)@, step@) == old(self)@.decode_i64(),
    {
        match self.parse_integer(i64::MIN as i128, i64::MAX as i128, "i64") {
            Step::More => Step::More,
            Step::Done(value) => Step::Done(value as i64),
            Step::Failed(error) => Step::Failed(error),
        }
    }

    /// Takes a `u8`.
    pub fn decode_u8(&mut self) -> (step: Step<u8, Error>)
        ensures
            (final(self)@, step@) == old(self)@.decode_u8(),
    {
        match self.parse_integer(u8::MIN as i128, u8::MAX as i128, "u8") {
            Step::More => Step::More,
            Step::Done(value) => Step::Done(value as u8),
            Step::Failed(error) => Step::Failed(error),
        }
    }

    /// Takes a `u16`.
    pub fn decode_u16(&mut self) -> (step: Step<u16, Error>)
        ensures
            (final(self)@, step@) == old(self)@.decode_u16(),
    {
        match self.parse_integer(u16::MIN as i128, u16::MAX as i128, "u16") {
            Step::More => Step::More,
            Step::Done(value) => Step::Done(value as u16),
            Step::Failed(error) => Step::Failed(error),
        }
    }

    /// Takes a `u32`.
    pub fn decode_u32(&mut self) -> (step: Step<u32, Error>)
        ensures
            (final(self)@, step@) == old(self)@.decode_u32(),
    {
        match self.parse_integer(u32::MIN as i128, u32::MAX as i128, "u32") {
            Step::More => Step::More,
            Step::Done(value) => Step::Done(value as u32),
            Step::Failed(error) => Step::Failed(error),
        }
    }

    /// Takes a `u64`.
    pub fn decode_u64(&mut self) -> (step: Step<u64, Error>)
        ensures
            (final(self)@, step@) == old(self)@.decode_u64(),
    {
        match self.parse_integer(u64::MIN as i128, u64::MAX as i128, "u64") {
            Step::More => Step::More,
            Step::Done(value) => Step::Done(value as u64),
            Step::Failed(error) => Step::Failed(error),
        }
    }

    /// Takes a number, and tells whether it has a decimal point.
    pub fn decode_number(&mut self) -> (step: Step<Number<String>, Error>)
        requires
            old(self)@.rest.len() > 0,
        ensures
            (final(self)@, step@) == old(self)@.decode_number(),
    {
        let len = self.run(Class::Integral);
        if len == self.buffer.len() && self.stage == Stage::Open {
            return Step::More;
        }
        if len < self.buffer.len() && self.buffer[len] == DECIMAL {
            match self.parse_number() {
                Step::More => Step::More,
                Step::Done(text) => Step::Done(Number::Float(text)),
                Step::Failed(error) => Step::Failed(error),
            }
        } else {
            match self.decode_i64() {
                Step::More => Step::More,
                Step::Done(value) => Step::Done(Number::Integer(value)),
                Step::Failed(error) => Step::Failed(error),
            }
        }
    }

    /// Takes a quoted string, and the white space before it.
    pub fn decode_string(&mut self) -> (step: Step<String, Error>)
        ensures
            (final(self)@, step@) == old(self)@.decode_string(),
    {
        match self.expect_whitespace() {
            Step::Done(_) => self.parse_string(),
            _ => Step::More,
        }
    }

    /// Takes a quoted string of base64, and gives the bytes that it stands for.
    pub fn decode_byte_buf(&mut self) -> (step: Step<Vec<u8>, Error>)
        ensures
            (final(self)@, step@) == old(self)@.decode_byte_buf(),
    {
        match self.parse_string() {
            Step::More => Step::More,
            Step::Failed(error) => Step::Failed(error),
            Step::Done(text) => match decode_base64(text.as_str()) {
                Ok(bytes) => Step::Done(bytes),
                Err(error) => Step::Failed(error),
            },
        }
    }

    /// Takes `null` if it comes next, and tells whether there is a value in its place.
    pub fn decode_option(&mut self) -> (step: Step<bool, Error>)
        ensures
            (final(self)@, step@) == old(self)@.decode_option(),
    {
        match self.expect_whitespace() {
            Step::Done(_) => {},
            _ => {
                return Step::More;
            },
        }
        if !self.reaches(4) {
            return Step::More;
        }
        if starts_with(&self.buffer, &NULL) {
            let _ = self.take(4);
            Step::Done(false)
        } else {
            Step::Done(true)
        }
    }

    /// Takes a value of whatever type. A list or a map is opened by it: its items are to be
    /// read next.
    pub fn decode_any(&mut self, expected: &str) -> (step: Step<Any<String>, Error>)
        ensures
            (final(self)@, step@) == old(self)@.decode_any(expected@),
    {
        match self.expect_whitespace() {
            Step::Done(_) => {},
            _ => {
                return Step::More;
            },
        }
        if self.buffer.is_empty() {
            return Step::Failed(Error::unexpected_end());
        }
        let first = self.buffer[0];
        if first == QUOTE {
            match self.parse_string() {
                Step::More => Step::More,
                Step::Done(text) => Step::Done(Any::Text(text)),
                Step::Failed(error) => Step::Failed(error),
            }
        } else if first == MAP_BEGIN {
            let _ = self.take(1);
            Step::Done(Any::MapBegin)
        } else if first == LIST_BEGIN {
            let _ = self.take(1);
            Step::Done(Any::ListBegin)
        } else if is_numeric(first) {
            match self.decode_number() {
                Step::More => Step::More,
                Step::Done(number) => Step::Done(Any::Number(number)),
                Step::Failed(error) => Step::Failed(error),
            }
        } else {
            self.word_here(expected)
        }
    }

    /// Takes `true`, `false` or `null` from an input that begins with it.
    fn word_here(&mut self, expected: &str) -> (step: Step<Any<String>, Error>)
        ensures
            (final(self)@, step@) == old(self)@.word_here(expected@),
    {
        if !self.reaches(4) {
            return Step::More;
        }
        if starts_with(&self.buffer, &TRUE) {
            let _ = self.take(4);
            return Step::Done(Any::Bool(true));
        }
        if starts_with(&self.buffer, &NULL) {
            let _ = self.take(4);
            return Step::Done(Any::Null);
        }
        if !self.reaches(5) {
            return Step::More;
        }
        if starts_with(&self.buffer, &FALSE) {
            let _ = self.take(5);
            return Step::Done(Any::Bool(false));
        }
        match self.head_text() {
            Ok(text) => Step::Failed(Error::invalid_value(text.as_str(), expected)),
            Err(error) => Step::Failed(error),
        }
    }

    /// Takes a value that is not wanted. If it is a number, gives its text, which is still to
    /// be checked.
    pub fn ignore_value(&mut self) -> (step: Step<Ignored<String>, Error>)
        ensures
            (final(self)@, step@) == old(self)@.ignore_value(),
    {
        match self.expect_whitespace() {
            Step::Done(_) => {},
            _ => {
                return Step::More;
            },
        }
        if self.buffer.is_empty() {
            return Step::Done(Ignored::Checked);
        }
        let first = self.buffer[0];
        if first == QUOTE {
            match self.parse_string() {
                Step::More => Step::More,
                Step::Done(_) => Step::Done(Ignored::Checked),
                Step::Failed(error) => Step::Failed(error),
            }
        } else if is_numeric(first) {
            match self.parse_number() {
                Step::More => Step::More,
                Step::Done(text) => Step::Done(Ignored::Number(text)),
                Step::Failed(error) => Step::Failed(error),
            }
        } else if first == 'n' as u8 {
            match self.unit_here() {
                Step::More => Step::More,
                Step::Done(_) => Step::Done(Ignored::Checked),
                Step::Failed(error) => Step::Failed(error),
            }
        } else {
            match self.bool_here() {
                Step::More => Step::More,
                Step::Done(_) => Step::Done(Ignored::Checked),
                Step::Failed(error) => Step::Failed(error),
            }
        }
    }
}

} // verus!
