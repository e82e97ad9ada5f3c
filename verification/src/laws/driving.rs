//! Readings and a source that is asked for the document chunk by chunk.
//!
//! A reading that is put off is repeated after the source was asked for one thing more. What is
//! read in this way, value after value, is what is read when all of the document is at hand
//! from the start; and so it does not depend on how the document is cut into chunks. Of a `null`
//! and of a value that is not wanted, this is so but for the message of an error.

use vstd::prelude::*;

use crate::input::{Input, Reading};
use crate::laws::items::{
    law_read_begin, law_read_list, law_read_map, list_notation, list_of, map_notation, map_of,
    optional, read_list, read_map, reads, Item,
};
use crate::laws::notation::blank;
use crate::laws::order::{
    law_begin_orderly, law_buffer_while_orderly, law_byte_orderly, law_decode_any_orderly,
    law_delimiter_orderly, law_ignore_value_orderly, law_number_orderly, law_string_orderly,
    law_word_orderly, orderly,
};
use crate::laws::streaming::{
    at_token, law_begin_streams, law_begin_value_streams, law_buffer_string_streams,
    law_buffer_while_streams, law_byte_streams, law_decode_any_streams, law_delimiter_streams,
    law_expect_whitespace_streams, law_i16_streams, law_i32_streams, law_i64_streams,
    law_i8_streams, law_number_streams, law_string_streams, law_u16_streams, law_u32_streams,
    law_u64_streams, law_u8_streams, law_word_streams, lemma_at_token, lemma_same_streams,
    lemma_trimmed_streams, lemma_words_buffer, streams, streams_at, trimmed,
};
use crate::lexical::{
    numeric, Class, COLON, COMMA, LIST_BEGIN, LIST_END, MAP_BEGIN, MAP_END, QUOTE,
};
use crate::step::{Stage, Step};

verus! {

/// The input once the source has handed over all of the chunks, and, if it `ends`, its end.
pub open spec fn fed(input: Input, chunks: Seq<Seq<u8>>, ends: bool) -> Input
    decreases chunks.len(),
{
    if chunks.len() > 0 {
        fed(input.buffer(Some(chunks[0])), chunks.skip(1), ends)
    } else if ends {
        input.buffer(None)
    } else {
        input
    }
}

/// All that matters of the chunks is what they are together.
pub proof fn law_fed(input: Input, chunks: Seq<Seq<u8>>, ends: bool)
    ensures
        fed(input, chunks, ends) == Input::of(
            input.rest + chunks.flatten(),
            if ends {
                Stage::Closed
            } else {
                input.stage
            },
        ),
    decreases chunks.len(),
{
    if chunks.len() > 0 {
        law_fed(input.buffer(Some(chunks[0])), chunks.skip(1), ends);
        assert(chunks.drop_first() =~= chunks.skip(1));
        assert(input.rest + chunks[0] + chunks.skip(1).flatten() =~= input.rest + (chunks[0]
            + chunks.skip(1).flatten()));
    } else {
        assert(input.rest + chunks.flatten() =~= input.rest);
    }
}

/// What a decoder has before it, and what its source still has.
#[verifier::ext_equal]
pub struct Supply {
    /// What the decoder has before it.
    pub input: Input,
    /// The chunks that the source was not asked for yet.
    pub chunks: Seq<Seq<u8>>,
    /// Whether the source ends after them.
    pub ends: bool,
}

/// What a reading leaves that asks the source for as much as it needs, and its outcome.
pub type Driven<T> = (Supply, Step<T, Seq<char>>);

impl Supply {
    /// Nothing comes after the end.
    pub open spec fn is_sound(self) -> bool {
        self.input.stage == Stage::Open || self.chunks.len() == 0
    }

    /// The input once the source has handed over all that it has.
    pub open spec fn whole(self) -> Input {
        fed(self.input, self.chunks, self.ends)
    }

    /// The supply when a reading has left the given input.
    pub open spec fn at(self, input: Input) -> Supply {
        Supply { input, chunks: self.chunks, ends: self.ends }
    }

    /// Whether the source has anything to hand over.
    pub open spec fn has_more(self) -> bool {
        self.chunks.len() > 0 || self.ends && self.input.stage == Stage::Open
    }

    /// The supply once the source has handed over what it has next.
    pub open spec fn pulled(self) -> Supply {
        if self.chunks.len() > 0 {
            Supply {
                input: self.input.buffer(Some(self.chunks[0])),
                chunks: self.chunks.skip(1),
                ends: self.ends,
            }
        } else {
            self.at(self.input.buffer(None))
        }
    }
}

/// What a reading comes to that is repeated, each time after the source was asked for one thing
/// more, until it has an outcome or the source has nothing.
pub open spec fn driven<T>(op: spec_fn(Input) -> Reading<T>, supply: Supply) -> Driven<T>
    decreases
            supply.chunks.len(),
            if supply.input.stage == Stage::Open {
                1int
            } else {
                0
            },
{
    match op(supply.input) {
        (left, Step::More) => if supply.has_more() {
            driven(op, supply.at(left).pulled())
        } else {
            (supply.at(left), Step::More)
        },
        (left, outcome) => (supply.at(left), outcome),
    }
}

/// The outcome is that of `reading`, which has all of the document at hand, and so is what is
/// left, once the source has handed over the rest.
pub open spec fn agrees<T>(supply: Supply, result: Driven<T>, reading: Reading<T>) -> bool {
    &&& result.0.is_sound()
    &&& result.0.ends == supply.ends
    &&& reading == (result.0.whole(), result.1)
}

/// To read by `drive`, which asks the source for as much as it needs, comes to what `op` comes
/// to when all of the document is at hand.
pub open spec fn comes_to<T>(
    drive: spec_fn(Supply) -> Driven<T>,
    op: spec_fn(Input) -> Reading<T>,
) -> bool {
    forall|supply: Supply|
        supply.is_sound() ==> agrees(supply, #[trigger] drive(supply), op(supply.whole()))
}

/// The reading can be repeated when it was put off, and is put off only while there may be
/// more to come.
pub open spec fn is_repeatable<T>(op: spec_fn(Input) -> Reading<T>) -> bool {
    &&& streams(op)
    &&& forall|input: Input| orderly(input, #[trigger] op(input))
}

/// Inputs at which a reading comes to the same are still such inputs when both get more.
proof fn lemma_fed_alike<T>(
    op: spec_fn(Input) -> Reading<T>,
    one: Input,
    other: Input,
    chunks: Seq<Seq<u8>>,
    ends: bool,
)
    requires
        streams(op),
        one.stage == Stage::Open,
        other.stage == Stage::Open,
        op(one) == op(other),
    ensures
        op(fed(one, chunks, ends)) == op(fed(other, chunks, ends)),
    decreases chunks.len(),
{
    if chunks.len() > 0 {
        let data = Some(chunks[0]);
        assert(streams_at(op, one, data));
        assert(streams_at(op, other, data));
        lemma_fed_alike(op, one.buffer(data), other.buffer(data), chunks.skip(1), ends);
    } else {
        assert(streams_at(op, one, None));
        assert(streams_at(op, other, None));
    }
}

/// A reading that has an outcome keeps it, and what it leaves is followed by what comes next.
proof fn lemma_fed_settled<T>(
    op: spec_fn(Input) -> Reading<T>,
    input: Input,
    chunks: Seq<Seq<u8>>,
    ends: bool,
)
    requires
        streams(op),
        input.stage == Stage::Open,
        !(op(input).1 is More),
    ensures
        op(fed(input, chunks, ends)) == (fed(op(input).0, chunks, ends), op(input).1),
    decreases chunks.len(),
{
    if chunks.len() > 0 {
        let data = Some(chunks[0]);
        assert(streams_at(op, input, data));
        lemma_fed_settled(op, input.buffer(data), chunks.skip(1), ends);
    } else {
        assert(streams_at(op, input, None));
    }
}

proof fn lemma_driven<T>(op: spec_fn(Input) -> Reading<T>, supply: Supply)
    requires
        is_repeatable(op),
        supply.is_sound(),
    ensures
        agrees(supply, driven(op, supply), op(supply.whole())),
    decreases
            supply.chunks.len(),
            if supply.input.stage == Stage::Open {
                1int
            } else {
                0
            },
{
    let (left, outcome) = op(supply.input);
    let (chunks, ends) = (supply.chunks, supply.ends);
    assert(orderly(supply.input, op(supply.input)));
    if supply.input.stage == Stage::Closed {
        assert(supply.whole() == supply.input);
        assert(supply.at(left).whole() == left);
    } else if !(outcome is More) {
        lemma_fed_settled(op, supply.input, chunks, ends);
    } else if supply.has_more() {
        let data = if chunks.len() > 0 {
            Some(chunks[0])
        } else {
            None
        };
        assert(streams_at(op, supply.input, data));
        lemma_driven(op, supply.at(left).pulled());
        if chunks.len() > 0 {
            lemma_fed_alike(
                op,
                left.buffer(data),
                supply.input.buffer(data),
                chunks.skip(1),
                ends,
            );
        }
    }
}

/// To ask the source for one chunk at a time, and only when a reading needs it, makes no
/// difference: the reading comes to what it comes to when all is at hand from the start.
pub proof fn law_driven<T>(op: spec_fn(Input) -> Reading<T>)
    requires
        is_repeatable(op),
    ensures
        comes_to(|supply: Supply| driven(op, supply), op),
{
    let drive = |supply: Supply| driven(op, supply);
    assert forall|supply: Supply| supply.is_sound() implies agrees(
        supply,
        #[trigger] drive(supply),
        op(supply.whole()),
    ) by {
        lemma_driven(op, supply);
    }
}

/// How a document is cut into chunks makes no difference to what is read.
pub proof fn law_chunking<T>(
    drive: spec_fn(Supply) -> Driven<T>,
    op: spec_fn(Input) -> Reading<T>,
    one: Supply,
    other: Supply,
)
    requires
        comes_to(drive, op),
        one.is_sound(),
        other.is_sound(),
        one.input == other.input,
        one.chunks.flatten() == other.chunks.flatten(),
        one.ends == other.ends,
    ensures
        drive(one).1 == drive(other).1,
        drive(one).0.whole() == drive(other).0.whole(),
{
    law_fed(one.input, one.chunks, one.ends);
    law_fed(other.input, other.chunks, other.ends);
}

/// The readings of single values can be repeated.
pub proof fn law_values_repeatable(min: int, max: int, name: Seq<char>, expected: Seq<char>)
    ensures
        is_repeatable(|i: Input| i.parse_bool()),
        is_repeatable(|i: Input| i.decode_option()),
        is_repeatable(|i: Input| i.decode_string()),
        is_repeatable(|i: Input| i.decode_byte_buf()),
        is_repeatable(|i: Input| i.parse_number()),
        is_repeatable(|i: Input| i.parse_integer(min, max, name)),
        is_repeatable(|i: Input| i.decode_any(expected)),
{
    law_word_streams();
    law_string_streams();
    law_number_streams(min, max, name);
    law_decode_any_streams(expected);
    assert forall|input: Input|
        #![trigger input.parse_bool()]
        #![trigger input.decode_option()]
        orderly(input, input.parse_bool()) && orderly(input, input.decode_option()) by {
        law_word_orderly(input);
    }
    assert forall|input: Input|
        #![trigger input.decode_string()]
        #![trigger input.decode_byte_buf()]
        orderly(input, input.decode_string()) && orderly(input, input.decode_byte_buf()) by {
        law_string_orderly(input);
    }
    assert forall|input: Input|
        #![trigger input.parse_number()]
        #![trigger input.parse_integer(min, max, name)]
        orderly(input, input.parse_number()) && orderly(
            input,
            input.parse_integer(min, max, name),
        ) by {
        law_number_orderly(input, min, max, name);
    }
    assert forall|input: Input| orderly(input, #[trigger] input.decode_any(expected)) by {
        law_decode_any_orderly(input, expected);
    }
}

/// The readings of the integer types can be repeated.
pub proof fn law_integers_repeatable()
    ensures
        is_repeatable(|i: Input| i.decode_i8()),
        is_repeatable(|i: Input| i.decode_i16()),
        is_repeatable(|i: Input| i.decode_i32()),
        is_repeatable(|i: Input| i.decode_i64()),
        is_repeatable(|i: Input| i.decode_u8()),
        is_repeatable(|i: Input| i.decode_u16()),
        is_repeatable(|i: Input| i.decode_u32()),
        is_repeatable(|i: Input| i.decode_u64()),
{
    law_i8_streams();
    law_i16_streams();
    law_i32_streams();
    law_i64_streams();
    law_u8_streams();
    law_u16_streams();
    law_u32_streams();
    law_u64_streams();
    assert forall|input: Input|
        #![trigger input.decode_i8()]
        #![trigger input.decode_i16()]
        #![trigger input.decode_i32()]
        #![trigger input.decode_i64()]
        #![trigger input.decode_u8()]
        #![trigger input.decode_u16()]
        #![trigger input.decode_u32()]
        #![trigger input.decode_u64()]
        {
            &&& orderly(input, input.decode_i8())
            &&& orderly(input, input.decode_i16())
            &&& orderly(input, input.decode_i32())
            &&& orderly(input, input.decode_i64())
            &&& orderly(input, input.decode_u8())
            &&& orderly(input, input.decode_u16())
            &&& orderly(input, input.decode_u32())
            &&& orderly(input, input.decode_u64())
        } by {
        law_number_orderly(input, 0, 0, Seq::empty());
    }
}

/// The readings of what stands around values can be repeated, and those of runs of bytes and of
/// what is between quotes.
pub proof fn law_delimiters_repeatable(byte: u8, class: Class, size_hint: Option<usize>)
    ensures
        is_repeatable(|i: Input| i.expect_byte(byte)),
        is_repeatable(|i: Input| i.maybe_byte(byte)),
        is_repeatable(|i: Input| i.expect_comma_or(byte)),
        is_repeatable(|i: Input| i.has_next(byte)),
        is_repeatable(|i: Input| i.begin_list(size_hint)),
        is_repeatable(|i: Input| i.begin_map(size_hint)),
        is_repeatable(|i: Input| i.buffer_while(class)),
        is_repeatable(|i: Input| i.expect_whitespace()),
        is_repeatable(|i: Input| i.buffer_string()),
        is_repeatable(|i: Input| i.parse_string()),
{
    law_byte_streams(byte);
    law_delimiter_streams(byte);
    law_begin_streams(size_hint);
    law_buffer_while_streams(class);
    law_expect_whitespace_streams();
    law_buffer_string_streams();
    law_string_streams();
    assert forall|input: Input|
        #![trigger input.expect_byte(byte)]
        #![trigger input.maybe_byte(byte)]
        orderly(input, input.expect_byte(byte)) && orderly(input, input.maybe_byte(byte)) by {
        law_byte_orderly(input, byte);
    }
    assert forall|input: Input|
        #![trigger input.has_next(byte)]
        #![trigger input.expect_comma_or(byte)]
        orderly(input, input.has_next(byte)) && orderly(input, input.expect_comma_or(byte)) by {
        law_delimiter_orderly(input, byte);
    }
    assert forall|input: Input|
        #![trigger input.begin_list(size_hint)]
        #![trigger input.begin_map(size_hint)]
        orderly(input, input.begin_list(size_hint)) && orderly(
            input,
            input.begin_map(size_hint),
        ) by {
        law_begin_orderly(input, size_hint, false);
    }
    assert forall|input: Input|
        #![trigger input.buffer_while(class)]
        #![trigger input.expect_whitespace()]
        orderly(input, input.buffer_while(class)) && orderly(input, input.expect_whitespace()) by {
        law_buffer_while_orderly(input, class);
    }
    assert forall|input: Input|
        #![trigger input.buffer_string()]
        #![trigger input.parse_string()]
        orderly(input, input.buffer_string()) && orderly(input, input.parse_string()) by {
        law_string_orderly(input);
    }
}

/// The outcomes are the same, but for the message if they are failures.
pub open spec fn same_but_message<T>(
    one: Step<T, Seq<char>>,
    other: Step<T, Seq<char>>,
) -> bool {
    if one is Failed {
        other is Failed
    } else {
        one == other
    }
}

/// The reading, with its message left out.
spec fn untold<T>(op: spec_fn(Input) -> Reading<T>) -> spec_fn(Input) -> Reading<T> {
    |input: Input|
        match op(input) {
            (left, Step::Failed(_)) => (left, Step::Failed(Seq::empty())),
            (left, outcome) => (left, outcome),
        }
}

/// What a reading leaves does not depend on its message, nor does what the source is asked for.
proof fn lemma_driven_untold<T>(op: spec_fn(Input) -> Reading<T>, supply: Supply)
    ensures
        ({
            let (left, outcome) = driven(op, supply);
            driven(untold(op), supply) == match outcome {
                Step::Failed(_) => (left, Step::<T, Seq<char>>::Failed(Seq::empty())),
                _ => (left, outcome),
            }
        }),
    decreases
            supply.chunks.len(),
            if supply.input.stage == Stage::Open {
                1int
            } else {
                0
            },
{
    let (left, outcome) = op(supply.input);
    if outcome is More && supply.has_more() {
        lemma_driven_untold(op, supply.at(left).pulled());
    }
}

/// A reading that can be repeated but for its message comes to what it comes to when all is at
/// hand, but for its message.
proof fn lemma_driven_but_message<T>(op: spec_fn(Input) -> Reading<T>, supply: Supply)
    requires
        is_repeatable(untold(op)),
        supply.is_sound(),
    ensures
        ({
            let (left, outcome) = driven(op, supply);
            let (all, whole) = op(supply.whole());
            &&& left.is_sound()
            &&& left.ends == supply.ends
            &&& left.whole() == all
            &&& same_but_message(outcome, whole)
        }),
{
    lemma_driven(untold(op), supply);
    lemma_driven_untold(op, supply);
}

/// That the source is asked chunk by chunk makes no difference to the reading of `null`, but
/// for the message where it is refused.
pub proof fn law_parse_unit_driven(supply: Supply)
    requires
        supply.is_sound(),
    ensures
        ({
            let (left, outcome) = driven(|i: Input| i.parse_unit(), supply);
            let (all, whole) = supply.whole().parse_unit();
            &&& left.is_sound()
            &&& left.ends == supply.ends
            &&& left.whole() == all
            &&& same_but_message(outcome, whole)
        }),
{
    let op = |i: Input| i.parse_unit();
    let here = |i: Input| i.unit_here();
    assert forall|input: Input, data: Option<Seq<u8>>| at_token(input) implies #[trigger] streams_at(
        untold(here),
        input,
        data,
    ) by {
        lemma_words_buffer(input, data);
    }
    lemma_trimmed_streams(untold(here));
    lemma_same_streams(trimmed(untold(here)), untold(op));
    assert forall|input: Input| orderly(input, #[trigger] untold(op)(input)) by {
        law_word_orderly(input);
    }
    lemma_driven_but_message(op, supply);
}

/// That the source is asked chunk by chunk makes no difference to the reading of a value that is
/// not wanted, but for the message where it is refused.
pub proof fn law_ignore_value_driven(supply: Supply)
    requires
        supply.is_sound(),
    ensures
        ({
            let (left, outcome) = driven(|i: Input| i.ignore_value(), supply);
            let (all, whole) = supply.whole().ignore_value();
            &&& left.is_sound()
            &&& left.ends == supply.ends
            &&& left.whole() == all
            &&& same_but_message(outcome, whole)
        }),
{
    let op = |i: Input| i.ignore_value();
    let here = |i: Input| i.ignore_here();
    assert forall|input: Input, data: Option<Seq<u8>>| at_token(input) implies #[trigger] streams_at(
        untold(here),
        input,
        data,
    ) by {
        lemma_ignore_here_buffer(input, data);
    }
    assert forall|input: Input| at_token(input) && (#[trigger] untold(here)(input)).1 is More implies
        untold(here)(input).0 == input by {
        lemma_ignore_here_buffer(input, None);
    }
    lemma_trimmed_streams(untold(here));
    lemma_same_streams(trimmed(untold(here)), untold(op));
    assert forall|input: Input| orderly(input, #[trigger] untold(op)(input)) by {
        law_ignore_value_orderly(input);
    }
    lemma_driven_but_message(op, supply);
}

/// What comes next changes at most the message of the reading of a value that is not wanted.
proof fn lemma_ignore_here_buffer(input: Input, data: Option<Seq<u8>>)
    requires
        at_token(input),
    ensures
        streams_at(untold(|i: Input| i.ignore_here()), input, data),
        input.ignore_here().1 is More ==> input.ignore_here().0 == input,
{
    assert(input.buffer(data).rest[0] == input.rest[0]);
    lemma_at_token(input);
    lemma_words_buffer(input, data);
    if input.rest[0] == QUOTE {
        law_string_streams();
        assert(streams_at(|i: Input| i.parse_string(), input, data));
    } else if numeric(input.rest[0]) {
        law_number_streams(0, 0, Seq::empty());
        assert(streams_at(|i: Input| i.parse_number(), input, data));
    }
}

/// Asks whether there is another item before `end`.
pub open spec fn drive_next(supply: Supply, end: u8) -> Driven<bool> {
    driven(|i: Input| i.has_next(end), supply)
}

/// Takes what follows an item.
pub open spec fn drive_end(supply: Supply, end: u8) -> Driven<()> {
    driven(|i: Input| i.expect_comma_or(end), supply)
}

/// Takes what stands between a key and its value; `after_colon` tells whether the colon was
/// taken.
pub open spec fn drive_value(supply: Supply, after_colon: bool) -> Driven<()>
    decreases
            supply.chunks.len(),
            if supply.input.stage == Stage::Open {
                1int
            } else {
                0
            },
{
    match supply.input.begin_value(after_colon) {
        (left, taken, Step::More) => if supply.has_more() {
            drive_value(supply.at(left).pulled(), taken)
        } else {
            (supply.at(left), Step::More)
        },
        (left, _, outcome) => (supply.at(left), outcome),
    }
}

proof fn lemma_delimiters(supply: Supply, byte: u8)
    requires
        supply.is_sound(),
    ensures
        agrees(supply, drive_next(supply, byte), supply.whole().has_next(byte)),
        agrees(supply, drive_end(supply, byte), supply.whole().expect_comma_or(byte)),
{
    law_delimiters_repeatable(byte, Class::Numeric, None);
    lemma_driven(|i: Input| i.has_next(byte), supply);
    lemma_driven(|i: Input| i.expect_comma_or(byte), supply);
}

/// Inputs between a key and its value that come to the same still do so when both get more.
proof fn lemma_value_alike(
    one: Input,
    one_taken: bool,
    other: Input,
    other_taken: bool,
    chunks: Seq<Seq<u8>>,
    ends: bool,
)
    requires
        one.stage == Stage::Open,
        other.stage == Stage::Open,
        one.begin_value(one_taken) == other.begin_value(other_taken),
    ensures
        fed(one, chunks, ends).begin_value(one_taken) == fed(other, chunks, ends).begin_value(
            other_taken,
        ),
    decreases chunks.len(),
{
    let data = if chunks.len() > 0 {
        Some(chunks[0])
    } else {
        None
    };
    law_begin_value_streams(one, data, one_taken);
    law_begin_value_streams(other, data, other_taken);
    if chunks.len() > 0 {
        lemma_value_alike(
            one.buffer(data),
            one_taken,
            other.buffer(data),
            other_taken,
            chunks.skip(1),
            ends,
        );
    }
}

/// What was taken between a key and its value stays taken.
proof fn lemma_value_settled(input: Input, taken: bool, chunks: Seq<Seq<u8>>, ends: bool)
    requires
        input.stage == Stage::Open,
        !(input.begin_value(taken).2 is More),
    ensures
        ({
            let (left, after, outcome) = input.begin_value(taken);
            fed(input, chunks, ends).begin_value(taken) == (
                fed(left, chunks, ends),
                after,
                outcome,
            )
        }),
    decreases chunks.len(),
{
    let data = if chunks.len() > 0 {
        Some(chunks[0])
    } else {
        None
    };
    law_begin_value_streams(input, data, taken);
    if chunks.len() > 0 {
        lemma_value_settled(input.buffer(data), taken, chunks.skip(1), ends);
    }
}

/// Between a key and its value, it makes no difference that the source is asked chunk by chunk.
pub proof fn law_drive_value(supply: Supply, taken: bool)
    requires
        supply.is_sound(),
    ensures
        ({
            let (left, _, outcome) = supply.whole().begin_value(taken);
            agrees(supply, drive_value(supply, taken), (left, outcome))
        }),
    decreases
            supply.chunks.len(),
            if supply.input.stage == Stage::Open {
                1int
            } else {
                0
            },
{
    let (left, after, outcome) = supply.input.begin_value(taken);
    let (chunks, ends) = (supply.chunks, supply.ends);
    law_begin_orderly(supply.input, None, taken);
    if supply.input.stage == Stage::Closed {
        assert(supply.whole() == supply.input);
        assert(supply.at(left).whole() == left);
    } else if !(outcome is More) {
        lemma_value_settled(supply.input, taken, chunks, ends);
    } else if supply.has_more() {
        let data = if chunks.len() > 0 {
            Some(chunks[0])
        } else {
            None
        };
        law_begin_value_streams(supply.input, data, taken);
        law_drive_value(supply.at(left).pulled(), after);
        if chunks.len() > 0 {
            lemma_value_alike(
                left.buffer(data),
                after,
                supply.input.buffer(data),
                taken,
                chunks.skip(1),
                ends,
            );
        }
    }
}

/// Reads an optional value: whether there is one, and the value if there is.
pub open spec fn drive_option<T>(
    drive: spec_fn(Supply) -> Driven<T>,
) -> spec_fn(Supply) -> Driven<Option<T>> {
    |supply: Supply|
        match driven(|i: Input| i.decode_option(), supply) {
            (left, Step::Done(true)) => match drive(left) {
                (left, Step::Done(value)) => (left, Step::Done(Some(value))),
                (left, Step::Failed(message)) => (left, Step::Failed(message)),
                (left, Step::More) => (left, Step::More),
            },
            (left, Step::Done(false)) => (left, Step::Done(None)),
            (left, Step::Failed(message)) => (left, Step::Failed(message)),
            (left, Step::More) => (left, Step::More),
        }
}

/// Reads the elements of a list, up to `limit` of them, whose beginning was taken.
pub open spec fn drive_elements<T>(
    drive: spec_fn(Supply) -> Driven<T>,
    supply: Supply,
    limit: nat,
) -> Driven<Seq<T>>
    decreases limit,
{
    match drive_next(supply, LIST_END) {
        (left, Step::Done(true)) => match drive(left) {
            (left, Step::Done(value)) => match drive_end(left, LIST_END) {
                (left, Step::Done(_)) => if limit == 0 {
                    (left, Step::More)
                } else {
                    match drive_elements(drive, left, (limit - 1) as nat) {
                        (left, Step::Done(values)) => (left, Step::Done(seq![value] + values)),
                        (left, outcome) => (left, outcome),
                    }
                },
                (left, Step::Failed(message)) => (left, Step::Failed(message)),
                (left, Step::More) => (left, Step::More),
            },
            (left, Step::Failed(message)) => (left, Step::Failed(message)),
            (left, Step::More) => (left, Step::More),
        },
        (left, Step::Done(false)) => (left, Step::Done(Seq::empty())),
        (left, Step::Failed(message)) => (left, Step::Failed(message)),
        (left, Step::More) => (left, Step::More),
    }
}

/// Reads a list of up to `limit` elements, with its beginning, which is handed the given size
/// hint.
pub open spec fn drive_list<T>(
    drive: spec_fn(Supply) -> Driven<T>,
    size_hint: Option<usize>,
    limit: nat,
) -> spec_fn(Supply) -> Driven<Seq<T>> {
    |supply: Supply|
        match driven(|i: Input| i.begin_list(size_hint), supply) {
            (left, Step::Done(_)) => drive_elements(drive, left, limit),
            (left, Step::Failed(message)) => (left, Step::Failed(message)),
            (left, Step::More) => (left, Step::More),
        }
}

/// Reads the entries of a map, up to `limit` of them, whose beginning was taken.
pub open spec fn drive_entries<K, V>(
    drive_key: spec_fn(Supply) -> Driven<K>,
    drive: spec_fn(Supply) -> Driven<V>,
    supply: Supply,
    limit: nat,
) -> Driven<Seq<(K, V)>>
    decreases limit,
{
    match drive_next(supply, MAP_END) {
        (left, Step::Done(true)) => match drive_key(left) {
            (left, Step::Done(key)) => match drive_value(left, false) {
                (left, Step::Done(_)) => match drive(left) {
                    (left, Step::Done(value)) => match drive_end(left, MAP_END) {
                        (left, Step::Done(_)) => if limit == 0 {
                            (left, Step::More)
                        } else {
                            match drive_entries(drive_key, drive, left, (limit - 1) as nat) {
                                (left, Step::Done(entries)) => (
                                    left,
                                    Step::Done(seq![(key, value)] + entries),
                                ),
                                (left, outcome) => (left, outcome),
                            }
                        },
                        (left, Step::Failed(message)) => (left, Step::Failed(message)),
                        (left, Step::More) => (left, Step::More),
                    },
                    (left, Step::Failed(message)) => (left, Step::Failed(message)),
                    (left, Step::More) => (left, Step::More),
                },
                (left, Step::Failed(message)) => (left, Step::Failed(message)),
                (left, Step::More) => (left, Step::More),
            },
            (left, Step::Failed(message)) => (left, Step::Failed(message)),
            (left, Step::More) => (left, Step::More),
        },
        (left, Step::Done(false)) => (left, Step::Done(Seq::empty())),
        (left, Step::Failed(message)) => (left, Step::Failed(message)),
        (left, Step::More) => (left, Step::More),
    }
}

/// Reads a map of up to `limit` entries, with its beginning, which is handed the given size
/// hint.
pub open spec fn drive_map<K, V>(
    drive_key: spec_fn(Supply) -> Driven<K>,
    drive: spec_fn(Supply) -> Driven<V>,
    size_hint: Option<usize>,
    limit: nat,
) -> spec_fn(Supply) -> Driven<Seq<(K, V)>> {
    |supply: Supply|
        match driven(|i: Input| i.begin_map(size_hint), supply) {
            (left, Step::Done(_)) => drive_entries(drive_key, drive, left, limit),
            (left, Step::Failed(message)) => (left, Step::Failed(message)),
            (left, Step::More) => (left, Step::More),
        }
}

/// Of an optional value, it makes no difference that the source is asked chunk by chunk.
pub proof fn law_drive_option<T>(
    drive: spec_fn(Supply) -> Driven<T>,
    op: spec_fn(Input) -> Reading<T>,
)
    requires
        comes_to(drive, op),
    ensures
        comes_to(drive_option(drive), optional(op)),
{
    let option = |i: Input| i.decode_option();
    law_values_repeatable(0, 0, Seq::empty(), Seq::empty());
    assert forall|supply: Supply| supply.is_sound() implies agrees(
        supply,
        #[trigger] drive_option(drive)(supply),
        optional(op)(supply.whole()),
    ) by {
        lemma_driven(option, supply);
        let left = driven(option, supply).0;
        assert(agrees(left, drive(left), op(left.whole())));
    }
}

proof fn lemma_drive_elements<T>(
    drive: spec_fn(Supply) -> Driven<T>,
    op: spec_fn(Input) -> Reading<T>,
    supply: Supply,
    limit: nat,
)
    requires
        comes_to(drive, op),
        supply.is_sound(),
    ensures
        agrees(
            supply,
            drive_elements(drive, supply, limit),
            read_list(op, supply.whole(), limit),
        ),
    decreases limit,
{
    lemma_delimiters(supply, LIST_END);
    let (there, next) = drive_next(supply, LIST_END);
    if next == Step::<bool, Seq<char>>::Done(true) {
        assert(agrees(there, drive(there), op(there.whole())));
        let (after, value) = drive(there);
        if value is Done {
            lemma_delimiters(after, LIST_END);
            let (left, end) = drive_end(after, LIST_END);
            if end is Done && limit > 0 {
                lemma_drive_elements(drive, op, left, (limit - 1) as nat);
            }
        }
    }
}

/// Of a list, it makes no difference that the source is asked chunk by chunk, if it makes none
/// of its elements.
pub proof fn law_drive_list<T>(
    drive: spec_fn(Supply) -> Driven<T>,
    op: spec_fn(Input) -> Reading<T>,
    size_hint: Option<usize>,
    limit: nat,
)
    requires
        comes_to(drive, op),
    ensures
        comes_to(drive_list(drive, size_hint, limit), list_of(op, size_hint, limit)),
{
    let begin = |i: Input| i.begin_list(size_hint);
    law_delimiters_repeatable(LIST_END, Class::Numeric, size_hint);
    assert forall|supply: Supply| supply.is_sound() implies agrees(
        supply,
        #[trigger] drive_list(drive, size_hint, limit)(supply),
        list_of(op, size_hint, limit)(supply.whole()),
    ) by {
        lemma_driven(begin, supply);
        lemma_drive_elements(drive, op, driven(begin, supply).0, limit);
    }
}

proof fn lemma_drive_entries<K, V>(
    drive_key: spec_fn(Supply) -> Driven<K>,
    drive: spec_fn(Supply) -> Driven<V>,
    key_op: spec_fn(Input) -> Reading<K>,
    op: spec_fn(Input) -> Reading<V>,
    supply: Supply,
    limit: nat,
)
    requires
        comes_to(drive_key, key_op),
        comes_to(drive, op),
        supply.is_sound(),
    ensures
        agrees(
            supply,
            drive_entries(drive_key, drive, supply, limit),
            read_map(key_op, op, supply.whole(), limit),
        ),
    decreases limit,
{
    lemma_delimiters(supply, MAP_END);
    let (there, next) = drive_next(supply, MAP_END);
    if next == Step::<bool, Seq<char>>::Done(true) {
        assert(agrees(there, drive_key(there), key_op(there.whole())));
        let (colon, key) = drive_key(there);
        if key is Done {
            law_drive_value(colon, false);
            let (beyond, taken) = drive_value(colon, false);
            if taken is Done {
                assert(agrees(beyond, drive(beyond), op(beyond.whole())));
                let (after, value) = drive(beyond);
                if value is Done {
                    lemma_delimiters(after, MAP_END);
                    let (left, end) = drive_end(after, MAP_END);
                    if end is Done && limit > 0 {
                        lemma_drive_entries(
                            drive_key,
                            drive,
                            key_op,
                            op,
                            left,
                            (limit - 1) as nat,
                        );
                    }
                }
            }
        }
    }
}

/// Of a map, it makes no difference that the source is asked chunk by chunk, if it makes none
/// of its keys and values.
pub proof fn law_drive_map<K, V>(
    drive_key: spec_fn(Supply) -> Driven<K>,
    drive: spec_fn(Supply) -> Driven<V>,
    key_op: spec_fn(Input) -> Reading<K>,
    op: spec_fn(Input) -> Reading<V>,
    size_hint: Option<usize>,
    limit: nat,
)
    requires
        comes_to(drive_key, key_op),
        comes_to(drive, op),
    ensures
        comes_to(drive_map(drive_key, drive, size_hint, limit), map_of(key_op, op, size_hint, limit)),
{
    let begin = |i: Input| i.begin_map(size_hint);
    law_delimiters_repeatable(MAP_END, Class::Numeric, size_hint);
    assert forall|supply: Supply| supply.is_sound() implies agrees(
        supply,
        #[trigger] drive_map(drive_key, drive, size_hint, limit)(supply),
        map_of(key_op, op, size_hint, limit)(supply.whole()),
    ) by {
        lemma_driven(begin, supply);
        lemma_drive_entries(drive_key, drive, key_op, op, driven(begin, supply).0, limit);
    }
}

/// A list is read as the values of its elements, in order, however it is cut into chunks and
/// whatever follows.
pub proof fn law_list_in_chunks<T>(
    drive: spec_fn(Supply) -> Driven<T>,
    op: spec_fn(Input) -> Reading<T>,
    size_hint: Option<usize>,
    supply: Supply,
    before: Seq<u8>,
    items: Seq<Item>,
    space: Seq<u8>,
    values: Seq<T>,
    tail: Seq<u8>,
)
    requires
        comes_to(drive, op),
        supply.is_sound(),
        blank(before),
        blank(space),
        supply.whole().rest == before + seq![LIST_BEGIN] + (list_notation(items, space) + tail),
        items.len() == values.len(),
        forall|i: int| 0 <= i < items.len() ==> (#[trigger] items[i]).is_proper(LIST_END),
        forall|i: int|
            0 <= i < items.len() ==> reads(
                op,
                (#[trigger] items[i]).text,
                values[i],
                supply.whole().stage,
                COMMA,
                LIST_END,
            ),
    ensures
        ({
            let (left, outcome) = drive_list(drive, size_hint, items.len())(supply);
            &&& outcome == Step::<Seq<T>, Seq<char>>::Done(values)
            &&& left.whole() == Input::of(tail, supply.whole().stage)
        }),
{
    let whole = supply.whole();
    law_read_begin(before, list_notation(items, space) + tail, whole.stage, size_hint);
    law_read_list(op, items, space, values, tail, whole.stage);
    law_drive_list(drive, op, size_hint, items.len());
    assert(whole == Input::of(whole.rest, whole.stage));
    assert(agrees(
        supply,
        drive_list(drive, size_hint, items.len())(supply),
        list_of(op, size_hint, items.len())(whole),
    ));
}

/// A map is read as its entries, in order, however it is cut into chunks and whatever follows.
pub proof fn law_map_in_chunks<K, V>(
    drive_key: spec_fn(Supply) -> Driven<K>,
    drive: spec_fn(Supply) -> Driven<V>,
    key_op: spec_fn(Input) -> Reading<K>,
    op: spec_fn(Input) -> Reading<V>,
    size_hint: Option<usize>,
    supply: Supply,
    before: Seq<u8>,
    keys: Seq<Item>,
    items: Seq<Item>,
    space: Seq<u8>,
    entries: Seq<(K, V)>,
    tail: Seq<u8>,
)
    requires
        comes_to(drive_key, key_op),
        comes_to(drive, op),
        supply.is_sound(),
        blank(before),
        blank(space),
        supply.whole().rest == before + seq![MAP_BEGIN] + (map_notation(keys, items, space) + tail),
        keys.len() == entries.len(),
        items.len() == entries.len(),
        forall|i: int| 0 <= i < keys.len() ==> (#[trigger] keys[i]).is_proper(MAP_END),
        forall|i: int| 0 <= i < items.len() ==> (#[trigger] items[i]).is_proper(MAP_END),
        forall|i: int|
            0 <= i < keys.len() ==> reads(
                key_op,
                (#[trigger] keys[i]).text,
                entries[i].0,
                supply.whole().stage,
                COLON,
                COLON,
            ),
        forall|i: int|
            0 <= i < items.len() ==> reads(
                op,
                (#[trigger] items[i]).text,
                entries[i].1,
                supply.whole().stage,
                COMMA,
                MAP_END,
            ),
    ensures
        ({
            let (left, outcome) = drive_map(drive_key, drive, size_hint, keys.len())(supply);
            &&& outcome == Step::<Seq<(K, V)>, Seq<char>>::Done(entries)
            &&& left.whole() == Input::of(tail, supply.whole().stage)
        }),
{
    let whole = supply.whole();
    law_read_begin(before, map_notation(keys, items, space) + tail, whole.stage, size_hint);
    law_read_map(key_op, op, keys, items, space, entries, tail, whole.stage);
    law_drive_map(drive_key, drive, key_op, op, size_hint, keys.len());
    assert(whole == Input::of(whole.rest, whole.stage));
    assert(agrees(
        supply,
        drive_map(drive_key, drive, size_hint, keys.len())(supply),
        map_of(key_op, op, size_hint, keys.len())(whole),
    ));
}

} // verus!
