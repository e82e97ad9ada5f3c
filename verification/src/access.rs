//! Lists and maps, item by item.

use vstd::prelude::*;

use crate::decoder::Decoder;
use crate::error::Error;
use crate::lexical::{COLON, LIST_BEGIN, LIST_END, MAP_BEGIN, MAP_END};
use crate::step::Step;

verus! {

/// Access to the elements of a list. Each element is read between a call of
/// [`SeqAccess::next_element`], which tells whether there is one, and one of
/// [`SeqAccess::end_element`].
pub struct SeqAccess {
    size_hint: Option<usize>,
}

impl View for SeqAccess {
    type V = Option<usize>;

    /// How many elements there are, if that is known.
    closed spec fn view(&self) -> Option<usize> {
        self.size_hint
    }
}

/// Takes the given byte, and the white space before it.
fn expect_token(decoder: &mut Decoder, byte: u8) -> (step: Step<(), Error>)
    ensures
        (final(decoder)@, step@) == old(decoder)@.expect_token(byte),
{
    match decoder.expect_whitespace() {
        Step::Done(_) => decoder.expect_byte(byte),
        _ => Step::More,
    }
}

/// Takes the end of a list or a map if it comes next, and tells whether it did not.
fn has_next(decoder: &mut Decoder, end: u8) -> (step: Step<bool, Error>)
    ensures
        (final(decoder)@, step@) == old(decoder)@.has_next(end),
{
    match decoder.expect_whitespace() {
        Step::Done(_) => match decoder.maybe_byte(end) {
            Step::Done(ended) => Step::Done(!ended),
            _ => Step::More,
        },
        _ => Step::More,
    }
}

impl SeqAccess {
    /// Takes the beginning of a list.
    pub fn new(decoder: &mut Decoder, size_hint: Option<usize>) -> (step: Step<SeqAccess, Error>)
        ensures
            (final(decoder)@, step@) == old(decoder)@.begin_list(size_hint),
    {
        match expect_token(decoder, LIST_BEGIN) {
            Step::More => Step::More,
            Step::Done(_) => Step::Done(SeqAccess { size_hint }),
            Step::Failed(error) => Step::Failed(error),
        }
    }

    /// Access to a list whose beginning was taken already.
    pub fn opened() -> (access: SeqAccess)
        ensures
            access@ == None::<usize>,
    {
        SeqAccess { size_hint: None }
    }

    /// Tells whether there is another element, which is then to be read; takes the end of the
    /// list otherwise.
    pub fn next_element(&self, decoder: &mut Decoder) -> (step: Step<bool, Error>)
        ensures
            (final(decoder)@, step@) == old(decoder)@.has_next(LIST_END),
    {
        has_next(decoder, LIST_END)
    }

    /// Takes what follows an element: a comma, unless the list ends there.
    pub fn end_element(&self, decoder: &mut Decoder) -> (step: Step<(), Error>)
        ensures
            (final(decoder)@, step@) == old(decoder)@.expect_comma_or(LIST_END),
    {
        decoder.expect_comma_or(LIST_END)
    }

    /// How many elements there are, if that is known.
    pub fn size_hint(&self) -> (hint: Option<usize>)
        ensures
            hint == self@,
    {
        self.size_hint
    }
}

/// Access to the entries of a map. A key is read after [`MapAccess::next_key`] has told that
/// there is one, and its value between a call of [`MapAccess::next_value`] and one of
/// [`MapAccess::end_value`].
pub struct MapAccess {
    size_hint: Option<usize>,
    after_colon: bool,
}

impl View for MapAccess {
    type V = (Option<usize>, bool);

    /// How many entries there are, if that is known, and whether the colon of the current entry
    /// was taken while the white space that follows it was not.
    closed spec fn view(&self) -> (Option<usize>, bool) {
        (self.size_hint, self.after_colon)
    }
}

impl MapAccess {
    /// Takes the beginning of a map.
    pub fn new(decoder: &mut Decoder, size_hint: Option<usize>) -> (step: Step<MapAccess, Error>)
        ensures
            (final(decoder)@, step@) == old(decoder)@.begin_map(size_hint),
    {
        match expect_token(decoder, MAP_BEGIN) {
            Step::More => Step::More,
            Step::Done(_) => Step::Done(MapAccess { size_hint, after_colon: false }),
            Step::Failed(error) => Step::Failed(error),
        }
    }

    /// Access to a map whose beginning was taken already.
    pub fn opened() -> (access: MapAccess)
        ensures
            access@ == (None::<usize>, false),
    {
        MapAccess { size_hint: None, after_colon: false }
    }

    /// Tells whether there is another entry, whose key is then to be read; takes the end of
    /// the map otherwise.
    pub fn next_key(&self, decoder: &mut Decoder) -> (step: Step<bool, Error>)
        ensures
            (final(decoder)@, step@) == old(decoder)@.has_next(MAP_END),
    {
        has_next(decoder, MAP_END)
    }

    /// Takes what stands between a key and its value, which is then to be read.
    pub fn next_value(&mut self, decoder: &mut Decoder) -> (step: Step<(), Error>)
        ensures
            final(self)@.0 == old(self)@.0,
            (final(decoder)@, final(self)@.1, step@) == old(decoder)@.begin_value(old(self)@.1),
    {
        if !self.after_colon {
            match expect_token(decoder, COLON) {
                Step::More => {
                    return Step::More;
                },
                Step::Failed(error) => {
                    return Step::Failed(error);
                },
                Step::Done(_) => {},
            }
            self.after_colon = true;
        }
        match decoder.expect_whitespace() {
            Step::Done(_) => {
                self.after_colon = false;
                Step::Done(())
            },
            _ => Step::More,
        }
    }

    /// Takes what follows a value: a comma, unless the map ends there.
    pub fn end_value(&self, decoder: &mut Decoder) -> (step: Step<(), Error>)
        ensures
            (final(decoder)@, step@) == old(decoder)@.expect_comma_or(MAP_END),
    {
        decoder.expect_comma_or(MAP_END)
    }

    /// How many entries there are, if that is known.
    pub fn size_hint(&self) -> (hint: Option<usize>)
        ensures
            hint == self@.0,
    {
        self.size_hint
    }
}

} // verus!
