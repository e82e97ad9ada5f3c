//! The outcomes of readings.

use vstd::prelude::*;

verus! {

/// How far the source of a document has come.
#[derive(Clone, Copy, PartialEq, Eq, Structural)]
pub enum Stage {
    /// There may be more bytes to come.
    Open,
    /// There are no more bytes to come.
    Closed,
}

/// The outcome of a reading.
pub enum Step<T, E> {
    /// The bytes at hand do not settle the outcome: the reading is to be repeated when there
    /// are more of them.
    More,
    /// What was read.
    Done(T),
    /// Why nothing could be read.
    Failed(E),
}

impl<T: View, E: View> View for Step<T, E> {
    type V = Step<T::V, E::V>;

    open spec fn view(&self) -> Step<T::V, E::V> {
        match *self {
            Step::More => Step::More,
            Step::Done(value) => Step::Done(value@),
            Step::Failed(error) => Step::Failed(error@),
        }
    }
}

/// A number, told apart by whether it has a decimal point.
pub enum Number<T> {
    /// A number without a decimal point.
    Integer(i64),
    /// The text of a number with a decimal point.
    Float(T),
}

impl<T: View> View for Number<T> {
    type V = Number<T::V>;

    open spec fn view(&self) -> Number<T::V> {
        match *self {
            Number::Integer(value) => Number::Integer(value),
            Number::Float(text) => Number::Float(text@),
        }
    }
}

/// A value whose type the document tells.
pub enum Any<T> {
    /// A string.
    Text(T),
    /// The beginning of a map.
    MapBegin,
    /// The beginning of a list.
    ListBegin,
    /// A number.
    Number(Number<T>),
    /// A boolean.
    Bool(bool),
    /// No value.
    Null,
}

impl<T: View> View for Any<T> {
    type V = Any<T::V>;

    open spec fn view(&self) -> Any<T::V> {
        match *self {
            Any::Text(text) => Any::Text(text@),
            Any::MapBegin => Any::MapBegin,
            Any::ListBegin => Any::ListBegin,
            Any::Number(number) => Any::Number(number@),
            Any::Bool(value) => Any::Bool(value),
            Any::Null => Any::Null,
        }
    }
}

/// A value that is not wanted.
pub enum Ignored<T> {
    /// There was no value, or one that was found to be right.
    Checked,
    /// The text of a number, which is still to be checked.
    Number(T),
}

impl<T: View> View for Ignored<T> {
    type V = Ignored<T::V>;

    open spec fn view(&self) -> Ignored<T::V> {
        match *self {
            Ignored::Checked => Ignored::Checked,
            Ignored::Number(text) => Ignored::Number(text@),
        }
    }
}

} // verus!
