//! Integers in decimal notation.

use vstd::prelude::*;

use crate::lexical::{lemma_run_bytes, run_len, Class};

verus! {

/// Why a text is no integer of a type.
#[derive(Clone, Copy, PartialEq, Eq, Structural)]
pub enum IntegerError {
    /// There is no text.
    Empty,
    /// A sign without a digit, or something other than a digit.
    InvalidDigit,
    /// The digits stand for a number above what the type holds.
    TooLarge,
    /// The digits stand for a number below what the type holds.
    TooSmall,
}

impl IntegerError {
    /// The message of the error.
    pub open spec fn message(self) -> Seq<char> {
        match self {
            IntegerError::Empty => "cannot parse integer from empty string"@,
            IntegerError::InvalidDigit => "invalid digit found in string"@,
            IntegerError::TooLarge => "number too large to fit in target type"@,
            IntegerError::TooSmall => "number too small to fit in target type"@,
        }
    }

    /// The message of the error.
    pub fn as_str(&self) -> (message: &'static str)
        ensures
            message@ == self.message(),
    {
        match self {
            IntegerError::Empty => "cannot parse integer from empty string",
            IntegerError::InvalidDigit => "invalid digit found in string",
            IntegerError::TooLarge => "number too large to fit in target type",
            IntegerError::TooSmall => "number too small to fit in target type",
        }
    }
}

/// The number that decimal digits stand for.
pub open spec fn digits_value(digits: Seq<u8>) -> nat
    decreases digits.len(),
{
    if digits.len() == 0 {
        0
    } else {
        10 * digits_value(digits.drop_last()) + (digits.last() - '0' as u8) as nat
    }
}

/// Whether the text begins with a minus sign that a type with the least value `min` allows.
pub open spec fn has_minus(text: Seq<u8>, min: int) -> bool {
    min < 0 && text.len() > 0 && text[0] == '-' as u8
}

/// What follows the sign of the text, if there is one.
pub open spec fn unsigned(text: Seq<u8>, min: int) -> Seq<u8> {
    if has_minus(text, min) || text.len() > 0 && text[0] == '+' as u8 {
        text.skip(1)
    } else {
        text
    }
}

/// The integer between `min` and `max` that the text stands for. Read from the left, it is
/// refused as soon as its digits leave that range, or at the first byte that is no digit.
pub open spec fn integer_value(text: Seq<u8>, min: int, max: int) -> Result<int, IntegerError> {
    let digits = unsigned(text, min);
    let leading = run_len(digits, Class::Digit);
    let magnitude = digits_value(digits.take(leading as int));
    if text.len() == 0 {
        Err(IntegerError::Empty)
    } else if has_minus(text, min) && -magnitude < min {
        Err(IntegerError::TooSmall)
    } else if !has_minus(text, min) && magnitude > max {
        Err(IntegerError::TooLarge)
    } else if digits.len() == 0 || leading < digits.len() {
        Err(IntegerError::InvalidDigit)
    } else if has_minus(text, min) {
        Ok(-magnitude)
    } else {
        Ok(magnitude as int)
    }
}

/// More digits stand for no smaller a number.
proof fn lemma_digits_value_grows(digits: Seq<u8>, less: nat, more: nat)
    requires
        less <= more <= digits.len(),
        forall|i: int| 0 <= i < more ==> Class::Digit.has(#[trigger] digits[i]),
    ensures
        digits_value(digits.take(less as int)) <= digits_value(digits.take(more as int)),
    decreases more,
{
    if less < more {
        assert(digits.take(more as int).drop_last() =~= digits.take(more - 1));
        lemma_digits_value_grows(digits, less, (more - 1) as nat);
    }
}

/// Reads an integer between `min` and `max`.
pub fn parse_integer(text: &[u8], min: i128, max: i128) -> (value: Result<i128, IntegerError>)
    requires
        i64::MIN <= min <= 0 <= max <= u64::MAX,
    ensures
        match value {
            Ok(n) => integer_value(text@, min as int, max as int) == Ok::<int, IntegerError>(
                n as int,
            ) && min <= n <= max,
            Err(error) => integer_value(text@, min as int, max as int) == Err::<int, IntegerError>(
                error,
            ),
        },
{
    if text.len() == 0 {
        return Err(IntegerError::Empty);
    }
    let negative = min < 0 && text[0] == '-' as u8;
    let start: usize = if negative || text[0] == '+' as u8 {
        1
    } else {
        0
    };
    let limit: i128 = if negative {
        -min
    } else {
        max
    };
    let ghost digits = unsigned(text@, min as int);
    assert(digits =~= text@.skip(start as int));
    let ghost leading = run_len(digits, Class::Digit);
    proof {
        lemma_run_bytes(digits, Class::Digit);
    }
    let mut magnitude: i128 = 0;
    let mut i: usize = start;
    assert(digits.take(0) =~= Seq::<u8>::empty());
    while i < text.len()
        invariant
            start <= i <= text.len(),
            digits == text@.skip(start as int),
            digits == unsigned(text@, min as int),
            text@.len() > 0,
            negative == has_minus(text@, min as int),
            limit == (if negative {
                -min
            } else {
                max as int
            }),
            i64::MIN <= min <= 0 <= max <= u64::MAX,
            0 <= magnitude <= limit,
            leading == run_len(digits, Class::Digit),
            i - start <= leading <= digits.len(),
            forall|j: int| 0 <= j < leading ==> Class::Digit.has(#[trigger] digits[j]),
            leading < digits.len() ==> !Class::Digit.has(digits[leading as int]),
            magnitude == digits_value(digits.take(i - start)),
        decreases text.len() - i,
    {
        assert(text@[i as int] == digits[i - start]);
        let byte = text[i];
        if !Class::Digit.contains(byte) {
            return Err(IntegerError::InvalidDigit);
        }
        assert(digits.take(i - start + 1).drop_last() =~= digits.take(i - start));
        magnitude = magnitude * 10 + (byte - '0' as u8) as i128;
        i = i + 1;
        if magnitude > limit {
            proof {
                lemma_digits_value_grows(digits, (i - start) as nat, leading);
            }
            return Err(
                if negative {
                    IntegerError::TooSmall
                } else {
                    IntegerError::TooLarge
                },
            );
        }
    }
    if start == text.len() {
        return Err(IntegerError::InvalidDigit);
    }
    Ok(
        if negative {
            -magnitude
        } else {
            magnitude
        },
    )
}

} // verus!
