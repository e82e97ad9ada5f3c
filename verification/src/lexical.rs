//! The bytes that the grammar is made of.

use vstd::prelude::*;

verus! {

pub const COLON: u8 = ':' as u8;

pub const COMMA: u8 = ',' as u8;

pub const DECIMAL: u8 = '.' as u8;

pub const ESCAPE: u8 = '\\' as u8;

pub const LIST_BEGIN: u8 = '[' as u8;

pub const LIST_END: u8 = ']' as u8;

pub const MAP_BEGIN: u8 = '{' as u8;

pub const MAP_END: u8 = '}' as u8;

pub const QUOTE: u8 = '"' as u8;

pub const FALSE: [u8; 5] = ['f' as u8, 'a' as u8, 'l' as u8, 's' as u8, 'e' as u8];

pub const NULL: [u8; 4] = ['n' as u8, 'u' as u8, 'l' as u8, 'l' as u8];

pub const TRUE: [u8; 4] = ['t' as u8, 'r' as u8, 'u' as u8, 'e' as u8];

/// The bytes that stand for white space when each byte is taken for the character with its
/// number.
pub open spec fn whitespace(byte: u8) -> bool {
    9 <= byte <= 13 || byte == 32 || byte == 0x85 || byte == 0xa0
}

/// The bytes that a number is written with.
pub open spec fn numeric(byte: u8) -> bool {
    ||| '0' as u8 <= byte <= '9' as u8
    ||| byte == '-' as u8
    ||| byte == 'e' as u8
    ||| byte == 'E' as u8
    ||| byte == DECIMAL
}

/// Whether the byte stands for white space.
pub fn is_whitespace(byte: u8) -> (held: bool)
    ensures
        held == whitespace(byte),
{
    9 <= byte && byte <= 13 || byte == 32 || byte == 0x85 || byte == 0xa0
}

/// Whether numbers are written with the byte.
pub fn is_numeric(byte: u8) -> (held: bool)
    ensures
        held == numeric(byte),
{
    '0' as u8 <= byte && byte <= '9' as u8 || byte == '-' as u8 || byte == 'e' as u8 || byte
        == 'E' as u8 || byte == DECIMAL
}

/// A kind of byte.
#[derive(Clone, Copy)]
pub enum Class {
    /// White space.
    Whitespace,
    /// What a number is written with.
    Numeric,
    /// What a number without a decimal point is written with.
    Integral,
    /// A decimal digit.
    Digit,
}

impl Class {
    /// Whether the byte is of this kind.
    pub open spec fn has(self, byte: u8) -> bool {
        match self {
            Class::Whitespace => whitespace(byte),
            Class::Numeric => numeric(byte),
            Class::Integral => numeric(byte) && byte != DECIMAL,
            Class::Digit => '0' as u8 <= byte <= '9' as u8,
        }
    }

    /// Whether the byte is of this kind.
    pub fn contains(self, byte: u8) -> (held: bool)
        ensures
            held == self.has(byte),
    {
        match self {
            Class::Whitespace => is_whitespace(byte),
            Class::Numeric => is_numeric(byte),
            Class::Integral => is_numeric(byte) && byte != DECIMAL,
            Class::Digit => '0' as u8 <= byte && byte <= '9' as u8,
        }
    }
}

/// How many bytes of the kind `class` the sequence begins with.
pub open spec fn run_len(bytes: Seq<u8>, class: Class) -> nat
    decreases bytes.len(),
{
    if bytes.len() == 0 || !class.has(bytes[0]) {
        0
    } else {
        1 + run_len(bytes.skip(1), class)
    }
}

/// `run_len` is the length of the longest beginning that is all of one kind.
pub proof fn lemma_run_len(bytes: Seq<u8>, class: Class, len: nat)
    requires
        len <= bytes.len(),
        forall|i: int| 0 <= i < len ==> class.has(#[trigger] bytes[i]),
        len < bytes.len() ==> !class.has(bytes[len as int]),
    ensures
        run_len(bytes, class) == len,
    decreases bytes.len(),
{
    if len > 0 {
        assert forall|i: int| 0 <= i < len - 1 implies class.has(#[trigger] bytes.skip(1)[i]) by {
            assert(bytes.skip(1)[i] == bytes[i + 1]);
        }
        lemma_run_len(bytes.skip(1), class, (len - 1) as nat);
    }
}

/// The bytes counted by `run_len` are of the kind, and the one that follows is not.
pub proof fn lemma_run_bytes(bytes: Seq<u8>, class: Class)
    ensures
        run_len(bytes, class) <= bytes.len(),
        forall|i: int| 0 <= i < run_len(bytes, class) ==> class.has(#[trigger] bytes[i]),
        run_len(bytes, class) < bytes.len() ==> !class.has(bytes[run_len(bytes, class) as int]),
    decreases bytes.len(),
{
    if bytes.len() > 0 && class.has(bytes[0]) {
        lemma_run_bytes(bytes.skip(1), class);
        assert forall|i: int| 0 <= i < run_len(bytes, class) implies class.has(
            #[trigger] bytes[i],
        ) by {
            if i > 0 {
                assert(bytes.skip(1)[i - 1] == bytes[i]);
            }
        }
    }
}

/// Whether `word` is what `bytes` begin with.
pub fn starts_with(bytes: &Vec<u8>, word: &[u8]) -> (held: bool)
    ensures
        held == word@.is_prefix_of(bytes@),
{
    if bytes.len() < word.len() {
        return false;
    }
    let mut i: usize = 0;
    while i < word.len()
        invariant
            i <= word.len() <= bytes.len(),
            forall|j: int| 0 <= j < i ==> bytes@[j] == word@[j],
        decreases word.len() - i,
    {
        if bytes[i] != word[i] {
            assert(bytes@.subrange(0, word@.len() as int)[i as int] != word@[i as int]);
            return false;
        }
        i = i + 1;
    }
    assert(bytes@.subrange(0, word@.len() as int) =~= word@);
    true
}

} // verus!
