//! What is written is read, of lists and maps: their items are given back in order, if each of
//! them is.

use vstd::prelude::*;
use vstd::utf8::*;

use crate::input::{Input, Reading};
use crate::laws::notation::{
    blank, bool_notation, law_read_bool, law_read_integer, law_read_null, law_read_number,
    law_read_option, law_read_text, lemma_space, notation,
};
use crate::lexical::{
    numeric, whitespace, COLON, COMMA, LIST_BEGIN, LIST_END, MAP_BEGIN, MAP_END, NULL,
    QUOTE,
};
use crate::step::{Stage, Step};

verus! {

/// A notation and the white space around it.
pub struct Item {
    pub before: Seq<u8>,
    pub text: Seq<u8>,
    pub after: Seq<u8>,
}

impl Item {
    /// There is a notation, with white space around it that is no part of it, and it cannot be
    /// taken for the byte `end`.
    pub open spec fn is_proper(self, end: u8) -> bool {
        &&& blank(self.before)
        &&& blank(self.after)
        &&& self.text.len() > 0
        &&& !whitespace(self.text[0])
        &&& self.text[0] != end
    }

    /// The bytes that the item is written with.
    pub open spec fn bytes(self) -> Seq<u8> {
        self.before + self.text + self.after
    }
}

/// The reading takes the notation `text` as that of `value`, wherever white space or one of
/// the bytes `one` and `other` follows it.
pub open spec fn reads<T>(
    op: spec_fn(Input) -> Reading<T>,
    text: Seq<u8>,
    value: T,
    stage: Stage,
    one: u8,
    other: u8,
) -> bool {
    forall|tail: Seq<u8>|
        #![trigger text + tail]
        tail.len() > 0 && (whitespace(tail[0]) || tail[0] == one || tail[0] == other) ==> op(
            Input::of(text + tail, stage),
        ) == (Input::of(tail, stage), Step::<T, Seq<char>>::Done(value))
}

/// What follows the beginning of a list. If the list has no elements, `space` stands in it.
pub open spec fn list_notation(items: Seq<Item>, space: Seq<u8>) -> Seq<u8>
    decreases items.len(),
{
    if items.len() == 0 {
        space + seq![LIST_END]
    } else if items.len() == 1 {
        items[0].bytes() + seq![LIST_END]
    } else {
        items[0].bytes() + seq![COMMA] + list_notation(items.skip(1), space)
    }
}

/// Reads the elements of a list, up to `limit` of them, whose beginning was taken.
pub open spec fn read_list<T>(
    op: spec_fn(Input) -> Reading<T>,
    input: Input,
    limit: nat,
) -> Reading<Seq<T>>
    decreases limit,
{
    match input.has_next(LIST_END) {
        (left, Step::Done(true)) => match op(left) {
            (left, Step::Done(value)) => match left.expect_comma_or(LIST_END) {
                (left, Step::Done(_)) => if limit == 0 {
                    (left, Step::More)
                } else {
                    match read_list(op, left, (limit - 1) as nat) {
                        (left, Step::Done(values)) => (left, Step::Done(seq![value] + values)),
                        (left, outcome) => (left, outcome),
                    }
                },
                (left, Step::Failed(message)) => (left, Step::Failed(message)),
                (left, Step::More) => (left, Step::More),
            },
            (left, Step::Failed(message)) => (left, Step::Failed(message)),
            (left, Step::More) => (left, Step::More),
        },
        (left, Step::Done(false)) => (left, Step::Done(Seq::empty())),
        (left, Step::Failed(message)) => (left, Step::Failed(message)),
        (left, Step::More) => (left, Step::More),
    }
}

/// Another item is found where one begins.
proof fn lemma_has_next(item: Item, tail: Seq<u8>, stage: Stage, end: u8)
    requires
        item.is_proper(end),
    ensures
        Input::of(item.bytes() + tail, stage).has_next(end) == (
            Input::of(item.text + (item.after + tail), stage),
            Step::<bool, Seq<char>>::Done(true),
        ),
{
    let input = Input::of(item.bytes() + tail, stage);
    let token = item.text + (item.after + tail);
    assert(input.rest =~= item.before + token);
    lemma_space(input, item.before, token);
}

/// The comma that follows an item is taken.
proof fn lemma_comma(item: Item, tail: Seq<u8>, stage: Stage, end: u8)
    requires
        item.is_proper(end),
        end != COMMA,
    ensures
        Input::of(item.after + (seq![COMMA] + tail), stage).expect_comma_or(end) == (
            Input::of(tail, stage),
            Step::<(), Seq<char>>::Done(()),
        ),
{
    let input = Input::of(item.after + (seq![COMMA] + tail), stage);
    lemma_space(input, item.after, seq![COMMA] + tail);
    assert((seq![COMMA] + tail).skip(1) =~= tail);
}

/// The end that follows an item is left.
proof fn lemma_end(item: Item, tail: Seq<u8>, stage: Stage, end: u8)
    requires
        item.is_proper(end),
        !whitespace(end),
    ensures
        Input::of(item.after + (seq![end] + tail), stage).expect_comma_or(end) == (
            Input::of(seq![end] + tail, stage),
            Step::<(), Seq<char>>::Done(()),
        ),
        Input::of(seq![end] + tail, stage).has_next(end) == (
            Input::of(tail, stage),
            Step::<bool, Seq<char>>::Done(false),
        ),
{
    let input = Input::of(item.after + (seq![end] + tail), stage);
    lemma_space(input, item.after, seq![end] + tail);
    assert(Seq::<u8>::empty() + seq![end] + tail =~= seq![end] + tail);
    lemma_only_end(Seq::empty(), tail, stage, end);
}

/// The end is taken where it comes next, and the white space before it.
proof fn lemma_only_end(space: Seq<u8>, tail: Seq<u8>, stage: Stage, end: u8)
    requires
        blank(space),
        !whitespace(end),
    ensures
        Input::of(space + seq![end] + tail, stage).has_next(end) == (
            Input::of(tail, stage),
            Step::<bool, Seq<char>>::Done(false),
        ),
{
    let there = Input::of(space + seq![end] + tail, stage);
    assert(there.rest =~= space + (seq![end] + tail));
    lemma_space(there, space, seq![end] + tail);
    assert((seq![end] + tail).skip(1) =~= tail);
}

/// An item is read where it stands.
proof fn lemma_reads<T>(
    op: spec_fn(Input) -> Reading<T>,
    item: Item,
    value: T,
    tail: Seq<u8>,
    stage: Stage,
    one: u8,
    other: u8,
)
    requires
        reads(op, item.text, value, stage, one, other),
        blank(item.after),
        tail.len() > 0,
        tail[0] == one || tail[0] == other,
    ensures
        op(Input::of(item.text + (item.after + tail), stage)) == (
            Input::of(item.after + tail, stage),
            Step::<T, Seq<char>>::Done(value),
        ),
{
    let follows = item.after + tail;
    if item.after.len() > 0 {
        assert(follows[0] == item.after[0]);
    } else {
        assert(follows[0] == tail[0]);
    }
    assert(op(Input::of(item.text + follows, stage)).0.rest == follows);
}

/// A list is read as the values of its elements, in order, whatever follows.
pub proof fn law_read_list<T>(
    op: spec_fn(Input) -> Reading<T>,
    items: Seq<Item>,
    space: Seq<u8>,
    values: Seq<T>,
    tail: Seq<u8>,
    stage: Stage,
)
    requires
        blank(space),
        items.len() == values.len(),
        forall|i: int| 0 <= i < items.len() ==> (#[trigger] items[i]).is_proper(LIST_END),
        forall|i: int|
            0 <= i < items.len() ==> reads(
                op,
                (#[trigger] items[i]).text,
                values[i],
                stage,
                COMMA,
                LIST_END,
            ),
    ensures
        read_list(op, Input::of(list_notation(items, space) + tail, stage), items.len()) == (
            Input::of(tail, stage),
            Step::<Seq<T>, Seq<char>>::Done(values),
        ),
    decreases items.len(),
{
    let input = Input::of(list_notation(items, space) + tail, stage);
    if items.len() == 0 {
        lemma_only_end(space, tail, stage, LIST_END);
        assert(values =~= Seq::<T>::empty());
    } else {
        let item = items[0];
        let rest = items.skip(1);
        assert(item.is_proper(LIST_END));
        assert(reads(op, item.text, values[0], stage, COMMA, LIST_END));
        assert(seq![values[0]] + values.skip(1) =~= values);
        let inner = if items.len() == 1 {
            Seq::<u8>::empty()
        } else {
            space
        };
        let more = list_notation(rest, inner) + tail;
        let follows = if items.len() == 1 {
            more
        } else {
            seq![COMMA] + more
        };
        if items.len() == 1 {
            assert(more =~= seq![LIST_END] + tail);
        }
        assert(input.rest =~= item.bytes() + follows);
        lemma_has_next(item, follows, stage, LIST_END);
        lemma_reads(op, item, values[0], follows, stage, COMMA, LIST_END);
        if items.len() == 1 {
            lemma_end(item, tail, stage, LIST_END);
        } else {
            lemma_comma(item, more, stage, LIST_END);
        }
        assert forall|i: int| 0 <= i < rest.len() implies (#[trigger] rest[i]).is_proper(
            LIST_END,
        ) by {
            assert(rest[i] == items[i + 1]);
        }
        assert forall|i: int| 0 <= i < rest.len() implies reads(
            op,
            (#[trigger] rest[i]).text,
            values.skip(1)[i],
            stage,
            COMMA,
            LIST_END,
        ) by {
            assert(rest[i] == items[i + 1]);
        }
        law_read_list(op, rest, inner, values.skip(1), tail, stage);
    }
}

/// What follows the beginning of a map. If the map has no entries, `space` stands in it.
pub open spec fn map_notation(keys: Seq<Item>, items: Seq<Item>, space: Seq<u8>) -> Seq<u8>
    decreases keys.len(),
{
    if keys.len() == 0 {
        space + seq![MAP_END]
    } else if keys.len() == 1 {
        keys[0].bytes() + seq![COLON] + items[0].bytes() + seq![MAP_END]
    } else {
        keys[0].bytes() + seq![COLON] + items[0].bytes() + seq![COMMA] + map_notation(
            keys.skip(1),
            items.skip(1),
            space,
        )
    }
}

/// Reads the entries of a map, up to `limit` of them, whose beginning was taken.
pub open spec fn read_map<K, V>(
    key_op: spec_fn(Input) -> Reading<K>,
    op: spec_fn(Input) -> Reading<V>,
    input: Input,
    limit: nat,
) -> Reading<Seq<(K, V)>>
    decreases limit,
{
    match input.has_next(MAP_END) {
        (left, Step::Done(true)) => match key_op(left) {
            (left, Step::Done(key)) => match left.begin_value(false) {
                (left, _, Step::Done(_)) => match op(left) {
                    (left, Step::Done(value)) => match left.expect_comma_or(MAP_END) {
                        (left, Step::Done(_)) => if limit == 0 {
                            (left, Step::More)
                        } else {
                            match read_map(key_op, op, left, (limit - 1) as nat) {
                                (left, Step::Done(entries)) => (
                                    left,
                                    Step::Done(seq![(key, value)] + entries),
                                ),
                                (left, outcome) => (left, outcome),
                            }
                        },
                        (left, Step::Failed(message)) => (left, Step::Failed(message)),
                        (left, Step::More) => (left, Step::More),
                    },
                    (left, Step::Failed(message)) => (left, Step::Failed(message)),
                    (left, Step::More) => (left, Step::More),
                },
                (left, _, Step::Failed(message)) => (left, Step::Failed(message)),
                (left, _, Step::More) => (left, Step::More),
            },
            (left, Step::Failed(message)) => (left, Step::Failed(message)),
            (left, Step::More) => (left, Step::More),
        },
        (left, Step::Done(false)) => (left, Step::Done(Seq::empty())),
        (left, Step::Failed(message)) => (left, Step::Failed(message)),
        (left, Step::More) => (left, Step::More),
    }
}

/// The colon that follows a key is taken, and the white space around it.
proof fn lemma_colon(key: Item, item: Item, tail: Seq<u8>, stage: Stage)
    requires
        key.is_proper(MAP_END),
        item.is_proper(MAP_END),
    ensures
        Input::of(key.after + (seq![COLON] + (item.bytes() + tail)), stage).begin_value(false)
            == (
            Input::of(item.text + (item.after + tail), stage),
            false,
            Step::<(), Seq<char>>::Done(()),
        ),
{
    let input = Input::of(key.after + (seq![COLON] + (item.bytes() + tail)), stage);
    let colon = seq![COLON] + (item.bytes() + tail);
    let token = item.text + (item.after + tail);
    lemma_space(input, key.after, colon);
    assert(colon.skip(1) =~= item.before + token);
    lemma_space(Input::of(item.before + token, stage), item.before, token);
}

/// A map is read as its entries, in order, whatever follows.
pub proof fn law_read_map<K, V>(
    key_op: spec_fn(Input) -> Reading<K>,
    op: spec_fn(Input) -> Reading<V>,
    keys: Seq<Item>,
    items: Seq<Item>,
    space: Seq<u8>,
    entries: Seq<(K, V)>,
    tail: Seq<u8>,
    stage: Stage,
)
    requires
        blank(space),
        keys.len() == entries.len(),
        items.len() == entries.len(),
        forall|i: int| 0 <= i < keys.len() ==> (#[trigger] keys[i]).is_proper(MAP_END),
        forall|i: int| 0 <= i < items.len() ==> (#[trigger] items[i]).is_proper(MAP_END),
        forall|i: int|
            0 <= i < keys.len() ==> reads(
                key_op,
                (#[trigger] keys[i]).text,
                entries[i].0,
                stage,
                COLON,
                COLON,
            ),
        forall|i: int|
            0 <= i < items.len() ==> reads(
                op,
                (#[trigger] items[i]).text,
                entries[i].1,
                stage,
                COMMA,
                MAP_END,
            ),
    ensures
        read_map(
            key_op,
            op,
            Input::of(map_notation(keys, items, space) + tail, stage),
            keys.len(),
        ) == (Input::of(tail, stage), Step::<Seq<(K, V)>, Seq<char>>::Done(entries)),
    decreases keys.len(),
{
    let input = Input::of(map_notation(keys, items, space) + tail, stage);
    if keys.len() == 0 {
        lemma_only_end(space, tail, stage, MAP_END);
        assert(entries =~= Seq::<(K, V)>::empty());
    } else {
        let key = keys[0];
        let item = items[0];
        assert(key.is_proper(MAP_END));
        assert(item.is_proper(MAP_END));
        assert(reads(key_op, key.text, entries[0].0, stage, COLON, COLON));
        assert(reads(op, item.text, entries[0].1, stage, COMMA, MAP_END));
        assert(seq![entries[0]] + entries.skip(1) =~= entries);
        let inner = if keys.len() == 1 {
            Seq::<u8>::empty()
        } else {
            space
        };
        let more = map_notation(keys.skip(1), items.skip(1), inner) + tail;
        let follows = if keys.len() == 1 {
            more
        } else {
            seq![COMMA] + more
        };
        if keys.len() == 1 {
            assert(more =~= seq![MAP_END] + tail);
        }
        let colon = seq![COLON] + (item.bytes() + follows);
        assert(input.rest =~= key.bytes() + colon);
        lemma_has_next(key, colon, stage, MAP_END);
        lemma_reads(key_op, key, entries[0].0, colon, stage, COLON, COLON);
        lemma_colon(key, item, follows, stage);
        lemma_reads(op, item, entries[0].1, follows, stage, COMMA, MAP_END);
        if keys.len() == 1 {
            lemma_end(item, tail, stage, MAP_END);
        } else {
            lemma_comma(item, more, stage, MAP_END);
        }
        let (keys_left, items_left) = (keys.skip(1), items.skip(1));
        assert forall|i: int| 0 <= i < keys_left.len() implies (#[trigger] keys_left[i]).is_proper(
            MAP_END,
        ) && reads(key_op, keys_left[i].text, entries.skip(1)[i].0, stage, COLON, COLON) by {
            assert(keys_left[i] == keys[i + 1]);
        }
        assert forall|i: int| 0 <= i < items_left.len() implies (#[trigger] items_left[i]).is_proper(
            MAP_END,
        ) && reads(op, items_left[i].text, entries.skip(1)[i].1, stage, COMMA, MAP_END) by {
            assert(items_left[i] == items[i + 1]);
        }
        law_read_map(
            key_op,
            op,
            keys.skip(1),
            items.skip(1),
            inner,
            entries.skip(1),
            tail,
            stage,
        );
    }
}

/// The beginning of a list or a map is taken, and the white space before it.
pub proof fn law_read_begin(
    space: Seq<u8>,
    tail: Seq<u8>,
    stage: Stage,
    size_hint: Option<usize>,
)
    requires
        blank(space),
    ensures
        Input::of(space + seq![LIST_BEGIN] + tail, stage).begin_list(size_hint) == (
            Input::of(tail, stage),
            Step::<Option<usize>, Seq<char>>::Done(size_hint),
        ),
        Input::of(space + seq![MAP_BEGIN] + tail, stage).begin_map(size_hint) == (
            Input::of(tail, stage),
            Step::<(Option<usize>, bool), Seq<char>>::Done((size_hint, false)),
        ),
{
    let list = Input::of(space + seq![LIST_BEGIN] + tail, stage);
    let map = Input::of(space + seq![MAP_BEGIN] + tail, stage);
    assert(list.rest =~= space + (seq![LIST_BEGIN] + tail));
    assert(map.rest =~= space + (seq![MAP_BEGIN] + tail));
    lemma_space(list, space, seq![LIST_BEGIN] + tail);
    lemma_space(map, space, seq![MAP_BEGIN] + tail);
    assert((seq![LIST_BEGIN] + tail).skip(1) =~= tail);
    assert((seq![MAP_BEGIN] + tail).skip(1) =~= tail);
}

/// The reading of a list of up to `limit` elements, with its beginning, which is handed the
/// given size hint.
pub open spec fn list_of<T>(
    op: spec_fn(Input) -> Reading<T>,
    size_hint: Option<usize>,
    limit: nat,
) -> spec_fn(Input) -> Reading<Seq<T>> {
    |input: Input|
        match input.begin_list(size_hint) {
            (left, Step::Done(_)) => read_list(op, left, limit),
            (left, Step::Failed(message)) => (left, Step::Failed(message)),
            (left, Step::More) => (left, Step::More),
        }
}

/// The reading of a map of up to `limit` entries, with its beginning, which is handed the given
/// size hint.
pub open spec fn map_of<K, V>(
    key_op: spec_fn(Input) -> Reading<K>,
    op: spec_fn(Input) -> Reading<V>,
    size_hint: Option<usize>,
    limit: nat,
) -> spec_fn(Input) -> Reading<Seq<(K, V)>> {
    |input: Input|
        match input.begin_map(size_hint) {
            (left, Step::Done(_)) => read_map(key_op, op, left, limit),
            (left, Step::Failed(message)) => (left, Step::Failed(message)),
            (left, Step::More) => (left, Step::More),
        }
}

/// A list is an item that its reading reads.
pub proof fn law_list_item<T>(
    op: spec_fn(Input) -> Reading<T>,
    size_hint: Option<usize>,
    items: Seq<Item>,
    space: Seq<u8>,
    values: Seq<T>,
    stage: Stage,
    one: u8,
    other: u8,
)
    requires
        blank(space),
        items.len() == values.len(),
        forall|i: int| 0 <= i < items.len() ==> (#[trigger] items[i]).is_proper(LIST_END),
        forall|i: int|
            0 <= i < items.len() ==> reads(
                op,
                (#[trigger] items[i]).text,
                values[i],
                stage,
                COMMA,
                LIST_END,
            ),
    ensures
        reads(
            list_of(op, size_hint, items.len()),
            seq![LIST_BEGIN] + list_notation(items, space),
            values,
            stage,
            one,
            other,
        ),
{
    let text = seq![LIST_BEGIN] + list_notation(items, space);
    assert forall|tail: Seq<u8>|
        #![trigger text + tail]
        tail.len() > 0 && (whitespace(tail[0]) || tail[0] == one || tail[0] == other) implies list_of(
        op,
        size_hint,
        items.len(),
    )(Input::of(text + tail, stage)) == (
        Input::of(tail, stage),
        Step::<Seq<T>, Seq<char>>::Done(values),
    ) by {
        let follows = list_notation(items, space) + tail;
        assert(text + tail =~= Seq::<u8>::empty() + seq![LIST_BEGIN] + follows);
        law_read_begin(Seq::empty(), follows, stage, size_hint);
        law_read_list(op, items, space, values, tail, stage);
    }
}

/// A map is an item that its reading reads.
pub proof fn law_map_item<K, V>(
    key_op: spec_fn(Input) -> Reading<K>,
    op: spec_fn(Input) -> Reading<V>,
    size_hint: Option<usize>,
    keys: Seq<Item>,
    items: Seq<Item>,
    space: Seq<u8>,
    entries: Seq<(K, V)>,
    stage: Stage,
    one: u8,
    other: u8,
)
    requires
        blank(space),
        keys.len() == entries.len(),
        items.len() == entries.len(),
        forall|i: int| 0 <= i < keys.len() ==> (#[trigger] keys[i]).is_proper(MAP_END),
        forall|i: int| 0 <= i < items.len() ==> (#[trigger] items[i]).is_proper(MAP_END),
        forall|i: int|
            0 <= i < keys.len() ==> reads(
                key_op,
                (#[trigger] keys[i]).text,
                entries[i].0,
                stage,
                COLON,
                COLON,
            ),
        forall|i: int|
            0 <= i < items.len() ==> reads(
                op,
                (#[trigger] items[i]).text,
                entries[i].1,
                stage,
                COMMA,
                MAP_END,
            ),
    ensures
        reads(
            map_of(key_op, op, size_hint, keys.len()),
            seq![MAP_BEGIN] + map_notation(keys, items, space),
            entries,
            stage,
            one,
            other,
        ),
{
    let text = seq![MAP_BEGIN] + map_notation(keys, items, space);
    assert forall|tail: Seq<u8>|
        #![trigger text + tail]
        tail.len() > 0 && (whitespace(tail[0]) || tail[0] == one || tail[0] == other) implies map_of(
        key_op,
        op,
        size_hint,
        keys.len(),
    )(Input::of(text + tail, stage)) == (
        Input::of(tail, stage),
        Step::<Seq<(K, V)>, Seq<char>>::Done(entries),
    ) by {
        let follows = map_notation(keys, items, space) + tail;
        assert(text + tail =~= Seq::<u8>::empty() + seq![MAP_BEGIN] + follows);
        law_read_begin(Seq::empty(), follows, stage, size_hint);
        law_read_map(key_op, op, keys, items, space, entries, tail, stage);
    }
}

/// An integer is an item that its reading reads.
pub proof fn law_integer_item(
    n: int,
    min: int,
    max: int,
    name: Seq<char>,
    stage: Stage,
    one: u8,
    other: u8,
)
    requires
        min <= n <= max,
        min <= 0 <= max,
        !numeric(one),
        !numeric(other),
    ensures
        reads(|i: Input| i.parse_integer(min, max, name), notation(n), n, stage, one, other),
{
    let op = |i: Input| i.parse_integer(min, max, name);
    assert forall|tail: Seq<u8>|
        #![trigger notation(n) + tail]
        tail.len() > 0 && (whitespace(tail[0]) || tail[0] == one || tail[0] == other) implies op(
        Input::of(notation(n) + tail, stage),
    ) == (Input::of(tail, stage), Step::<int, Seq<char>>::Done(n)) by {
        let input = Input::of(notation(n) + tail, stage);
        assert(input.rest =~= Seq::<u8>::empty() + notation(n) + tail);
        law_read_integer(input, Seq::empty(), n, tail, min, max, name);
    }
}

/// A reading reads what one reads whose outcome its own is made of.
proof fn lemma_mapped_reads<T, U>(
    op: spec_fn(Input) -> Reading<T>,
    mapped: spec_fn(Input) -> Reading<U>,
    text: Seq<u8>,
    value: T,
    mapped_value: U,
    stage: Stage,
    one: u8,
    other: u8,
)
    requires
        reads(op, text, value, stage, one, other),
        forall|input: Input|
            op(input).1 == Step::<T, Seq<char>>::Done(value) ==> #[trigger] mapped(input) == (
                op(input).0,
                Step::<U, Seq<char>>::Done(mapped_value),
            ),
    ensures
        reads(mapped, text, mapped_value, stage, one, other),
{
    assert forall|tail: Seq<u8>|
        #![trigger text + tail]
        tail.len() > 0 && (whitespace(tail[0]) || tail[0] == one || tail[0] == other) implies mapped(
        Input::of(text + tail, stage),
    ) == (Input::of(tail, stage), Step::<U, Seq<char>>::Done(mapped_value)) by {
        assert(op(Input::of(text + tail, stage)).1 == Step::<T, Seq<char>>::Done(value));
    }
}

/// An `i8` is an item that its reading reads.
pub proof fn law_i8_item(n: i8, stage: Stage, one: u8, other: u8)
    requires
        !numeric(one),
        !numeric(other),
    ensures
        reads(|i: Input| i.decode_i8(), notation(n as int), n, stage, one, other),
{
    let (min, max, name) = (i8::MIN as int, i8::MAX as int, "i8"@);
    law_integer_item(n as int, min, max, name, stage, one, other);
    lemma_mapped_reads(
        |i: Input| i.parse_integer(min, max, name),
        |i: Input| i.decode_i8(),
        notation(n as int),
        n as int,
        n,
        stage,
        one,
        other,
    );
}

/// An `i16` is an item that its reading reads.
pub proof fn law_i16_item(n: i16, stage: Stage, one: u8, other: u8)
    requires
        !numeric(one),
        !numeric(other),
    ensures
        reads(|i: Input| i.decode_i16(), notation(n as int), n, stage, one, other),
{
    let (min, max, name) = (i16::MIN as int, i16::MAX as int, "i16"@);
    law_integer_item(n as int, min, max, name, stage, one, other);
    lemma_mapped_reads(
        |i: Input| i.parse_integer(min, max, name),
        |i: Input| i.decode_i16(),
        notation(n as int),
        n as int,
        n,
        stage,
        one,
        other,
    );
}

/// An `i32` is an item that its reading reads.
pub proof fn law_i32_item(n: i32, stage: Stage, one: u8, other: u8)
    requires
        !numeric(one),
        !numeric(other),
    ensures
        reads(|i: Input| i.decode_i32(), notation(n as int), n, stage, one, other),
{
    let (min, max, name) = (i32::MIN as int, i32::MAX as int, "i32"@);
    law_integer_item(n as int, min, max, name, stage, one, other);
    lemma_mapped_reads(
        |i: Input| i.parse_integer(min, max, name),
        |i: Input| i.decode_i32(),
        notation(n as int),
        n as int,
        n,
        stage,
        one,
        other,
    );
}

/// An `i64` is an item that its reading reads.
pub proof fn law_i64_item(n: i64, stage: Stage, one: u8, other: u8)
    requires
        !numeric(one),
        !numeric(other),
    ensures
        reads(|i: Input| i.decode_i64(), notation(n as int), n, stage, one, other),
{
    let (min, max, name) = (i64::MIN as int, i64::MAX as int, "i64"@);
    law_integer_item(n as int, min, max, name, stage, one, other);
    lemma_mapped_reads(
        |i: Input| i.parse_integer(min, max, name),
        |i: Input| i.decode_i64(),
        notation(n as int),
        n as int,
        n,
        stage,
        one,
        other,
    );
}

/// A `u8` is an item that its reading reads.
pub proof fn law_u8_item(n: u8, stage: Stage, one: u8, other: u8)
    requires
        !numeric(one),
        !numeric(other),
    ensures
        reads(|i: Input| i.decode_u8(), notation(n as int), n, stage, one, other),
{
    let (min, max, name) = (u8::MIN as int, u8::MAX as int, "u8"@);
    law_integer_item(n as int, min, max, name, stage, one, other);
    lemma_mapped_reads(
        |i: Input| i.parse_integer(min, max, name),
        |i: Input| i.decode_u8(),
        notation(n as int),
        n as int,
        n,
        stage,
        one,
        other,
    );
}

/// A `u16` is an item that its reading reads.
pub proof fn law_u16_item(n: u16, stage: Stage, one: u8, other: u8)
    requires
        !numeric(one),
        !numeric(other),
    ensures
        reads(|i: Input| i.decode_u16(), notation(n as int), n, stage, one, other),
{
    let (min, max, name) = (u16::MIN as int, u16::MAX as int, "u16"@);
    law_integer_item(n as int, min, max, name, stage, one, other);
    lemma_mapped_reads(
        |i: Input| i.parse_integer(min, max, name),
        |i: Input| i.decode_u16(),
        notation(n as int),
        n as int,
        n,
        stage,
        one,
        other,
    );
}

/// A `u32` is an item that its reading reads.
pub proof fn law_u32_item(n: u32, stage: Stage, one: u8, other: u8)
    requires
        !numeric(one),
        !numeric(other),
    ensures
        reads(|i: Input| i.decode_u32(), notation(n as int), n, stage, one, other),
{
    let (min, max, name) = (u32::MIN as int, u32::MAX as int, "u32"@);
    law_integer_item(n as int, min, max, name, stage, one, other);
    lemma_mapped_reads(
        |i: Input| i.parse_integer(min, max, name),
        |i: Input| i.decode_u32(),
        notation(n as int),
        n as int,
        n,
        stage,
        one,
        other,
    );
}

/// A `u64` is an item that its reading reads.
pub proof fn law_u64_item(n: u64, stage: Stage, one: u8, other: u8)
    requires
        !numeric(one),
        !numeric(other),
    ensures
        reads(|i: Input| i.decode_u64(), notation(n as int), n, stage, one, other),
{
    let (min, max, name) = (u64::MIN as int, u64::MAX as int, "u64"@);
    law_integer_item(n as int, min, max, name, stage, one, other);
    lemma_mapped_reads(
        |i: Input| i.parse_integer(min, max, name),
        |i: Input| i.decode_u64(),
        notation(n as int),
        n as int,
        n,
        stage,
        one,
        other,
    );
}

/// The text of a number is an item that its reading reads.
pub proof fn law_number_item(digits: Seq<u8>, stage: Stage, one: u8, other: u8)
    requires
        digits.len() > 0,
        forall|i: int| 0 <= i < digits.len() ==> numeric(#[trigger] digits[i]),
        !numeric(one),
        !numeric(other),
    ensures
        reads(
            |i: Input| i.parse_number(),
            digits,
            digits.map_values(|byte: u8| byte as char),
            stage,
            one,
            other,
        ),
{
    let op = |i: Input| i.parse_number();
    let text = digits.map_values(|byte: u8| byte as char);
    assert forall|tail: Seq<u8>|
        #![trigger digits + tail]
        tail.len() > 0 && (whitespace(tail[0]) || tail[0] == one || tail[0] == other) implies op(
        Input::of(digits + tail, stage),
    ) == (Input::of(tail, stage), Step::<Seq<char>, Seq<char>>::Done(text)) by {
        let input = Input::of(digits + tail, stage);
        assert(input.rest =~= Seq::<u8>::empty() + digits + tail);
        law_read_number(input, Seq::empty(), digits, tail, Seq::empty());
    }
}

/// The reading of an optional value: that of the value follows if there is one.
pub open spec fn optional<T>(
    op: spec_fn(Input) -> Reading<T>,
) -> spec_fn(Input) -> Reading<Option<T>> {
    |input: Input|
        match input.decode_option() {
            (left, Step::Done(true)) => match op(left) {
                (left, Step::Done(value)) => (left, Step::Done(Some(value))),
                (left, Step::Failed(message)) => (left, Step::Failed(message)),
                (left, Step::More) => (left, Step::More),
            },
            (left, Step::Done(false)) => (left, Step::Done(None)),
            (left, Step::Failed(message)) => (left, Step::Failed(message)),
            (left, Step::More) => (left, Step::More),
        }
}

/// `null` is an item that the reading of an optional value reads as the lack of one.
pub proof fn law_null_item<T>(op: spec_fn(Input) -> Reading<T>, stage: Stage, one: u8, other: u8)
    ensures
        reads(optional(op), NULL@, None::<T>, stage, one, other),
{
    let text = NULL@;
    assert forall|tail: Seq<u8>|
        #![trigger text + tail]
        tail.len() > 0 && (whitespace(tail[0]) || tail[0] == one || tail[0] == other) implies optional(
        op,
    )(Input::of(text + tail, stage)) == (
        Input::of(tail, stage),
        Step::<Option<T>, Seq<char>>::Done(None),
    ) by {
        let input = Input::of(text + tail, stage);
        assert(input.rest =~= Seq::<u8>::empty() + text + tail);
        law_read_null(input, Seq::empty(), tail);
    }
}

/// What a reading reads is an item that the reading of an optional value reads as a value, if
/// it is not `null`. Of an item that is shorter than three bytes this is known only when there
/// is nothing more to come.
pub proof fn law_option_item<T>(
    op: spec_fn(Input) -> Reading<T>,
    text: Seq<u8>,
    value: T,
    stage: Stage,
    one: u8,
    other: u8,
)
    requires
        reads(op, text, value, stage, one, other),
        text.len() > 0,
        !whitespace(text[0]),
        !NULL@.is_prefix_of(text),
        !NULL@.contains(one),
        !NULL@.contains(other),
        text.len() < 3 ==> stage == Stage::Closed,
    ensures
        reads(optional(op), text, Some(value), stage, one, other),
{
    assert forall|tail: Seq<u8>|
        #![trigger text + tail]
        tail.len() > 0 && (whitespace(tail[0]) || tail[0] == one || tail[0] == other) implies optional(
        op,
    )(Input::of(text + tail, stage)) == (
        Input::of(tail, stage),
        Step::<Option<T>, Seq<char>>::Done(Some(value)),
    ) by {
        let token = text + tail;
        if NULL@.is_prefix_of(token) {
            let len = text.len() as int;
            assert(token.subrange(0, 4) =~= NULL@);
            if len >= 4 {
                assert(text.subrange(0, 4) =~= token.subrange(0, 4));
            } else {
                assert(token.subrange(0, 4)[len] == tail[0]);
                assert(NULL@[len] == tail[0]);
            }
        }
        let input = Input::of(token, stage);
        assert(input.rest =~= Seq::<u8>::empty() + token);
        law_read_option(input, Seq::empty(), token);
    }
}

/// A boolean is an item that its reading reads.
pub proof fn law_bool_item(value: bool, stage: Stage, one: u8, other: u8)
    ensures
        reads(|i: Input| i.parse_bool(), bool_notation(value), value, stage, one, other),
{
    let op = |i: Input| i.parse_bool();
    let text = bool_notation(value);
    assert forall|tail: Seq<u8>|
        #![trigger text + tail]
        tail.len() > 0 && (whitespace(tail[0]) || tail[0] == one || tail[0] == other) implies op(
        Input::of(text + tail, stage),
    ) == (Input::of(tail, stage), Step::<bool, Seq<char>>::Done(value)) by {
        let input = Input::of(text + tail, stage);
        assert(input.rest =~= Seq::<u8>::empty() + text + tail);
        law_read_bool(input, Seq::empty(), value, tail);
    }
}

/// A quoted text is an item that its reading reads.
pub proof fn law_text_item(text: Seq<char>, stage: Stage, one: u8, other: u8)
    requires
        forall|i: int|
            0 <= i < text.len() && #[trigger] text[i] == '"' ==> i > 0 && text[i - 1] == '\\',
        text.len() > 0 ==> text.last() != '\\',
    ensures
        reads(
            |i: Input| i.decode_string(),
            seq![QUOTE] + encode_utf8(text) + seq![QUOTE],
            text,
            stage,
            one,
            other,
        ),
{
    let op = |i: Input| i.decode_string();
    let quoted = seq![QUOTE] + encode_utf8(text) + seq![QUOTE];
    assert forall|tail: Seq<u8>|
        #![trigger quoted + tail]
        tail.len() > 0 && (whitespace(tail[0]) || tail[0] == one || tail[0] == other) implies op(
        Input::of(quoted + tail, stage),
    ) == (Input::of(tail, stage), Step::<Seq<char>, Seq<char>>::Done(text)) by {
        let input = Input::of(quoted + tail, stage);
        assert(input.rest =~= Seq::<u8>::empty() + seq![QUOTE] + encode_utf8(text) + seq![QUOTE]
            + tail);
        law_read_text(input, Seq::empty(), text, tail);
    }
}

} // verus!
