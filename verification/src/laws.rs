//! The decoder and the encoder are inverse to each other.

use crate::digits::{
    decimal_digits, decimal_value, digits_end, is_digit, is_numeral,
    lemma_decimal_digits_numeral, lemma_digits_end, lemma_digits_end_is, lemma_digits_of_value,
    lemma_value_of_digits, lemma_value_positive, ZERO,
};
use crate::encode::{
    bytes_encoding, encoding, entries_encoding, integer_encoding, items_encoding, COLON,
    DICTIONARY_START, END, INTEGER_START, LIST_START, MINUS,
};
use crate::grammar::{
    advances, parse_bytes, parse_entries, parse_integer, parse_items, parse_value,
    DecodeErrorKind, Outcome,
};
use crate::value::{keys_increasing, precedes, Node};
use vstd::prelude::*;

verus! {

/// The bytes `part` stand in `s` from offset `pos` on.
pub open spec fn holds_at(s: Seq<u8>, pos: int, part: Seq<u8>) -> bool {
    &&& 0 <= pos
    &&& pos + part.len() <= s.len()
    &&& s.subrange(pos, pos + part.len()) == part
}

/// Where two parts stand one after the other, each stands at its place.
pub proof fn lemma_holds_at_split(s: Seq<u8>, pos: int, a: Seq<u8>, b: Seq<u8>)
    requires
        holds_at(s, pos, a + b),
    ensures
        holds_at(s, pos, a),
        holds_at(s, pos + a.len(), b),
{
    let whole = s.subrange(pos, pos + (a + b).len());
    assert(s.subrange(pos, pos + a.len()) =~= whole.subrange(0, a.len() as int));
    assert(whole.subrange(0, a.len() as int) =~= a);
    assert(s.subrange(pos + a.len(), pos + a.len() + b.len()) =~= whole.subrange(
        a.len() as int,
        whole.len() as int,
    ));
    assert(whole.subrange(a.len() as int, whole.len() as int) =~= b);
}

/// A byte of a part that stands in `s` is the byte of `s` at that place.
pub proof fn lemma_holds_at_index(s: Seq<u8>, pos: int, part: Seq<u8>, i: int)
    requires
        holds_at(s, pos, part),
        0 <= i < part.len(),
    ensures
        s[pos + i] == part[i],
{
    assert(s.subrange(pos, pos + part.len())[i] == s[pos + i]);
}

/// An integer that the grammar accepts is written exactly as the encoder
/// writes it.
pub proof fn lemma_integer_sound(s: Seq<u8>, pos: int)
    requires
        0 <= pos < s.len(),
        s[pos] == INTEGER_START,
        parse_integer(s, pos) is Parsed,
    ensures
        advances(s, pos, parse_integer(s, pos)->Parsed_1),
        parse_integer(s, pos)->Parsed_0 is Integer,
        encoding(parse_integer(s, pos)->Parsed_0) == s.subrange(
            pos,
            parse_integer(s, pos)->Parsed_1,
        ),
{
    let negative = pos + 1 < s.len() && s[pos + 1] == MINUS;
    let first = if negative {
        pos + 2
    } else {
        pos + 1
    };
    lemma_digits_end(s, first);
    let end = digits_end(s, first);
    let digits = s.subrange(first, end);
    assert(digits[0] == s[first]);
    assert(is_numeral(digits));
    lemma_digits_of_value(digits);
    let magnitude = decimal_value(digits);
    if negative {
        lemma_value_positive(digits);
        let n = (-magnitude) as i64;
        assert((-n) as nat == magnitude);
        assert(integer_encoding(n) =~= s.subrange(pos, end + 1));
    } else {
        let n = magnitude as i64;
        assert(integer_encoding(n) =~= s.subrange(pos, end + 1));
    }
}

/// A byte string that the grammar accepts is written exactly as the encoder
/// writes it.
pub proof fn lemma_bytes_sound(s: Seq<u8>, pos: int)
    requires
        0 <= pos < s.len(),
        is_digit(s[pos]),
        parse_bytes(s, pos) is Parsed,
    ensures
        advances(s, pos, parse_bytes(s, pos)->Parsed_1),
        bytes_encoding(parse_bytes(s, pos)->Parsed_0) == s.subrange(
            pos,
            parse_bytes(s, pos)->Parsed_1,
        ),
{
    lemma_digits_end(s, pos);
    lemma_digits_end(s, pos + 1);
    let end = digits_end(s, pos);
    let digits = s.subrange(pos, end);
    assert(digits[0] == s[pos]);
    assert(is_numeral(digits));
    lemma_digits_of_value(digits);
    let length = decimal_value(digits);
    let data = s.subrange(end + 1, end + 1 + length);
    assert(bytes_encoding(data) =~= s.subrange(pos, end + 1 + length));
}

/// The encoding of an integer, wherever it stands, is read back as that
/// integer.
pub proof fn lemma_integer_complete(n: i64, s: Seq<u8>, pos: int)
    requires
        holds_at(s, pos, integer_encoding(n)),
    ensures
        s[pos] == INTEGER_START,
        parse_integer(s, pos) == Outcome::Parsed(
            Node::Integer(n),
            pos + integer_encoding(n).len(),
        ),
{
    let text = integer_encoding(n);
    let magnitude: nat = if n < 0 {
        (-n) as nat
    } else {
        n as nat
    };
    let digits = decimal_digits(magnitude);
    lemma_decimal_digits_numeral(magnitude);
    lemma_value_of_digits(magnitude);
    let first = if n < 0 {
        pos + 2
    } else {
        pos + 1
    };
    let end = first + digits.len();
    assert forall|i: int| 0 <= i < text.len() implies s[pos + i] == #[trigger] text[i] by {
        lemma_holds_at_index(s, pos, text, i);
    }
    assert(text[0] == INTEGER_START);
    assert(s[pos + 0] == text[0]);
    assert(s[pos + 1] == text[1]);
    assert(s[end] == text[end - pos]);
    assert(s[end] == END);
    assert(s.subrange(first, end) =~= digits) by {
        assert forall|i: int| 0 <= i < digits.len() implies s.subrange(first, end)[i]
            == digits[i] by {
            assert(s[pos + (first - pos + i)] == text[first - pos + i]);
        }
    }
    lemma_digits_end_is(s, first, end);
    if n >= 0 {
        assert(text[1] == digits[0]);
        assert(is_digit(digits[0]));
    }
}

/// The encoding of a byte string, wherever it stands, is read back as that
/// byte string.
pub proof fn lemma_bytes_complete(data: Seq<u8>, s: Seq<u8>, pos: int)
    requires
        holds_at(s, pos, bytes_encoding(data)),
        data.len() <= u64::MAX,
    ensures
        is_digit(s[pos]),
        parse_bytes(s, pos) == Outcome::Parsed(data, pos + bytes_encoding(data).len()),
{
    let text = bytes_encoding(data);
    let digits = decimal_digits(data.len());
    lemma_decimal_digits_numeral(data.len());
    lemma_value_of_digits(data.len());
    let end = pos + digits.len();
    assert forall|i: int| 0 <= i < text.len() implies s[pos + i] == #[trigger] text[i] by {
        lemma_holds_at_index(s, pos, text, i);
    }
    assert(s[pos + 0] == text[0]);
    assert(text[0] == digits[0]);
    assert(is_digit(digits[0]));
    assert(s[end] == text[end - pos]);
    assert(s[end] == COLON);
    assert(s.subrange(pos, end) =~= digits) by {
        assert forall|i: int| 0 <= i < digits.len() implies s.subrange(pos, end)[i]
            == digits[i] by {
            assert(s[pos + i] == text[i]);
        }
    }
    lemma_digits_end_is(s, pos, end);
    assert(s.subrange(end + 1, end + 1 + data.len()) =~= data) by {
        assert forall|i: int| 0 <= i < data.len() implies s.subrange(
            end + 1,
            end + 1 + data.len(),
        )[i] == data[i] by {
            assert(s[pos + (digits.len() + 1 + i)] == text[digits.len() + 1 + i]);
        }
    }
}

/// Every encoding has at least two bytes, and its first byte tells the kind
/// of the value; it is never the closing `e`.
pub proof fn lemma_encoding_head(node: Node)
    ensures
        encoding(node).len() >= 2,
        encoding(node)[0] != END,
        match node {
            Node::Integer(_) => encoding(node)[0] == INTEGER_START,
            Node::Bytes(_) => is_digit(encoding(node)[0]),
            Node::List(_) => encoding(node)[0] == LIST_START,
            Node::Dictionary(_) => encoding(node)[0] == DICTIONARY_START,
        },
{
    match node {
        Node::Integer(n) => {},
        Node::Bytes(data) => {
            lemma_decimal_digits_numeral(data.len());
            assert(encoding(node)[0] == decimal_digits(data.len())[0]);
        },
        Node::List(items) => {},
        Node::Dictionary(entries) => {},
    }
}

/// The items behind the first are encoded as they are without it.
pub proof fn lemma_items_encoding_shift(head: Node, rest: Seq<Node>, from: int)
    requires
        0 <= from,
    ensures
        items_encoding(seq![head] + rest, from + 1) == items_encoding(rest, from),
    decreases rest.len() - from,
{
    let all = seq![head] + rest;
    if from < rest.len() {
        assert(all[from + 1] == rest[from]);
        lemma_items_encoding_shift(head, rest, from + 1);
    }
}

/// The entries behind the first are encoded as they are without it.
pub proof fn lemma_entries_encoding_shift(
    head: (Seq<u8>, Node),
    rest: Seq<(Seq<u8>, Node)>,
    from: int,
)
    requires
        0 <= from,
    ensures
        entries_encoding(seq![head] + rest, from + 1) == entries_encoding(rest, from),
    decreases rest.len() - from,
{
    let all = seq![head] + rest;
    if from < rest.len() {
        assert(all[from + 1] == rest[from]);
        lemma_entries_encoding_shift(head, rest, from + 1);
    }
}

/// Whatever the grammar accepts at `pos` takes at least one byte, is well
/// formed and within the depth allowed, and is written in `s` exactly as the
/// encoder writes it.
pub proof fn lemma_value_sound(s: Seq<u8>, pos: int, depth: nat)
    ensures
        match parse_value(s, pos, depth) {
            Outcome::Parsed(node, end) => {
                &&& advances(s, pos, end)
                &&& 0 <= pos
                &&& encoding(node) == s.subrange(pos, end)
                &&& node.well_formed()
                &&& node.nests_within(depth)
            },
            Outcome::Failed(_, _) => true,
        },
    decreases s.len() - pos, 0int,
{
    if parse_value(s, pos, depth) is Parsed {
        if s[pos] == INTEGER_START {
            lemma_integer_sound(s, pos);
        } else if is_digit(s[pos]) {
            lemma_bytes_sound(s, pos);
        } else if s[pos] == LIST_START {
            lemma_items_sound(s, pos + 1, (depth - 1) as nat);
            let items = parse_items(s, pos + 1, (depth - 1) as nat)->Parsed_0;
            let end = parse_items(s, pos + 1, (depth - 1) as nat)->Parsed_1;
            assert(encoding(Node::List(items)) =~= seq![LIST_START] + s.subrange(pos + 1, end));
            assert(seq![LIST_START] + s.subrange(pos + 1, end) =~= s.subrange(pos, end));
        } else {
            lemma_entries_sound(s, pos + 1, (depth - 1) as nat, None);
            let entries = parse_entries(s, pos + 1, (depth - 1) as nat, None)->Parsed_0;
            let end = parse_entries(s, pos + 1, (depth - 1) as nat, None)->Parsed_1;
            assert(encoding(Node::Dictionary(entries)) =~= seq![DICTIONARY_START] + s.subrange(
                pos + 1,
                end,
            ));
            assert(seq![DICTIONARY_START] + s.subrange(pos + 1, end) =~= s.subrange(pos, end));
        }
    }
}

/// The same of the items of a list and the `e` that closes it.
pub proof fn lemma_items_sound(s: Seq<u8>, pos: int, depth: nat)
    ensures
        match parse_items(s, pos, depth) {
            Outcome::Parsed(items, end) => {
                &&& advances(s, pos, end)
                &&& 0 <= pos
                &&& items_encoding(items, 0) + seq![END] == s.subrange(pos, end)
                &&& forall|i: int|
                    0 <= i < items.len() ==> (#[trigger] items[i]).well_formed()
                        && items[i].nests_within(depth)
            },
            Outcome::Failed(_, _) => true,
        },
    decreases s.len() - pos, 1int,
{
    if parse_items(s, pos, depth) is Parsed {
        if s[pos] == END {
            assert(Seq::<u8>::empty() + seq![END] =~= s.subrange(pos, pos + 1));
        } else {
            lemma_value_sound(s, pos, depth);
            let item = parse_value(s, pos, depth)->Parsed_0;
            let next = parse_value(s, pos, depth)->Parsed_1;
            lemma_items_sound(s, next, depth);
            let rest = parse_items(s, next, depth)->Parsed_0;
            let end = parse_items(s, next, depth)->Parsed_1;
            let items = seq![item] + rest;
            lemma_items_encoding_shift(item, rest, 0);
            assert(items[0] == item);
            assert(items_encoding(items, 0) == encoding(item) + items_encoding(rest, 0));
            assert(items_encoding(items, 0) + seq![END] =~= s.subrange(pos, next) + s.subrange(
                next,
                end,
            ));
            assert(s.subrange(pos, next) + s.subrange(next, end) =~= s.subrange(pos, end));
            assert forall|i: int| 0 <= i < items.len() implies (#[trigger] items[i]).well_formed()
                && items[i].nests_within(depth) by {
                if i > 0 {
                    assert(items[i] == rest[i - 1]);
                }
            }
        }
    }
}

/// The same of the entries of a dictionary and the `e` that closes it. The
/// keys are strictly increasing, and the first is greater than `floor`.
pub proof fn lemma_entries_sound(s: Seq<u8>, pos: int, depth: nat, floor: Option<Seq<u8>>)
    ensures
        match parse_entries(s, pos, depth, floor) {
            Outcome::Parsed(entries, end) => {
                &&& advances(s, pos, end)
                &&& 0 <= pos
                &&& entries_encoding(entries, 0) + seq![END] == s.subrange(pos, end)
                &&& keys_increasing(entries)
                &&& floor is Some && entries.len() > 0 ==> precedes(floor->0, entries[0].0)
                &&& forall|i: int|
                    0 <= i < entries.len() ==> (#[trigger] entries[i]).1.well_formed()
                        && entries[i].1.nests_within(depth)
            },
            Outcome::Failed(_, _) => true,
        },
    decreases s.len() - pos, 1int,
{
    if parse_entries(s, pos, depth, floor) is Parsed {
        if s[pos] == END {
            assert(Seq::<u8>::empty() + seq![END] =~= s.subrange(pos, pos + 1));
        } else {
            lemma_bytes_sound(s, pos);
            let key = parse_bytes(s, pos)->Parsed_0;
            let key_end = parse_bytes(s, pos)->Parsed_1;
            lemma_value_sound(s, key_end, depth);
            let value = parse_value(s, key_end, depth)->Parsed_0;
            let next = parse_value(s, key_end, depth)->Parsed_1;
            lemma_entries_sound(s, next, depth, Some(key));
            let rest = parse_entries(s, next, depth, Some(key))->Parsed_0;
            let end = parse_entries(s, next, depth, Some(key))->Parsed_1;
            let entries = seq![(key, value)] + rest;
            lemma_entries_encoding_shift((key, value), rest, 0);
            assert(entries[0] == (key, value));
            assert(entries_encoding(entries, 0) == bytes_encoding(key) + encoding(value)
                + entries_encoding(rest, 0));
            assert(entries_encoding(entries, 0) + seq![END] =~= s.subrange(pos, key_end)
                + s.subrange(key_end, next) + s.subrange(next, end));
            assert(s.subrange(pos, key_end) + s.subrange(key_end, next) + s.subrange(next, end)
                =~= s.subrange(pos, end));
            assert forall|i: int| 0 <= i < entries.len() implies (
            #[trigger] entries[i]).1.well_formed() && entries[i].1.nests_within(depth) by {
                if i > 0 {
                    assert(entries[i] == rest[i - 1]);
                }
            }
            assert forall|i: int| 0 < i < entries.len() implies precedes(
                entries[i - 1].0,
                #[trigger] entries[i].0,
            ) by {
                assert(entries[i] == rest[i - 1]);
                if i > 1 {
                    assert(entries[i - 1] == rest[i - 2]);
                }
            }
        }
    }
}

/// The encoding of a well-formed value, wherever it stands in an input that
/// fits in memory, is read back as that value, provided the depth allowed
/// covers it.
pub proof fn lemma_value_complete(node: Node, s: Seq<u8>, pos: int, depth: nat)
    requires
        node.well_formed(),
        node.nests_within(depth),
        holds_at(s, pos, encoding(node)),
        s.len() <= u64::MAX,
    ensures
        parse_value(s, pos, depth) == Outcome::Parsed(node, pos + encoding(node).len()),
    decreases node, 0int,
{
    lemma_encoding_head(node);
    lemma_holds_at_index(s, pos, encoding(node), 0);
    match node {
        Node::Integer(n) => {
            lemma_integer_complete(n, s, pos);
        },
        Node::Bytes(data) => {
            lemma_bytes_complete(data, s, pos);
        },
        Node::List(items) => {
            let inner = items_encoding(items, 0) + seq![END];
            assert(seq![LIST_START] + inner =~= encoding(node));
            lemma_holds_at_split(s, pos, seq![LIST_START], inner);
            lemma_items_complete(items, 0, s, pos + 1, (depth - 1) as nat);
            assert(items.skip(0) =~= items);
        },
        Node::Dictionary(entries) => {
            let inner = entries_encoding(entries, 0) + seq![END];
            assert(seq![DICTIONARY_START] + inner =~= encoding(node));
            lemma_holds_at_split(s, pos, seq![DICTIONARY_START], inner);
            lemma_entries_complete(entries, 0, s, pos + 1, (depth - 1) as nat);
            assert(entries.skip(0) =~= entries);
        },
    }
}

/// The same of the items of a list from index `from` on and the `e` that
/// closes it.
pub proof fn lemma_items_complete(items: Seq<Node>, from: int, s: Seq<u8>, pos: int, depth: nat)
    requires
        0 <= from <= items.len(),
        forall|i: int|
            0 <= i < items.len() ==> (#[trigger] items[i]).well_formed() && items[i].nests_within(
                depth,
            ),
        holds_at(s, pos, items_encoding(items, from) + seq![END]),
        s.len() <= u64::MAX,
    ensures
        parse_items(s, pos, depth) == Outcome::Parsed(
            items.skip(from),
            pos + items_encoding(items, from).len() + 1,
        ),
    decreases items, items.len() - from,
{
    let text = items_encoding(items, from) + seq![END];
    lemma_holds_at_index(s, pos, text, 0);
    if from == items.len() {
        assert(items.skip(from) =~= Seq::<Node>::empty());
    } else {
        let item = items[from];
        let tail = items_encoding(items, from + 1) + seq![END];
        assert(encoding(item) + tail =~= text);
        lemma_holds_at_split(s, pos, encoding(item), tail);
        lemma_encoding_head(item);
        assert(text[0] == encoding(item)[0]);
        lemma_value_complete(item, s, pos, depth);
        let next = pos + encoding(item).len();
        lemma_items_complete(items, from + 1, s, next, depth);
        assert(seq![item] + items.skip(from + 1) =~= items.skip(from));
    }
}

/// The same of the entries of a dictionary from index `from` on and the `e`
/// that closes it, read with the key before `from` as the floor.
pub proof fn lemma_entries_complete(
    entries: Seq<(Seq<u8>, Node)>,
    from: int,
    s: Seq<u8>,
    pos: int,
    depth: nat,
)
    requires
        0 <= from <= entries.len(),
        keys_increasing(entries),
        forall|i: int|
            0 <= i < entries.len() ==> (#[trigger] entries[i]).1.well_formed()
                && entries[i].1.nests_within(depth),
        holds_at(s, pos, entries_encoding(entries, from) + seq![END]),
        s.len() <= u64::MAX,
    ensures
        parse_entries(
            s,
            pos,
            depth,
            if from == 0 {
                None
            } else {
                Some(entries[from - 1].0)
            },
        ) == Outcome::Parsed(entries.skip(from), pos + entries_encoding(entries, from).len() + 1),
    decreases entries, entries.len() - from,
{
    let text = entries_encoding(entries, from) + seq![END];
    lemma_holds_at_index(s, pos, text, 0);
    if from == entries.len() {
        assert(entries.skip(from) =~= Seq::<(Seq<u8>, Node)>::empty());
    } else {
        let key = entries[from].0;
        let value = entries[from].1;
        let tail = entries_encoding(entries, from + 1) + seq![END];
        assert(bytes_encoding(key) + (encoding(value) + tail) =~= text);
        lemma_holds_at_split(s, pos, bytes_encoding(key), encoding(value) + tail);
        lemma_bytes_complete(key, s, pos);
        let key_end = pos + bytes_encoding(key).len();
        lemma_holds_at_split(s, key_end, encoding(value), tail);
        lemma_encoding_head(value);
        lemma_value_complete(value, s, key_end, depth);
        let next = key_end + encoding(value).len();
        lemma_entries_complete(entries, from + 1, s, next, depth);
        if from > 0 {
            assert(precedes(entries[from - 1].0, entries[from].0));
        }
        assert(seq![(key, value)] + entries.skip(from + 1) =~= entries.skip(from));
    }
}

/// What is decoded is written in the input exactly as the encoder writes
/// it: encoding the value that `s` yields gives the bytes of `s` that were
/// read. The value is well formed and within the depth allowed.
pub proof fn law_encode_inverts_decode(s: Seq<u8>, limit: nat)
    ensures
        match parse_value(s, 0, limit) {
            Outcome::Parsed(node, end) => {
                &&& 0 < end <= s.len()
                &&& encoding(node) == s.subrange(0, end)
                &&& node.well_formed()
                &&& node.nests_within(limit)
            },
            Outcome::Failed(_, _) => true,
        },
{
    lemma_value_sound(s, 0, limit);
}

/// Decoding the encoding of a value gives the value back and reads all of
/// it, for every well-formed value that is nested no deeper than the limit
/// and whose encoding fits in memory. Bytes that follow the encoding are
/// left alone.
pub proof fn law_decode_inverts_encode(node: Node, limit: nat, rest: Seq<u8>)
    requires
        node.well_formed(),
        node.nests_within(limit),
        encoding(node).len() + rest.len() <= u64::MAX,
    ensures
        parse_value(encoding(node) + rest, 0, limit) == Outcome::Parsed(
            node,
            encoding(node).len() as int,
        ),
{
    let s = encoding(node) + rest;
    assert(s.subrange(0, encoding(node).len() as int) =~= encoding(node));
    lemma_value_complete(node, s, 0, limit);
}

/// Every integer is read back from its encoding, whatever the depth
/// allowed.
pub proof fn law_integer_round_trip(n: i64, limit: nat)
    ensures
        parse_value(integer_encoding(n), 0, limit) == Outcome::Parsed(
            Node::Integer(n),
            integer_encoding(n).len() as int,
        ),
{
    let s = integer_encoding(n);
    assert(s.subrange(0, s.len() as int) =~= s);
    lemma_integer_complete(n, s, 0);
}

/// An integer written with a `-` before a `0`, or with a `0` before another
/// digit, is never accepted.
pub proof fn law_redundant_integer_rejected(s: Seq<u8>, limit: nat)
    requires
        s.len() >= 3,
        s[0] == INTEGER_START,
        (s[1] == MINUS && s[2] == ZERO) || (s[1] == ZERO && is_digit(s[2])),
    ensures
        parse_value(s, 0, limit) is Failed,
        parse_value(s, 0, limit)->Failed_0 == DecodeErrorKind::InvalidInteger
            || parse_value(s, 0, limit)->Failed_0 == DecodeErrorKind::UnexpectedEof,
{
    if s[1] == MINUS {
        lemma_digits_end(s, 3);
    } else {
        lemma_digits_end(s, 2);
        lemma_digits_end(s, 3);
    }
}

/// Every byte string is read back from its length, a `:` and its bytes,
/// whatever the depth allowed.
pub proof fn law_bytes_round_trip(data: Seq<u8>, limit: nat)
    requires
        data.len() <= u64::MAX,
    ensures
        parse_value(bytes_encoding(data), 0, limit) == Outcome::Parsed(
            Node::Bytes(data),
            bytes_encoding(data).len() as int,
        ),
{
    let s = bytes_encoding(data);
    assert(s.subrange(0, s.len() as int) =~= s);
    lemma_bytes_complete(data, s, 0);
}

/// A length that asks for more bytes than the input has left is an
/// unexpected end of input, found at the end of the input.
pub proof fn law_length_beyond_input(length: nat, rest: Seq<u8>, limit: nat)
    requires
        rest.len() < length <= u64::MAX,
    ensures
        parse_value(decimal_digits(length) + seq![COLON] + rest, 0, limit) == Outcome::<
            Node,
        >::Failed(
            DecodeErrorKind::UnexpectedEof,
            (decimal_digits(length) + seq![COLON] + rest).len() as int,
        ),
{
    let digits = decimal_digits(length);
    let s = digits + seq![COLON] + rest;
    lemma_decimal_digits_numeral(length);
    lemma_value_of_digits(length);
    let end = digits.len() as int;
    assert(s[0] == digits[0]);
    assert(s[end] == COLON);
    assert(s.subrange(0, end) =~= digits);
    lemma_digits_end_is(s, 0, end);
}

} // verus!
