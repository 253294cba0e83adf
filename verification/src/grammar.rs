//! The grammar of the wire format, as a function from bytes to the value
//! they hold or to the first fault in them.
//!
//! The grammar is strict: an integer or a length has exactly one spelling,
//! and the keys of a dictionary must be strictly increasing. So every input
//! that is accepted is the encoding of the value it yields.

use crate::digits::{decimal_value, digits_end, is_digit, ZERO};
use crate::encode::{COLON, DICTIONARY_START, END, INTEGER_START, LIST_START, MINUS};
use crate::value::{precedes, Node};
use vstd::prelude::*;

verus! {

/// What is wrong with an input.
#[derive(Debug, Clone, Copy, PartialEq, Eq, Structural)]
pub enum DecodeErrorKind {
    /// The input ends inside an integer or a byte string, or where a value
    /// must start.
    UnexpectedEof,
    /// A byte string's length is not a numeral followed by `:`, or is above
    /// `u64::MAX`; also a byte that can start no value.
    InvalidLength,
    /// An integer is not a numeral, with at most a `-` in front, followed by
    /// `e`; or it is `-0`, or outside the range of `i64`.
    InvalidInteger,
    /// The input ends where the next item of a list or dictionary, or the
    /// closing `e`, must start.
    UnterminatedContainer,
    /// A dictionary key is not a byte string.
    NonStringKey,
    /// A dictionary key is not greater than the key before it.
    UnsortedKeys,
    /// Containers are nested more deeply than the limit allows.
    DepthExceeded,
}

/// A fault in an input and the byte offset at which it was found.
#[derive(Debug, Clone, Copy, PartialEq, Eq, Structural)]
pub struct DecodeError {
    pub kind: DecodeErrorKind,
    pub offset: usize,
}

/// What reading an input from some offset gives: a value and the offset
/// just behind it, or a fault and the offset at which it lies.
pub ghost enum Outcome<T> {
    Parsed(T, int),
    Failed(DecodeErrorKind, int),
}

/// The offset `to` lies behind `from` and within `s`. Every value takes at
/// least one byte, so this holds wherever the grammar asks for it; it stands
/// there to bound the recursion.
pub open spec fn advances(s: Seq<u8>, from: int, to: int) -> bool {
    from < to <= s.len()
}

/// Reads the integer that starts with the `i` at `pos`.
pub open spec fn parse_integer(s: Seq<u8>, pos: int) -> Outcome<Node> {
    let negative = pos + 1 < s.len() && s[pos + 1] == MINUS;
    let first = if negative {
        pos + 2
    } else {
        pos + 1
    };
    let end = digits_end(s, first);
    let magnitude = decimal_value(s.subrange(first, end));
    if end >= s.len() {
        Outcome::Failed(DecodeErrorKind::UnexpectedEof, s.len() as int)
    } else if end == first {
        Outcome::Failed(DecodeErrorKind::InvalidInteger, first)
    } else if s[end] != END {
        Outcome::Failed(DecodeErrorKind::InvalidInteger, end)
    } else if s[first] == ZERO && (negative || end - first > 1) {
        Outcome::Failed(DecodeErrorKind::InvalidInteger, first)
    } else if negative && magnitude > i64::MAX + 1 {
        Outcome::Failed(DecodeErrorKind::InvalidInteger, first)
    } else if !negative && magnitude > i64::MAX {
        Outcome::Failed(DecodeErrorKind::InvalidInteger, first)
    } else if negative {
        Outcome::Parsed(Node::Integer((-magnitude) as i64), end + 1)
    } else {
        Outcome::Parsed(Node::Integer(magnitude as i64), end + 1)
    }
}

/// Reads the byte string whose length starts with the digit at `pos`.
pub open spec fn parse_bytes(s: Seq<u8>, pos: int) -> Outcome<Seq<u8>> {
    let end = digits_end(s, pos);
    let length = decimal_value(s.subrange(pos, end));
    if end >= s.len() {
        Outcome::Failed(DecodeErrorKind::UnexpectedEof, s.len() as int)
    } else if s[end] != COLON {
        Outcome::Failed(DecodeErrorKind::InvalidLength, end)
    } else if s[pos] == ZERO && end - pos > 1 {
        Outcome::Failed(DecodeErrorKind::InvalidLength, pos)
    } else if length > u64::MAX {
        Outcome::Failed(DecodeErrorKind::InvalidLength, pos)
    } else if length > s.len() - (end + 1) {
        Outcome::Failed(DecodeErrorKind::UnexpectedEof, s.len() as int)
    } else {
        Outcome::Parsed(s.subrange(end + 1, end + 1 + length), end + 1 + length)
    }
}

/// Reads the value that starts at `pos`, with at most `depth` containers
/// inside one another.
pub open spec fn parse_value(s: Seq<u8>, pos: int, depth: nat) -> Outcome<Node>
    decreases s.len() - pos, 0int,
{
    if pos < 0 || pos >= s.len() {
        Outcome::Failed(DecodeErrorKind::UnexpectedEof, s.len() as int)
    } else if s[pos] == INTEGER_START {
        parse_integer(s, pos)
    } else if is_digit(s[pos]) {
        match parse_bytes(s, pos) {
            Outcome::Parsed(bytes, end) => Outcome::Parsed(Node::Bytes(bytes), end),
            Outcome::Failed(kind, offset) => Outcome::Failed(kind, offset),
        }
    } else if s[pos] == LIST_START {
        if depth == 0 {
            Outcome::Failed(DecodeErrorKind::DepthExceeded, pos)
        } else {
            match parse_items(s, pos + 1, (depth - 1) as nat) {
                Outcome::Parsed(items, end) => Outcome::Parsed(Node::List(items), end),
                Outcome::Failed(kind, offset) => Outcome::Failed(kind, offset),
            }
        }
    } else if s[pos] == DICTIONARY_START {
        if depth == 0 {
            Outcome::Failed(DecodeErrorKind::DepthExceeded, pos)
        } else {
            match parse_entries(s, pos + 1, (depth - 1) as nat, None) {
                Outcome::Parsed(entries, end) => Outcome::Parsed(Node::Dictionary(entries), end),
                Outcome::Failed(kind, offset) => Outcome::Failed(kind, offset),
            }
        }
    } else {
        Outcome::Failed(DecodeErrorKind::InvalidLength, pos)
    }
}

/// Reads the items of a list from `pos` up to and including the closing `e`.
pub open spec fn parse_items(s: Seq<u8>, pos: int, depth: nat) -> Outcome<Seq<Node>>
    decreases s.len() - pos, 1int,
{
    if pos < 0 || pos >= s.len() {
        Outcome::Failed(DecodeErrorKind::UnterminatedContainer, s.len() as int)
    } else if s[pos] == END {
        Outcome::Parsed(Seq::empty(), pos + 1)
    } else {
        match parse_value(s, pos, depth) {
            Outcome::Failed(kind, offset) => Outcome::Failed(kind, offset),
            Outcome::Parsed(item, next) => if advances(s, pos, next) {
                match parse_items(s, next, depth) {
                    Outcome::Failed(kind, offset) => Outcome::Failed(kind, offset),
                    Outcome::Parsed(rest, end) => Outcome::Parsed(seq![item] + rest, end),
                }
            } else {
                Outcome::Failed(DecodeErrorKind::UnexpectedEof, s.len() as int)
            },
        }
    }
}

/// Reads the entries of a dictionary from `pos` up to and including the
/// closing `e`. Where `floor` holds the key of the entry before `pos`, the
/// next key must be greater.
pub open spec fn parse_entries(s: Seq<u8>, pos: int, depth: nat, floor: Option<Seq<u8>>) -> Outcome<
    Seq<(Seq<u8>, Node)>,
>
    decreases s.len() - pos, 1int,
{
    if pos < 0 || pos >= s.len() {
        Outcome::Failed(DecodeErrorKind::UnterminatedContainer, s.len() as int)
    } else if s[pos] == END {
        Outcome::Parsed(Seq::empty(), pos + 1)
    } else if !is_digit(s[pos]) {
        Outcome::Failed(DecodeErrorKind::NonStringKey, pos)
    } else {
        match parse_bytes(s, pos) {
            Outcome::Failed(kind, offset) => Outcome::Failed(kind, offset),
            Outcome::Parsed(key, key_end) => if floor is Some && !precedes(floor->0, key) {
                Outcome::Failed(DecodeErrorKind::UnsortedKeys, pos)
            } else if advances(s, pos, key_end) {
                match parse_value(s, key_end, depth) {
                    Outcome::Failed(kind, offset) => Outcome::Failed(kind, offset),
                    Outcome::Parsed(value, next) => if advances(s, pos, next) {
                        match parse_entries(s, next, depth, Some(key)) {
                            Outcome::Failed(kind, offset) => Outcome::Failed(kind, offset),
                            Outcome::Parsed(rest, end) => Outcome::Parsed(
                                seq![(key, value)] + rest,
                                end,
                            ),
                        }
                    } else {
                        Outcome::Failed(DecodeErrorKind::UnexpectedEof, s.len() as int)
                    },
                }
            } else {
                Outcome::Failed(DecodeErrorKind::UnexpectedEof, s.len() as int)
            },
        }
    }
}

} // verus!
