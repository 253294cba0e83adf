//! The decoder: reads one value from the front of a buffer.

use crate::digits::{is_digit, lemma_digits_end, scan_digits, NINE, ZERO};
use crate::encode::{
    encoding, COLON, DICTIONARY_START, END, INTEGER_START, LIST_START, MINUS,
};
use crate::grammar::{
    advances, parse_bytes, parse_entries, parse_integer, parse_items, parse_value, DecodeError,
    DecodeErrorKind, Outcome,
};
use crate::laws::{holds_at, law_encode_inverts_decode, lemma_value_complete};
use crate::value::{
    bytes_precede, entries_view, items_view, lemma_dictionary_view, lemma_list_view, Node, Value,
};
use vstd::prelude::*;
use vstd::slice::{slice_subrange, slice_to_vec};

verus! {

/// The nesting limit that `decode` applies.
pub const MAX_DEPTH: usize = 128;

/// The items read so far, followed by what reading the rest gives.
pub open spec fn after_items(done: Seq<Node>, rest: Outcome<Seq<Node>>) -> Outcome<Seq<Node>> {
    match rest {
        Outcome::Parsed(items, end) => Outcome::Parsed(done + items, end),
        Outcome::Failed(kind, offset) => Outcome::Failed(kind, offset),
    }
}

/// The entries read so far, followed by what reading the rest gives.
pub open spec fn after_entries(
    done: Seq<(Seq<u8>, Node)>,
    rest: Outcome<Seq<(Seq<u8>, Node)>>,
) -> Outcome<Seq<(Seq<u8>, Node)>> {
    match rest {
        Outcome::Parsed(entries, end) => Outcome::Parsed(done + entries, end),
        Outcome::Failed(kind, offset) => Outcome::Failed(kind, offset),
    }
}

/// The key that the next entry's key must exceed: the last of `done`.
pub open spec fn floor_of(done: Seq<(Seq<u8>, Node)>) -> Option<Seq<u8>> {
    if done.len() == 0 {
        None
    } else {
        Some(done.last().0)
    }
}

/// `result` is what the grammar gives: the same value and end, or the same
/// fault at the same offset.
pub open spec fn agrees(result: Result<(Value, usize), DecodeError>, outcome: Outcome<Node>) -> bool {
    match result {
        Ok((value, end)) => outcome == Outcome::<Node>::Parsed(value@, end as int),
        Err(error) => outcome == Outcome::<Node>::Failed(error.kind, error.offset as int),
    }
}

fn decode_integer(bytes: &[u8], pos: usize) -> (result: Result<(Value, usize), DecodeError>)
    requires
        pos < bytes.len(),
    ensures
        agrees(result, parse_integer(bytes@, pos as int)),
        result is Ok ==> advances(bytes@, pos as int, result->Ok_0.1 as int),
        result is Err ==> result->Err_0.offset <= bytes.len(),
{
    let negative = pos + 1 < bytes.len() && bytes[pos + 1] == MINUS;
    let first: usize = if negative {
        pos + 2
    } else {
        pos + 1
    };
    let (end, magnitude) = scan_digits(bytes, first);
    if end >= bytes.len() {
        return Err(DecodeError { kind: DecodeErrorKind::UnexpectedEof, offset: bytes.len() });
    }
    if end == first {
        return Err(DecodeError { kind: DecodeErrorKind::InvalidInteger, offset: first });
    }
    if bytes[end] != END {
        return Err(DecodeError { kind: DecodeErrorKind::InvalidInteger, offset: end });
    }
    if bytes[first] == ZERO && (negative || end - first > 1) {
        return Err(DecodeError { kind: DecodeErrorKind::InvalidInteger, offset: first });
    }
    match magnitude {
        None => Err(DecodeError { kind: DecodeErrorKind::InvalidInteger, offset: first }),
        Some(m) => {
            if negative {
                if m > 0x8000_0000_0000_0000u64 {
                    Err(DecodeError { kind: DecodeErrorKind::InvalidInteger, offset: first })
                } else if m == 0x8000_0000_0000_0000u64 {
                    Ok((Value::Integer(i64::MIN), end + 1))
                } else {
                    Ok((Value::Integer(-(m as i64)), end + 1))
                }
            } else {
                if m > 0x7fff_ffff_ffff_ffffu64 {
                    Err(DecodeError { kind: DecodeErrorKind::InvalidInteger, offset: first })
                } else {
                    Ok((Value::Integer(m as i64), end + 1))
                }
            }
        },
    }
}

fn decode_bytes(bytes: &[u8], pos: usize) -> (result: Result<(Vec<u8>, usize), DecodeError>)
    requires
        pos < bytes.len(),
        is_digit(bytes[pos as int]),
    ensures
        match result {
            Ok((data, end)) => parse_bytes(bytes@, pos as int) == Outcome::Parsed(
                data@,
                end as int,
            ) && advances(bytes@, pos as int, end as int),
            Err(error) => parse_bytes(bytes@, pos as int) == Outcome::<Seq<u8>>::Failed(
                error.kind,
                error.offset as int,
            ) && error.offset <= bytes.len(),
        },
{
    let (end, length) = scan_digits(bytes, pos);
    proof {
        lemma_digits_end(bytes@, pos as int + 1);
    }
    if end >= bytes.len() {
        return Err(DecodeError { kind: DecodeErrorKind::UnexpectedEof, offset: bytes.len() });
    }
    if bytes[end] != COLON {
        return Err(DecodeError { kind: DecodeErrorKind::InvalidLength, offset: end });
    }
    if bytes[pos] == ZERO && end - pos > 1 {
        return Err(DecodeError { kind: DecodeErrorKind::InvalidLength, offset: pos });
    }
    match length {
        None => Err(DecodeError { kind: DecodeErrorKind::InvalidLength, offset: pos }),
        Some(n) => {
            let remaining: usize = bytes.len() - (end + 1);
            if n > remaining as u64 {
                Err(DecodeError { kind: DecodeErrorKind::UnexpectedEof, offset: bytes.len() })
            } else {
                let stop: usize = end + 1 + n as usize;
                let data = slice_to_vec(slice_subrange(bytes, end + 1, stop));
                Ok((data, stop))
            }
        },
    }
}

fn decode_items(bytes: &[u8], pos: usize, depth: usize) -> (result: Result<
    (Vec<Value>, usize),
    DecodeError,
>)
    requires
        pos <= bytes.len(),
    ensures
        match result {
            Ok((items, end)) => parse_items(bytes@, pos as int, depth as nat) == Outcome::Parsed(
                items_view(items@),
                end as int,
            ) && advances(bytes@, pos as int, end as int),
            Err(error) => parse_items(bytes@, pos as int, depth as nat) == Outcome::<
                Seq<Node>,
            >::Failed(error.kind, error.offset as int) && error.offset <= bytes.len(),
        },
    decreases depth, 1int,
{
    let mut items: Vec<Value> = Vec::new();
    let mut cur: usize = pos;
    proof {
        assert(items_view(items@) + Seq::<Node>::empty() =~= Seq::<Node>::empty());
        assert(items_view(items@) =~= Seq::<Node>::empty());
    }
    while cur < bytes.len() && bytes[cur] != END
        invariant
            pos <= cur <= bytes.len(),
            parse_items(bytes@, pos as int, depth as nat) == after_items(
                items_view(items@),
                parse_items(bytes@, cur as int, depth as nat),
            ),
        decreases bytes.len() - cur,
    {
        match decode_value(bytes, cur, depth) {
            Err(error) => {
                return Err(error);
            },
            Ok((item, next)) => {
                proof {
                    let done = items_view(items@);
                    let rest = parse_items(bytes@, next as int, depth as nat);
                    assert(items_view(items@.push(item)) =~= done.push(item@));
                    match rest {
                        Outcome::Parsed(tail, end) => {
                            assert(done + (seq![item@] + tail) =~= done.push(item@) + tail);
                        },
                        Outcome::Failed(_, _) => {},
                    }
                }
                items.push(item);
                cur = next;
            },
        }
    }
    if cur >= bytes.len() {
        Err(DecodeError { kind: DecodeErrorKind::UnterminatedContainer, offset: bytes.len() })
    } else {
        proof {
            assert(items_view(items@) + Seq::<Node>::empty() =~= items_view(items@));
        }
        Ok((items, cur + 1))
    }
}

fn decode_entries(bytes: &[u8], pos: usize, depth: usize) -> (result: Result<
    (Vec<(Vec<u8>, Value)>, usize),
    DecodeError,
>)
    requires
        pos <= bytes.len(),
    ensures
        match result {
            Ok((entries, end)) => parse_entries(bytes@, pos as int, depth as nat, None)
                == Outcome::Parsed(entries_view(entries@), end as int) && advances(
                bytes@,
                pos as int,
                end as int,
            ),
            Err(error) => parse_entries(bytes@, pos as int, depth as nat, None) == Outcome::<
                Seq<(Seq<u8>, Node)>,
            >::Failed(error.kind, error.offset as int) && error.offset <= bytes.len(),
        },
    decreases depth, 1int,
{
    let mut entries: Vec<(Vec<u8>, Value)> = Vec::new();
    let mut cur: usize = pos;
    proof {
        assert(entries_view(entries@) =~= Seq::<(Seq<u8>, Node)>::empty());
    }
    while cur < bytes.len() && bytes[cur] != END
        invariant
            pos <= cur <= bytes.len(),
            parse_entries(bytes@, pos as int, depth as nat, None) == after_entries(
                entries_view(entries@),
                parse_entries(
                    bytes@,
                    cur as int,
                    depth as nat,
                    floor_of(entries_view(entries@)),
                ),
            ),
        decreases bytes.len() - cur,
    {
        if !(ZERO <= bytes[cur] && bytes[cur] <= NINE) {
            return Err(DecodeError { kind: DecodeErrorKind::NonStringKey, offset: cur });
        }
        let (key, key_end) = match decode_bytes(bytes, cur) {
            Err(error) => {
                return Err(error);
            },
            Ok(found) => found,
        };
        let count = entries.len();
        if count > 0 && !bytes_precede(entries[count - 1].0.as_slice(), key.as_slice()) {
            return Err(DecodeError { kind: DecodeErrorKind::UnsortedKeys, offset: cur });
        }
        match decode_value(bytes, key_end, depth) {
            Err(error) => {
                return Err(error);
            },
            Ok((value, next)) => {
                proof {
                    let done = entries_view(entries@);
                    let entry = (key@, value@);
                    let rest = parse_entries(bytes@, next as int, depth as nat, Some(key@));
                    assert(entries_view(entries@.push((key, value))) =~= done.push(entry));
                    match rest {
                        Outcome::Parsed(tail, end) => {
                            assert(done + (seq![entry] + tail) =~= done.push(entry) + tail);
                        },
                        Outcome::Failed(_, _) => {},
                    }
                }
                entries.push((key, value));
                cur = next;
            },
        }
    }
    if cur >= bytes.len() {
        Err(DecodeError { kind: DecodeErrorKind::UnterminatedContainer, offset: bytes.len() })
    } else {
        proof {
            assert(entries_view(entries@) + Seq::<(Seq<u8>, Node)>::empty() =~= entries_view(
                entries@,
            ));
        }
        Ok((entries, cur + 1))
    }
}

fn decode_value(bytes: &[u8], pos: usize, depth: usize) -> (result: Result<
    (Value, usize),
    DecodeError,
>)
    requires
        pos <= bytes.len(),
    ensures
        agrees(result, parse_value(bytes@, pos as int, depth as nat)),
        result is Ok ==> advances(bytes@, pos as int, result->Ok_0.1 as int),
        result is Err ==> result->Err_0.offset <= bytes.len(),
    decreases depth, 0int,
{
    if pos >= bytes.len() {
        return Err(DecodeError { kind: DecodeErrorKind::UnexpectedEof, offset: bytes.len() });
    }
    let lead = bytes[pos];
    if lead == INTEGER_START {
        decode_integer(bytes, pos)
    } else if ZERO <= lead && lead <= NINE {
        match decode_bytes(bytes, pos) {
            Ok((data, end)) => Ok((Value::ByteString(data), end)),
            Err(error) => Err(error),
        }
    } else if lead == LIST_START {
        if depth == 0 {
            return Err(DecodeError { kind: DecodeErrorKind::DepthExceeded, offset: pos });
        }
        match decode_items(bytes, pos + 1, depth - 1) {
            Ok((items, end)) => {
                proof {
                    lemma_list_view(items);
                }
                Ok((Value::List(items), end))
            },
            Err(error) => Err(error),
        }
    } else if lead == DICTIONARY_START {
        if depth == 0 {
            return Err(DecodeError { kind: DecodeErrorKind::DepthExceeded, offset: pos });
        }
        match decode_entries(bytes, pos + 1, depth - 1) {
            Ok((entries, end)) => {
                proof {
                    lemma_dictionary_view(entries);
                }
                Ok((Value::Dictionary(entries), end))
            },
            Err(error) => Err(error),
        }
    } else {
        Err(DecodeError { kind: DecodeErrorKind::InvalidLength, offset: pos })
    }
}

/// Reads the one value at the front of `bytes`, with at most `max_depth`
/// containers inside one another, and says how many bytes it takes.
pub fn decode_with_limit(bytes: &[u8], max_depth: usize) -> (result: Result<
    (Value, usize),
    DecodeError,
>)
    ensures
        agrees(result, parse_value(bytes@, 0, max_depth as nat)),
        match result {
            Ok((value, end)) => {
                &&& 0 < end <= bytes.len()
                &&& encoding(value@) == bytes@.subrange(0, end as int)
                &&& value@.well_formed()
                &&& value@.nests_within(max_depth as nat)
            },
            Err(error) => error.offset <= bytes.len(),
        },
        forall|node: Node|
            #![trigger encoding(node)]
            node.well_formed() && node.nests_within(max_depth as nat) && holds_at(
                bytes@,
                0,
                encoding(node),
            ) ==> result is Ok && result->Ok_0.0@ == node && result->Ok_0.1 == encoding(node).len(),
{
    proof {
        law_encode_inverts_decode(bytes@, max_depth as nat);
        assert(bytes@.len() == bytes.len() && bytes.len() <= usize::MAX <= u64::MAX);
        assert forall|node: Node|
            #![trigger encoding(node)]
            node.well_formed() && node.nests_within(max_depth as nat) && holds_at(
                bytes@,
                0,
                encoding(node),
            ) implies parse_value(bytes@, 0, max_depth as nat) == Outcome::Parsed(
            node,
            encoding(node).len() as int,
        ) by {
            lemma_value_complete(node, bytes@, 0, max_depth as nat);
        }
    }
    decode_value(bytes, 0, max_depth)
}

/// Reads the one value at the front of `bytes` and says how many bytes it
/// takes. Containers may be nested `MAX_DEPTH` deep.
pub fn decode(bytes: &[u8]) -> (result: Result<(Value, usize), DecodeError>)
    ensures
        agrees(result, parse_value(bytes@, 0, MAX_DEPTH as nat)),
        match result {
            Ok((value, end)) => {
                &&& 0 < end <= bytes.len()
                &&& encoding(value@) == bytes@.subrange(0, end as int)
                &&& value@.well_formed()
                &&& value@.nests_within(MAX_DEPTH as nat)
            },
            Err(error) => error.offset <= bytes.len(),
        },
        forall|node: Node|
            #![trigger encoding(node)]
            node.well_formed() && node.nests_within(MAX_DEPTH as nat) && holds_at(
                bytes@,
                0,
                encoding(node),
            ) ==> result is Ok && result->Ok_0.0@ == node && result->Ok_0.1 == encoding(node).len(),
{
    decode_with_limit(bytes, MAX_DEPTH)
}

} // verus!
