//! The wire format: the bytes that stand for a value.

use crate::digits::{decimal_digits, push_decimal};
use crate::value::{entries_view, items_view, lemma_dictionary_view, lemma_list_view, Node, Value};
use vstd::prelude::*;

verus! {

/// ASCII `i`, which opens an integer.
pub const INTEGER_START: u8 = 105;

/// ASCII `l`, which opens a list.
pub const LIST_START: u8 = 108;

/// ASCII `d`, which opens a dictionary.
pub const DICTIONARY_START: u8 = 100;

/// ASCII `e`, which closes an integer, a list or a dictionary.
pub const END: u8 = 101;

/// ASCII `:`, which separates a byte string's length from its bytes.
pub const COLON: u8 = 58;

/// ASCII `-`, the sign of a negative integer.
pub const MINUS: u8 = 45;

/// An integer is written as `i`, its numeral with a `-` in front if it is
/// negative, and `e`.
pub open spec fn integer_encoding(n: i64) -> Seq<u8> {
    if n < 0 {
        seq![INTEGER_START, MINUS] + decimal_digits((-n) as nat) + seq![END]
    } else {
        seq![INTEGER_START] + decimal_digits(n as nat) + seq![END]
    }
}

/// A byte string is written as the numeral of its length, `:`, and its bytes.
pub open spec fn bytes_encoding(bytes: Seq<u8>) -> Seq<u8> {
    decimal_digits(bytes.len()) + seq![COLON] + bytes
}

/// The bytes that stand for `node`: a list is `l`, its items and `e`; a
/// dictionary is `d`, its entries in the order in which they are kept, each as
/// the key and then the value, and `e`.
pub open spec fn encoding(node: Node) -> Seq<u8>
    decreases node, 0int,
{
    match node {
        Node::Integer(n) => integer_encoding(n),
        Node::Bytes(bytes) => bytes_encoding(bytes),
        Node::List(items) => seq![LIST_START] + items_encoding(items, 0) + seq![END],
        Node::Dictionary(entries) => seq![DICTIONARY_START] + entries_encoding(entries, 0)
            + seq![END],
    }
}

/// The encodings of the items from index `from` on, one after the other.
pub open spec fn items_encoding(items: Seq<Node>, from: int) -> Seq<u8>
    decreases items, items.len() - from,
{
    if 0 <= from < items.len() {
        encoding(items[from]) + items_encoding(items, from + 1)
    } else {
        Seq::empty()
    }
}

/// The encodings of the entries from index `from` on, one after the other.
pub open spec fn entries_encoding(entries: Seq<(Seq<u8>, Node)>, from: int) -> Seq<u8>
    decreases entries, entries.len() - from,
{
    if 0 <= from < entries.len() {
        bytes_encoding(entries[from].0) + encoding(entries[from].1) + entries_encoding(
            entries,
            from + 1,
        )
    } else {
        Seq::empty()
    }
}

/// Appends the encoding of the integer `n` to `out`.
fn push_integer(out: &mut Vec<u8>, n: i64)
    ensures
        final(out)@ == old(out)@ + integer_encoding(n),
{
    out.push(INTEGER_START);
    if n < 0 {
        out.push(MINUS);
        let magnitude: u64 = if n == i64::MIN {
            0x8000_0000_0000_0000u64
        } else {
            (-n) as u64
        };
        push_decimal(out, magnitude);
    } else {
        push_decimal(out, n as u64);
    }
    out.push(END);
    proof {
        assert(final(out)@ =~= old(out)@ + integer_encoding(n));
    }
}

/// Appends the encoding of the byte string `data` to `out`.
fn push_bytes(out: &mut Vec<u8>, data: &[u8])
    ensures
        final(out)@ == old(out)@ + bytes_encoding(data@),
{
    push_decimal(out, data.len() as u64);
    out.push(COLON);
    out.extend_from_slice(data);
    proof {
        assert(final(out)@ =~= old(out)@ + bytes_encoding(data@));
    }
}

/// Appends the encoding of `value` to `out`.
fn encode_into(out: &mut Vec<u8>, value: &Value)
    ensures
        final(out)@ == old(out)@ + encoding(value@),
    decreases value,
{
    match value {
        Value::Integer(n) => push_integer(out, *n),
        Value::ByteString(data) => push_bytes(out, data.as_slice()),
        Value::List(items) => {
            let ghost nodes = items_view(items@);
            let ghost whole = old(out)@ + encoding(value@);
            proof {
                lemma_list_view(*items);
            }
            out.push(LIST_START);
            let mut i: usize = 0;
            proof {
                assert(out@ + items_encoding(nodes, 0) + seq![END] =~= whole);
            }
            while i < items.len()
                invariant
                    i <= items.len(),
                    nodes == items_view(items@),
                    out@ + items_encoding(nodes, i as int) + seq![END] == whole,
                    value == Value::List(*items),
                decreases items.len() - i,
            {
                let ghost before = out@;
                proof {
                    vstd::std_specs::vec::axiom_vec_index_decreases(*items, i as int);
                    assert(value->List_0 == *items);
                }
                encode_into(out, &items[i]);
                proof {
                    assert(nodes[i as int] == items@[i as int]@);
                    assert(out@ + items_encoding(nodes, i + 1) + seq![END] =~= before
                        + items_encoding(nodes, i as int) + seq![END]);
                }
                i += 1;
            }
            out.push(END);
            proof {
                assert(final(out)@ =~= whole);
            }
        },
        Value::Dictionary(entries) => {
            let ghost nodes = entries_view(entries@);
            let ghost whole = old(out)@ + encoding(value@);
            proof {
                lemma_dictionary_view(*entries);
            }
            out.push(DICTIONARY_START);
            let mut i: usize = 0;
            proof {
                assert(out@ + entries_encoding(nodes, 0) + seq![END] =~= whole);
            }
            while i < entries.len()
                invariant
                    i <= entries.len(),
                    nodes == entries_view(entries@),
                    out@ + entries_encoding(nodes, i as int) + seq![END] == whole,
                    value == Value::Dictionary(*entries),
                decreases entries.len() - i,
            {
                let ghost before = out@;
                push_bytes(out, entries[i].0.as_slice());
                proof {
                    vstd::std_specs::vec::axiom_vec_index_decreases(*entries, i as int);
                    assert(value->Dictionary_0 == *entries);
                }
                encode_into(out, &entries[i].1);
                proof {
                    assert(nodes[i as int] == (entries@[i as int].0@, entries@[i as int].1@));
                    assert(out@ + entries_encoding(nodes, i + 1) + seq![END] =~= before
                        + entries_encoding(nodes, i as int) + seq![END]);
                }
                i += 1;
            }
            out.push(END);
            proof {
                assert(final(out)@ =~= whole);
            }
        },
    }
}

/// Writes `value` in the wire format. Integers and lengths are written
/// without redundant digits, and dictionary entries in the order in which
/// the value keeps them, which for a well-formed value is the order of the
/// keys.
pub fn encode(value: &Value) -> (out: Vec<u8>)
    ensures
        out@ == encoding(value@),
{
    let mut out: Vec<u8> = Vec::new();
    encode_into(&mut out, value);
    proof {
        assert(Seq::<u8>::empty() + encoding(value@) =~= encoding(value@));
    }
    out
}

} // verus!
