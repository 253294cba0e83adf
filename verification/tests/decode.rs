use bencode_metainfo::decode::{decode, decode_with_limit, MAX_DEPTH};
use bencode_metainfo::grammar::{DecodeError, DecodeErrorKind};
use bencode_metainfo::value::Value;

fn fails(input: &[u8], kind: DecodeErrorKind, offset: usize) {
    assert_eq!(decode(input), Err(DecodeError { kind, offset }));
}

fn bytes(text: &str) -> Value {
    Value::ByteString(text.as_bytes().to_vec())
}

#[test]
fn byte_string_is_read_with_its_length() {
    assert_eq!(decode(b"4:spam"), Ok((bytes("spam"), 6)));
}

#[test]
fn empty_byte_string() {
    assert_eq!(decode(b"0:"), Ok((bytes(""), 2)));
}

#[test]
fn byte_string_need_not_be_text() {
    let input = [b'3', b':', 0xff, 0x00, 0x80];
    assert_eq!(decode(&input), Ok((Value::ByteString(vec![0xff, 0x00, 0x80]), 5)));
}

#[test]
fn byte_string_may_hold_the_bytes_of_the_grammar() {
    assert_eq!(decode(b"5:i1e:e"), Ok((bytes("i1e:e"), 7)));
}

#[test]
fn scrape_dictionary_keeps_its_two_entries_in_key_order() {
    let input = b"d8:completei1e10:incompletei2ee";
    let expected = Value::Dictionary(vec![
        (b"complete".to_vec(), Value::Integer(1)),
        (b"incomplete".to_vec(), Value::Integer(2)),
    ]);
    assert_eq!(decode(input), Ok((expected, input.len())));
}

#[test]
fn integers_in_canonical_form() {
    assert_eq!(decode(b"i0e"), Ok((Value::Integer(0), 3)));
    assert_eq!(decode(b"i42e"), Ok((Value::Integer(42), 4)));
    assert_eq!(decode(b"i-42e"), Ok((Value::Integer(-42), 5)));
    assert_eq!(decode(b"i10e"), Ok((Value::Integer(10), 4)));
}

#[test]
fn integers_at_the_ends_of_the_range() {
    assert_eq!(
        decode(b"i9223372036854775807e"),
        Ok((Value::Integer(i64::MAX), 21))
    );
    assert_eq!(
        decode(b"i-9223372036854775808e"),
        Ok((Value::Integer(i64::MIN), 22))
    );
}

#[test]
fn integers_outside_the_range_are_invalid() {
    fails(b"i9223372036854775808e", DecodeErrorKind::InvalidInteger, 1);
    fails(b"i-9223372036854775809e", DecodeErrorKind::InvalidInteger, 2);
    fails(b"i18446744073709551616e", DecodeErrorKind::InvalidInteger, 1);
    fails(b"i99999999999999999999999999e", DecodeErrorKind::InvalidInteger, 1);
}

#[test]
fn negative_zero_is_invalid() {
    fails(b"i-0e", DecodeErrorKind::InvalidInteger, 2);
}

#[test]
fn leading_zeros_are_invalid() {
    fails(b"i01e", DecodeErrorKind::InvalidInteger, 1);
    fails(b"i00e", DecodeErrorKind::InvalidInteger, 1);
    fails(b"i-01e", DecodeErrorKind::InvalidInteger, 2);
}

#[test]
fn integer_without_digits_is_invalid() {
    fails(b"ie", DecodeErrorKind::InvalidInteger, 1);
    fails(b"i-e", DecodeErrorKind::InvalidInteger, 2);
    fails(b"i+1e", DecodeErrorKind::InvalidInteger, 1);
    fails(b"i--1e", DecodeErrorKind::InvalidInteger, 2);
}

#[test]
fn integer_with_a_stray_byte_is_invalid() {
    fails(b"i1x", DecodeErrorKind::InvalidInteger, 2);
    fails(b"i12 e", DecodeErrorKind::InvalidInteger, 3);
    fails(b"i1-e", DecodeErrorKind::InvalidInteger, 2);
}

#[test]
fn integer_cut_short_is_an_unexpected_end() {
    fails(b"i", DecodeErrorKind::UnexpectedEof, 1);
    fails(b"i-", DecodeErrorKind::UnexpectedEof, 2);
    fails(b"i12", DecodeErrorKind::UnexpectedEof, 3);
}

#[test]
fn empty_input_is_an_unexpected_end() {
    fails(b"", DecodeErrorKind::UnexpectedEof, 0);
}

#[test]
fn length_beyond_the_input_is_an_unexpected_end() {
    fails(b"5:spam", DecodeErrorKind::UnexpectedEof, 6);
    fails(b"1:", DecodeErrorKind::UnexpectedEof, 2);
    fails(b"18446744073709551615:abc", DecodeErrorKind::UnexpectedEof, 24);
}

#[test]
fn length_cut_short_is_an_unexpected_end() {
    fails(b"4", DecodeErrorKind::UnexpectedEof, 1);
    fails(b"12", DecodeErrorKind::UnexpectedEof, 2);
}

#[test]
fn length_with_a_stray_byte_is_invalid() {
    fails(b"4spam", DecodeErrorKind::InvalidLength, 1);
    fails(b"4-:spam", DecodeErrorKind::InvalidLength, 1);
    fails(b"1e", DecodeErrorKind::InvalidLength, 1);
}

#[test]
fn length_with_a_leading_zero_is_invalid() {
    fails(b"04:spam", DecodeErrorKind::InvalidLength, 0);
    fails(b"00:", DecodeErrorKind::InvalidLength, 0);
}

#[test]
fn length_above_64_bits_is_invalid() {
    fails(b"18446744073709551616:abc", DecodeErrorKind::InvalidLength, 0);
    fails(b"99999999999999999999999:", DecodeErrorKind::InvalidLength, 0);
}

#[test]
fn byte_that_starts_no_value_is_an_invalid_length() {
    fails(b"x", DecodeErrorKind::InvalidLength, 0);
    fails(b"-4:spam", DecodeErrorKind::InvalidLength, 0);
    fails(b"e", DecodeErrorKind::InvalidLength, 0);
    fails(b":", DecodeErrorKind::InvalidLength, 0);
}

#[test]
fn lists_keep_their_order() {
    let expected = Value::List(vec![bytes("spam"), Value::Integer(42), bytes("eggs")]);
    assert_eq!(decode(b"l4:spami42e4:eggse"), Ok((expected, 18)));
}

#[test]
fn empty_containers() {
    assert_eq!(decode(b"le"), Ok((Value::List(vec![]), 2)));
    assert_eq!(decode(b"de"), Ok((Value::Dictionary(vec![]), 2)));
}

#[test]
fn nested_containers() {
    let expected = Value::Dictionary(vec![
        (b"a".to_vec(), Value::List(vec![Value::Integer(1), Value::List(vec![])])),
        (
            b"b".to_vec(),
            Value::Dictionary(vec![(b"c".to_vec(), bytes("d"))]),
        ),
    ]);
    assert_eq!(decode(b"d1:ali1elee1:bd1:c1:dee"), Ok((expected, 23)));
}

#[test]
fn only_the_first_value_is_read() {
    assert_eq!(decode(b"i1ei2e"), Ok((Value::Integer(1), 3)));
    assert_eq!(decode(b"4:spam and more"), Ok((bytes("spam"), 6)));
    assert_eq!(decode(b"lee"), Ok((Value::List(vec![]), 2)));
}

#[test]
fn list_without_its_end_is_unterminated() {
    fails(b"l", DecodeErrorKind::UnterminatedContainer, 1);
    fails(b"li1e", DecodeErrorKind::UnterminatedContainer, 4);
    fails(b"lli1ee", DecodeErrorKind::UnterminatedContainer, 6);
}

#[test]
fn dictionary_without_its_end_is_unterminated() {
    fails(b"d", DecodeErrorKind::UnterminatedContainer, 1);
    fails(b"d1:ai1e", DecodeErrorKind::UnterminatedContainer, 7);
}

#[test]
fn dictionary_cut_short_behind_a_key_is_an_unexpected_end() {
    fails(b"d1:a", DecodeErrorKind::UnexpectedEof, 4);
}

#[test]
fn item_cut_short_inside_a_list_is_an_unexpected_end() {
    fails(b"l4:sp", DecodeErrorKind::UnexpectedEof, 5);
    fails(b"li4", DecodeErrorKind::UnexpectedEof, 3);
}

#[test]
fn fault_inside_a_container_is_found_at_its_own_offset() {
    fails(b"li1ei-0ee", DecodeErrorKind::InvalidInteger, 6);
    fails(b"d1:al04:spamee", DecodeErrorKind::InvalidLength, 5);
}

#[test]
fn dictionary_key_must_be_a_byte_string() {
    fails(b"di1ei2ee", DecodeErrorKind::NonStringKey, 1);
    fails(b"dlei2ee", DecodeErrorKind::NonStringKey, 1);
    fails(b"d1:ai1edee", DecodeErrorKind::NonStringKey, 7);
    fails(b"dx", DecodeErrorKind::NonStringKey, 1);
}

#[test]
fn dictionary_keys_must_increase() {
    fails(b"d1:bi1e1:ai2ee", DecodeErrorKind::UnsortedKeys, 7);
    fails(b"d2:abi1e1:ai2ee", DecodeErrorKind::UnsortedKeys, 8);
}

#[test]
fn dictionary_key_must_not_repeat() {
    fails(b"d1:ai1e1:ai2ee", DecodeErrorKind::UnsortedKeys, 7);
}

#[test]
fn dictionary_keys_are_compared_as_bytes() {
    let input = [
        b'd', b'1', b':', b'Z', b'i', b'1', b'e', b'1', b':', b'a', b'i', b'2', b'e', b'1',
        b':', 0xff, b'i', b'3', b'e', b'e',
    ];
    let expected = Value::Dictionary(vec![
        (vec![b'Z'], Value::Integer(1)),
        (vec![b'a'], Value::Integer(2)),
        (vec![0xff], Value::Integer(3)),
    ]);
    assert_eq!(decode(&input), Ok((expected, 20)));
}

#[test]
fn a_prefix_comes_before_the_longer_key() {
    let expected = Value::Dictionary(vec![
        (b"".to_vec(), Value::Integer(0)),
        (b"a".to_vec(), Value::Integer(1)),
        (b"ab".to_vec(), Value::Integer(2)),
    ]);
    assert_eq!(decode(b"d0:i0e1:ai1e2:abi2ee"), Ok((expected, 20)));
}

#[test]
fn nesting_is_counted_in_containers() {
    assert_eq!(decode_with_limit(b"i1e", 0), Ok((Value::Integer(1), 3)));
    assert_eq!(decode_with_limit(b"1:a", 0), Ok((bytes("a"), 3)));
    assert_eq!(
        decode_with_limit(b"le", 0),
        Err(DecodeError { kind: DecodeErrorKind::DepthExceeded, offset: 0 })
    );
    assert_eq!(decode_with_limit(b"le", 1), Ok((Value::List(vec![]), 2)));
    assert_eq!(
        decode_with_limit(b"llee", 1),
        Err(DecodeError { kind: DecodeErrorKind::DepthExceeded, offset: 1 })
    );
    assert_eq!(
        decode_with_limit(b"llee", 2),
        Ok((Value::List(vec![Value::List(vec![])]), 4))
    );
    assert_eq!(
        decode_with_limit(b"d1:adee", 1),
        Err(DecodeError { kind: DecodeErrorKind::DepthExceeded, offset: 4 })
    );
}

#[test]
fn default_limit_allows_its_depth_and_no_more() {
    let mut deep = vec![b'l'; MAX_DEPTH];
    deep.extend(vec![b'e'; MAX_DEPTH]);
    let (value, consumed) = decode(&deep).expect("nesting at the limit");
    assert_eq!(consumed, 2 * MAX_DEPTH);
    let mut depth = 0;
    let mut current = &value;
    while let Value::List(items) = current {
        depth += 1;
        match items.first() {
            Some(inner) => current = inner,
            None => break,
        }
    }
    assert_eq!(depth, MAX_DEPTH);

    let mut deeper = vec![b'l'; MAX_DEPTH + 1];
    deeper.extend(vec![b'e'; MAX_DEPTH + 1]);
    fails(&deeper, DecodeErrorKind::DepthExceeded, MAX_DEPTH);
}

#[test]
fn pathological_nesting_is_refused_not_followed() {
    let input = vec![b'l'; 1_000_000];
    fails(&input, DecodeErrorKind::DepthExceeded, MAX_DEPTH);
    let input = vec![b'd'; 10];
    fails(&input, DecodeErrorKind::NonStringKey, 1);
}

#[test]
fn every_fault_lies_within_the_input() {
    let inputs: Vec<&[u8]> = vec![
        b"", b"i", b"i-", b"ie", b"i1", b"5:ab", b"l", b"d", b"d1:a", b"li1e", b"x", b"d1:bi1e1:ai1ee",
        b"di1ee", b"99999999999999999999999:",
    ];
    for input in inputs {
        let error = decode(input).expect_err("a fault");
        assert!(error.offset <= input.len());
    }
}
