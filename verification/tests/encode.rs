use bencode_metainfo::encode::encode;
use bencode_metainfo::value::Value;

#[test]
fn integers_are_written_without_redundant_digits() {
    assert_eq!(encode(&Value::Integer(0)), b"i0e".to_vec());
    assert_eq!(encode(&Value::Integer(7)), b"i7e".to_vec());
    assert_eq!(encode(&Value::Integer(10)), b"i10e".to_vec());
    assert_eq!(encode(&Value::Integer(-1)), b"i-1e".to_vec());
    assert_eq!(encode(&Value::Integer(-42)), b"i-42e".to_vec());
    assert_eq!(encode(&Value::Integer(1234567890)), b"i1234567890e".to_vec());
}

#[test]
fn integers_at_the_ends_of_the_range_are_written_in_full() {
    assert_eq!(
        encode(&Value::Integer(i64::MAX)),
        b"i9223372036854775807e".to_vec()
    );
    assert_eq!(
        encode(&Value::Integer(i64::MIN)),
        b"i-9223372036854775808e".to_vec()
    );
}

#[test]
fn byte_strings_are_written_with_their_length() {
    assert_eq!(encode(&Value::ByteString(b"spam".to_vec())), b"4:spam".to_vec());
    assert_eq!(encode(&Value::ByteString(vec![])), b"0:".to_vec());
    assert_eq!(
        encode(&Value::ByteString(b"0123456789".to_vec())),
        b"10:0123456789".to_vec()
    );
    assert_eq!(
        encode(&Value::ByteString(vec![0xff, 0x00])),
        vec![b'2', b':', 0xff, 0x00]
    );
}

#[test]
fn long_byte_string_has_a_length_of_several_digits() {
    let data = vec![b'x'; 1234];
    let mut expected = b"1234:".to_vec();
    expected.extend(&data);
    assert_eq!(encode(&Value::ByteString(data)), expected);
}

#[test]
fn lists_are_written_in_order() {
    let list = Value::List(vec![
        Value::ByteString(b"spam".to_vec()),
        Value::Integer(42),
        Value::List(vec![]),
    ]);
    assert_eq!(encode(&list), b"l4:spami42elee".to_vec());
}

#[test]
fn dictionaries_are_written_key_by_key() {
    let dictionary = Value::Dictionary(vec![
        (b"complete".to_vec(), Value::Integer(1)),
        (b"incomplete".to_vec(), Value::Integer(2)),
    ]);
    assert_eq!(
        encode(&dictionary),
        b"d8:completei1e10:incompletei2ee".to_vec()
    );
    assert_eq!(encode(&Value::Dictionary(vec![])), b"de".to_vec());
}

#[test]
fn nested_values_are_written_inside_out() {
    let value = Value::Dictionary(vec![
        (
            b"a".to_vec(),
            Value::List(vec![Value::Integer(1), Value::List(vec![])]),
        ),
        (
            b"b".to_vec(),
            Value::Dictionary(vec![(b"c".to_vec(), Value::ByteString(b"d".to_vec()))]),
        ),
    ]);
    assert_eq!(encode(&value), b"d1:ali1elee1:bd1:c1:dee".to_vec());
}
