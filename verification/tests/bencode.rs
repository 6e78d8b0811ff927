use quic_torrent_client_server::{
    bencode_dict, bencode_int, bencode_string, decode_bencode, BencodeDict, BencodeError,
    BencodeValue,
};

#[test]
fn encodes_byte_string_with_length_prefix() {
    assert_eq!(bencode_string(b"spam"), b"4:spam".to_vec());
    assert_eq!(bencode_string(b""), b"0:".to_vec());
    assert_eq!(bencode_string(b"0123456789"), b"10:0123456789".to_vec());
}

#[test]
fn encodes_integers() {
    assert_eq!(bencode_int(0), b"i0e".to_vec());
    assert_eq!(bencode_int(42), b"i42e".to_vec());
    assert_eq!(bencode_int(-7), b"i-7e".to_vec());
    assert_eq!(bencode_int(i64::MAX), b"i9223372036854775807e".to_vec());
    assert_eq!(bencode_int(i64::MIN), b"i-9223372036854775808e".to_vec());
}

#[test]
fn length_dictionary_round_trips() {
    let mut d = BencodeDict::new();
    d.insert(b"length".to_vec(), BencodeValue::Int(12345));
    let value = BencodeValue::Dict(d);
    let bytes = value.encode();
    assert_eq!(bytes, b"d6:lengthi12345ee".to_vec());
    let (back, used) = decode_bencode(&bytes).unwrap();
    assert_eq!(back, value);
    assert_eq!(used, bytes.len());
}

#[test]
fn dictionary_keys_are_written_in_order_whatever_the_insert_order() {
    let mut a = BencodeDict::new();
    a.insert(b"zeta".to_vec(), BencodeValue::Int(1));
    a.insert(b"alpha".to_vec(), BencodeValue::String(b"x".to_vec()));
    a.insert(b"mid".to_vec(), BencodeValue::Int(-3));
    let mut b = BencodeDict::new();
    b.insert(b"mid".to_vec(), BencodeValue::Int(-3));
    b.insert(b"zeta".to_vec(), BencodeValue::Int(1));
    b.insert(b"alpha".to_vec(), BencodeValue::String(b"x".to_vec()));
    assert_eq!(bencode_dict(&a), b"d5:alpha1:x3:midi-3e4:zetai1ee".to_vec());
    assert_eq!(bencode_dict(&a), bencode_dict(&b));
    assert_eq!(a, b);
}

#[test]
fn insert_replaces_an_entry_with_the_same_key() {
    let mut d = BencodeDict::new();
    d.insert(b"k".to_vec(), BencodeValue::Int(1));
    d.insert(b"k".to_vec(), BencodeValue::Int(2));
    assert_eq!(d.len(), 1);
    assert_eq!(d.get(b"k"), Some(&BencodeValue::Int(2)));
    assert_eq!(d.get(b"other"), None);
    assert!(d.contains_key(b"k"));
    assert!(!d.contains_key(b""));
}

#[test]
fn a_prefix_sorts_before_a_longer_key() {
    let mut d = BencodeDict::new();
    d.insert(b"ab".to_vec(), BencodeValue::Int(2));
    d.insert(b"a".to_vec(), BencodeValue::Int(1));
    d.insert(b"".to_vec(), BencodeValue::Int(0));
    assert_eq!(d.key_at(0), &b"".to_vec());
    assert_eq!(d.key_at(1), &b"a".to_vec());
    assert_eq!(d.key_at(2), &b"ab".to_vec());
    assert_eq!(d.value_at(2), &BencodeValue::Int(2));
    assert!(!d.is_empty());
}

#[test]
fn nested_values_round_trip() {
    let mut inner = BencodeDict::new();
    inner.insert(b"name".to_vec(), BencodeValue::String(b"file.txt".to_vec()));
    inner.insert(b"piece length".to_vec(), BencodeValue::Int(16384));
    let mut outer = BencodeDict::new();
    outer.insert(b"info".to_vec(), BencodeValue::Dict(inner));
    outer.insert(b"announce".to_vec(), BencodeValue::String(b"quic://t".to_vec()));
    let value = BencodeValue::Dict(outer);
    let bytes = value.encode();
    let (back, used) = decode_bencode(&bytes).unwrap();
    assert_eq!(back, value);
    assert_eq!(used, bytes.len());
}

#[test]
fn decoding_stops_behind_the_first_value() {
    let (v, used) = decode_bencode(b"i5e4:spam").unwrap();
    assert_eq!(v, BencodeValue::Int(5));
    assert_eq!(used, 3);
    let (v, used) = decode_bencode(b"4:spamXYZ").unwrap();
    assert_eq!(v, BencodeValue::String(b"spam".to_vec()));
    assert_eq!(used, 6);
}

#[test]
fn decoding_accepts_signs_and_leading_zeros() {
    assert_eq!(decode_bencode(b"i+5e").unwrap().0, BencodeValue::Int(5));
    assert_eq!(decode_bencode(b"i-0e").unwrap().0, BencodeValue::Int(0));
    assert_eq!(decode_bencode(b"i007e").unwrap().0, BencodeValue::Int(7));
    assert_eq!(decode_bencode(b"03:abc").unwrap(), (BencodeValue::String(b"abc".to_vec()), 6));
    assert_eq!(
        decode_bencode(b"i-9223372036854775808e").unwrap().0,
        BencodeValue::Int(i64::MIN)
    );
}

#[test]
fn decoding_a_dictionary_keeps_the_later_of_two_equal_keys_and_orders_keys() {
    let (v, used) = decode_bencode(b"d1:bi1e1:ai2e1:bi3ee").unwrap();
    assert_eq!(used, 20);
    let mut d = BencodeDict::new();
    d.insert(b"a".to_vec(), BencodeValue::Int(2));
    d.insert(b"b".to_vec(), BencodeValue::Int(3));
    assert_eq!(v, BencodeValue::Dict(d));
    assert_eq!(v.encode(), b"d1:ai2e1:bi3ee".to_vec());
}

#[test]
fn malformed_input_is_refused() {
    let bad: Vec<&[u8]> = vec![
        b"",
        b"i42",
        b"ie",
        b"i-e",
        b"i4x2e",
        b"i9223372036854775808e",
        b"4spam",
        b"4x:spam",
        b"5:spam",
        b"99999999999999999999999999:a",
        b"d3:key",
        b"d3:keyi1e",
        b"di1ei2ee",
        b"dd1:ai1ee1:be",
        b"d1:a",
        b"x",
        b"l4:spame",
        b":",
    ];
    for input in bad {
        assert_eq!(decode_bencode(input), Err(BencodeError::MalformedEncoding));
    }
}
