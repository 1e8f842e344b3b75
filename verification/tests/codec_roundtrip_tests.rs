use btkit::bencode::encode_bencode;
use btkit::bencode::parse_bencode;
use btkit::bencode::Bencode;

#[test]
fn encode_string_and_integer() {
    assert_eq!(encode_bencode(&Bencode::new_str("spam")), b"4:spam".to_vec());
    assert_eq!(encode_bencode(&Bencode::Int(-42)), b"i-42e".to_vec());
    assert_eq!(encode_bencode(&Bencode::Int(0)), b"i0e".to_vec());
}

#[test]
fn encode_sorts_dictionary_keys() {
    let d = Bencode::Dict(vec![
        (b"zz".to_vec(), Bencode::Int(1)),
        (b"aa".to_vec(), Bencode::Int(2)),
    ]);
    assert_eq!(encode_bencode(&d), b"d2:aai2e2:zzi1ee".to_vec());
}

#[test]
fn encode_is_insensitive_to_insertion_order() {
    let d1 = Bencode::Dict(vec![
        (b"one".to_vec(), Bencode::Int(1)),
        (b"two".to_vec(), Bencode::Int(2)),
        (b"three".to_vec(), Bencode::Int(3)),
    ]);
    let d2 = Bencode::Dict(vec![
        (b"three".to_vec(), Bencode::Int(3)),
        (b"one".to_vec(), Bencode::Int(1)),
        (b"two".to_vec(), Bencode::Int(2)),
    ]);
    assert_eq!(encode_bencode(&d1), encode_bencode(&d2));
}

#[test]
fn encode_sorts_nested_dictionaries() {
    let d = Bencode::Dict(vec![(
        b"outer".to_vec(),
        Bencode::Dict(vec![
            (b"b".to_vec(), Bencode::Int(2)),
            (b"a".to_vec(), Bencode::Int(1)),
        ]),
    )]);
    assert_eq!(encode_bencode(&d), b"d5:outerd1:ai1e1:bi2eee".to_vec());
}

#[test]
fn encode_orders_prefix_keys_first() {
    let d = Bencode::Dict(vec![
        (b"ab".to_vec(), Bencode::Int(2)),
        (b"a".to_vec(), Bencode::Int(1)),
    ]);
    assert_eq!(encode_bencode(&d), b"d1:ai1e2:abi2ee".to_vec());
}

#[test]
fn round_trip_extreme_integer() {
    let v = Bencode::Int(i64::MIN);
    let encoded = encode_bencode(&v);
    assert_eq!(encoded, b"i-9223372036854775808e".to_vec());
    let decoded = parse_bencode(&encoded).unwrap();
    assert_eq!(decoded.data, v);
    assert_eq!(decoded.len, encoded.len());
}

#[test]
fn round_trip_decode_of_encode() {
    let v = Bencode::Dict(vec![
        (
            b"files".to_vec(),
            Bencode::List(vec![Bencode::new_str("x"), Bencode::Int(99)]),
        ),
        (b"name".to_vec(), Bencode::new_str("demo")),
        (b"piece length".to_vec(), Bencode::Int(16384)),
    ]);
    let encoded = encode_bencode(&v);
    let decoded = parse_bencode(&encoded).unwrap();
    assert_eq!(decoded.data, v);
    assert_eq!(decoded.len, encoded.len());
}

#[test]
fn round_trip_encode_of_decode_is_canonical() {
    let raw = b"d1:bi2e1:ai1ee".to_vec();
    let decoded = parse_bencode(&raw).unwrap();
    assert_eq!(decoded.len, raw.len());
    let reencoded = encode_bencode(&decoded.data);
    assert_eq!(reencoded, b"d1:ai1e1:bi2ee".to_vec());
    let redecoded = parse_bencode(&reencoded).unwrap();
    let again = encode_bencode(&redecoded.data);
    assert_eq!(again, reencoded);
}
