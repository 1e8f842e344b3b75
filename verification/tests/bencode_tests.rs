use btkit::bencode::parse_bencode;
use btkit::bencode::parse_dict;
use btkit::bencode::parse_int;
use btkit::bencode::parse_list;
use btkit::bencode::parse_string;
use btkit::bencode::Bencode;
use btkit::bencode::DecodeError;
use btkit::bencode::ParseResult;

#[test]
fn test_parse_string() {
    assert_eq!(
        parse_string(&"4:abcd".as_bytes().to_vec()),
        Ok(ParseResult::new("abcd".as_bytes().to_vec(), 6))
    );
    assert_eq!(
        parse_string(&"0:".as_bytes().to_vec()),
        Ok(ParseResult::new("".as_bytes().to_vec(), 2))
    )
}

#[test]
fn test_parse_int() {
    assert_eq!(
        parse_int(&"i123e".as_bytes().to_vec()),
        Ok(ParseResult::new(123, 5))
    )
}

#[test]
fn test_list() {
    let test_str = String::from("l4:spam4:eggsi-234el4:spam4:eggsi-234e4:mdheee");
    let lhs = parse_list(&(test_str.as_bytes().to_vec()));
    let rhs = Ok(ParseResult::new(
        vec![
            Bencode::new_str("spam"),
            Bencode::new_str("eggs"),
            Bencode::Int(-234),
            Bencode::List(vec![
                Bencode::new_str("spam"),
                Bencode::new_str("eggs"),
                Bencode::Int(-234),
                Bencode::new_str("mdhe"),
            ]),
        ],
        test_str.len(),
    ));
    assert_eq!(lhs, rhs);
}

#[test]
fn test_dict() {
    let test_str = String::from("d4:listli12e3:zln6:whatupd1:k1:vee4:mdhe4:here3:numi-234ee");
    let lhs = parse_dict(test_str.as_bytes());

    let inner_map = vec![(b"k".to_vec(), Bencode::new_str("v"))];
    let map = vec![
        (
            b"list".to_vec(),
            Bencode::List(vec![
                Bencode::Int(12),
                Bencode::new_str("zln"),
                Bencode::new_str("whatup"),
                Bencode::Dict(inner_map),
            ]),
        ),
        (b"mdhe".to_vec(), Bencode::new_str("here")),
        (b"num".to_vec(), Bencode::Int(-234)),
    ];
    let rhs = Ok(ParseResult::new(map, test_str.len()));
    assert_eq!(lhs, rhs);
}

#[test]
fn decode_byte_string() {
    let r = parse_bencode(b"4:spam").unwrap();
    assert_eq!(r.data, Bencode::Str(b"spam".to_vec()));
    assert_eq!(r.len, 6);
}

#[test]
fn decode_negative_integer() {
    let r = parse_bencode(b"i-42e").unwrap();
    assert_eq!(r.data, Bencode::Int(-42));
    assert_eq!(r.len, 5);
}

#[test]
fn decode_list_of_strings() {
    let r = parse_bencode(b"l4:spam4:eggse").unwrap();
    assert_eq!(
        r.data,
        Bencode::List(vec![Bencode::new_str("spam"), Bencode::new_str("eggs")])
    );
    assert_eq!(r.len, 14);
}

#[test]
fn decode_stops_at_its_boundary() {
    let r = parse_bencode(b"4:spamGARBAGE").unwrap();
    assert_eq!(r.data, Bencode::Str(b"spam".to_vec()));
    assert_eq!(r.len, 6);
    let full = parse_bencode(b"4:spam").unwrap();
    assert_eq!(full.data, r.data);
    assert_eq!(full.len, r.len);
}

#[test]
fn decode_lenient_integer_leading_zeros() {
    let r = parse_bencode(b"i007e").unwrap();
    assert_eq!(r.data, Bencode::Int(7));
    assert_eq!(r.len, 5);
}

#[test]
fn decode_minimal_integer_consumes_three() {
    let r = parse_bencode(b"i0e").unwrap();
    assert_eq!(r.data, Bencode::Int(0));
    assert_eq!(r.len, 3);
}

#[test]
fn decode_the_extreme_integers() {
    let min = parse_bencode(b"i-9223372036854775808e").unwrap();
    assert_eq!(min.data, Bencode::Int(i64::MIN));
    let max = parse_bencode(b"i9223372036854775807e").unwrap();
    assert_eq!(max.data, Bencode::Int(i64::MAX));
    assert_eq!(
        parse_bencode(b"i9223372036854775808e"),
        Err(DecodeError::MalformedInteger)
    );
}

#[test]
fn decode_errors_malformed_length() {
    assert_eq!(parse_bencode(b"zz"), Err(DecodeError::MalformedLength));
    assert_eq!(parse_bencode(b":a"), Err(DecodeError::MalformedLength));
}

#[test]
fn decode_errors_malformed_integer() {
    assert_eq!(parse_bencode(b"i12x"), Err(DecodeError::MalformedInteger));
    assert_eq!(parse_bencode(b"i-e"), Err(DecodeError::MalformedInteger));
    assert_eq!(
        parse_bencode(b"i99999999999999999999e"),
        Err(DecodeError::MalformedInteger)
    );
}

#[test]
fn decode_errors_truncated_payload() {
    assert_eq!(parse_bencode(b"9:ab"), Err(DecodeError::TruncatedPayload));
}

#[test]
fn decode_errors_invalid_key_type() {
    assert_eq!(
        parse_bencode(b"di1e4:spame"),
        Err(DecodeError::InvalidKeyType)
    );
}

#[test]
fn truncated_list_is_unterminated() {
    assert_eq!(
        parse_bencode(b"l4:spam4:eggs"),
        Err(DecodeError::UnterminatedList)
    );
    assert_eq!(parse_bencode(b"l"), Err(DecodeError::UnterminatedList));
}

#[test]
fn truncated_dict_is_unterminated() {
    assert_eq!(
        parse_bencode(b"d4:spam4:eggs"),
        Err(DecodeError::UnterminatedDict)
    );
    assert_eq!(parse_bencode(b"d4:spam"), Err(DecodeError::UnterminatedDict));
}

#[test]
fn duplicate_dict_keys_last_write_wins() {
    let r = parse_bencode(b"d1:ai1e1:ai2ee").unwrap();
    assert_eq!(r.data, Bencode::Dict(vec![(b"a".to_vec(), Bencode::Int(2))]));
    assert_eq!(r.len, 14);
}
