use btkit::bencode::parse_bencode;
use btkit::bencode::Bencode;
use btkit::metainfo::get_announce_list;
use btkit::metainfo::get_info_hash;

#[test]
fn announce_list_collects_in_order() {
    let raw = b"d8:announce9:udp://one13:announce-listll9:udp://twoel11:udp://threeee4:infod4:name1:xee";
    let parsed = parse_bencode(raw).unwrap();
    let dict = match parsed.data {
        Bencode::Dict(entries) => entries,
        other => panic!("expected a dictionary, got {:?}", other),
    };
    let urls = get_announce_list(&dict);
    assert_eq!(
        urls,
        vec![
            b"udp://one".to_vec(),
            b"udp://two".to_vec(),
            b"udp://three".to_vec(),
        ]
    );
}

#[test]
fn announce_list_without_any_keys_is_empty() {
    let parsed = parse_bencode(b"d4:infod4:name1:xee").unwrap();
    let dict = match parsed.data {
        Bencode::Dict(entries) => entries,
        other => panic!("expected a dictionary, got {:?}", other),
    };
    assert_eq!(get_announce_list(&dict), Vec::<Vec<u8>>::new());
}

#[test]
fn info_hash_is_a_twenty_byte_digest() {
    let parsed = parse_bencode(b"d4:name4:demo6:lengthi5ee").unwrap();
    let h1 = get_info_hash(&parsed.data);
    assert_eq!(h1.len(), 20);
    let h2 = get_info_hash(&parsed.data);
    assert_eq!(h1, h2);
    let other = parse_bencode(b"d4:name4:demX6:lengthi5ee").unwrap();
    let h3 = get_info_hash(&other.data);
    assert_ne!(h1, h3);
}

#[test]
fn info_hash_ignores_insertion_order() {
    let a = Bencode::Dict(vec![
        (b"length".to_vec(), Bencode::Int(5)),
        (b"name".to_vec(), Bencode::new_str("demo")),
    ]);
    let b = Bencode::Dict(vec![
        (b"name".to_vec(), Bencode::new_str("demo")),
        (b"length".to_vec(), Bencode::Int(5)),
    ]);
    assert_eq!(get_info_hash(&a), get_info_hash(&b));
}
