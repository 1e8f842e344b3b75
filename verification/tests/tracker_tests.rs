use btkit::tracker::flow::TrackerFailure;
use btkit::tracker::types::AnnounceRequest;
use btkit::tracker::types::AnnounceResponse;
use btkit::tracker::types::ConnectionRequest;
use btkit::tracker::types::ConnectionRequestAction;
use btkit::tracker::types::ConnectionResponse;
use btkit::tracker::utils::bytes_to_int;
use btkit::tracker::utils::int_to_bytes;
use btkit::tracker::utils::parse_url;

#[test]
fn test_bytes() {
    let s = ConnectionRequest {
        protocol_id: 0x41727101980,
        action: ConnectionRequestAction::CONNECT,
        transaction_id: 0x1010,
    };
    let vec = vec![
        0x00, 0x00, 0x04, 0x17, 0x27, 0x10, 0x19, 0x80, 0x00, 0x00, 0x00, 0x00, 0x00, 0x00, 0x10,
        0x10,
    ];
    assert_eq!(s.to_req_bytes(), vec);
}

#[test]
fn connect_request_carries_the_magic_and_a_bounded_id() {
    let r = ConnectionRequest::new(ConnectionRequestAction::CONNECT);
    assert_eq!(r.protocol_id, 0x41727101980);
    assert_eq!(r.action, ConnectionRequestAction::CONNECT);
    assert!(r.transaction_id >= 0);
    assert_eq!(r.to_req_bytes().len(), 16);
}

#[test]
fn announce_request_defaults() {
    let r = AnnounceRequest::new(&0x0102030405060708, b"01234567890123456789".to_vec());
    assert_eq!(r.connection_id, 0x0102030405060708);
    assert_eq!(r.action, ConnectionRequestAction::ANNOUNCE);
    assert_eq!(r.peer_id.len(), 20);
    assert_eq!(&r.peer_id[0..8], b"-PC0001-");
    assert_eq!(r.num_want, -1);
    assert_eq!(r.downloaded, 0);
    assert_eq!(r.left, 0);
    assert_eq!(r.uploaded, 0);
    assert_eq!(r.port, 0);
    assert!(r.key >= 0 && r.key < 0xFFFFFF);
    let bytes = r.to_req_bytes();
    assert_eq!(bytes.len(), 98);
    assert_eq!(&bytes[0..8], &[1, 2, 3, 4, 5, 6, 7, 8]);
    assert_eq!(&bytes[8..12], &[0, 0, 0, 1]);
    assert_eq!(&bytes[16..36], &b"01234567890123456789"[..]);
    assert_eq!(&bytes[92..96], &[0xFF, 0xFF, 0xFF, 0xFF]);
}

#[test]
fn action_codes_round_trip() {
    assert_eq!(ConnectionRequestAction::CONNECT.get_code(), 0);
    assert_eq!(ConnectionRequestAction::ANNOUNCE.get_code(), 1);
    assert_eq!(
        ConnectionRequestAction::from_code(0),
        Ok(ConnectionRequestAction::CONNECT)
    );
    assert_eq!(
        ConnectionRequestAction::from_code(1),
        Ok(ConnectionRequestAction::ANNOUNCE)
    );
    assert_eq!(
        ConnectionRequestAction::from_code(7),
        Err(TrackerFailure::ActionMismatch)
    );
}

#[test]
fn connect_response_reads_the_fixed_layout() {
    let mut bytes = vec![0u8, 0, 0, 0];
    bytes.extend_from_slice(&[0, 0, 0x10, 0x10]);
    bytes.extend_from_slice(&[0, 0, 0, 0, 0xDE, 0xAD, 0xBE, 0xEF]);
    let r = ConnectionResponse::from_res_bytes(&bytes, bytes.len()).unwrap();
    assert_eq!(r.action, ConnectionRequestAction::CONNECT);
    assert_eq!(r.transaction_id, 0x1010);
    assert_eq!(r.connection_id, 0xDEADBEEF);
}

#[test]
fn connect_response_rejects_unknown_actions() {
    let bytes = vec![0u8, 0, 0, 2, 0, 0, 0, 0, 0, 0, 0, 0, 0, 0, 0, 0];
    assert_eq!(
        ConnectionResponse::from_res_bytes(&bytes, bytes.len()),
        Err(TrackerFailure::ActionMismatch)
    );
}

#[test]
fn connect_response_rejects_the_announce_action() {
    let bytes = vec![0u8, 0, 0, 1, 0, 0, 0, 0, 0, 0, 0, 0, 0, 0, 0, 0];
    assert_eq!(
        ConnectionResponse::from_res_bytes(&bytes, bytes.len()),
        Err(TrackerFailure::ActionMismatch)
    );
}

#[test]
fn connect_response_rejects_short_input() {
    let bytes = vec![0u8, 0, 0, 0, 0, 0, 0, 0];
    assert_eq!(
        ConnectionResponse::from_res_bytes(&bytes, bytes.len()),
        Err(TrackerFailure::ShortResponse)
    );
    let full = vec![0u8; 16];
    assert_eq!(
        ConnectionResponse::from_res_bytes(&full, 10),
        Err(TrackerFailure::ShortResponse)
    );
}

#[test]
fn requests_accept_supplied_ids() {
    let c = ConnectionRequest::with_transaction_id(ConnectionRequestAction::CONNECT, 0x1010);
    assert_eq!(c.transaction_id, 0x1010);
    assert_eq!(
        c.to_req_bytes(),
        vec![
            0x00, 0x00, 0x04, 0x17, 0x27, 0x10, 0x19, 0x80, 0x00, 0x00, 0x00, 0x00, 0x00, 0x00,
            0x10, 0x10,
        ]
    );

    let a = AnnounceRequest::with_ids(
        &1,
        b"01234567890123456789".to_vec(),
        0x2020,
        0x30,
        0x0102,
    );
    assert_eq!(a.transaction_id, 0x2020);
    assert_eq!(a.key, 0x30);
    let mut peer_id = b"-PC0001-".to_vec();
    peer_id.extend_from_slice(&[0x02, 0x01, 0, 0, 0, 0, 0, 0, 0, 0, 0, 0]);
    assert_eq!(a.peer_id, peer_id);
    let bytes = a.to_req_bytes();
    assert_eq!(&bytes[12..16], &[0, 0, 0x20, 0x20]);
    assert_eq!(&bytes[88..92], &[0, 0, 0, 0x30]);
}

#[test]
fn url_data_block_carries_the_path_bytes() {
    assert_eq!(
        btkit::tracker::types::url_data_block("ann"),
        vec![0x2, 0xc, b'a', b'n', b'n']
    );
    assert_eq!(btkit::tracker::types::url_data_block(""), vec![0x2, 0xc]);
}

#[test]
fn announce_response_counts_whole_peer_records() {
    let mut bytes = vec![0u8, 0, 0, 1];
    bytes.extend_from_slice(&[0, 0, 0x10, 0x10]);
    bytes.extend_from_slice(&[0, 0, 0x07, 0x08]);
    bytes.extend_from_slice(&[0, 0, 0, 3]);
    bytes.extend_from_slice(&[0, 0, 0, 9]);
    bytes.extend_from_slice(&[10, 0, 0, 1, 0x1A, 0xE1]);
    bytes.extend_from_slice(&[192, 168, 0, 7, 0x00, 0x50]);
    bytes.extend_from_slice(&[1]);
    let len = bytes.len();
    let r = AnnounceResponse::from_bytes(&bytes, len).unwrap();
    assert_eq!(r.action, ConnectionRequestAction::ANNOUNCE);
    assert_eq!(r.transaction_id, 0x1010);
    assert_eq!(r.interval, 0x0708);
    assert_eq!(r.leechers, 3);
    assert_eq!(r.seeders, 9);
    assert_eq!(r.peers.len(), 2);
    assert_eq!(r.peers[0].ipv4, vec![10, 0, 0, 1]);
    assert_eq!(r.peers[0].port, 0x1AE1);
    assert_eq!(r.peers[1].ipv4, vec![192, 168, 0, 7]);
    assert_eq!(r.peers[1].port, 80);
    assert_eq!(r.peers[0].ipv4_string(), "10.0.0.1");
    assert_eq!(r.peers[1].ipv4_string(), "192.168.0.7");
}

#[test]
fn announce_response_error_action_is_a_tracker_error() {
    let mut bytes = vec![0u8, 0, 0, 3];
    bytes.extend_from_slice(&[0, 0, 0x10, 0x10]);
    bytes.extend_from_slice(b"tracker says no");
    let len = bytes.len();
    match AnnounceResponse::from_bytes(&bytes, len) {
        Err(TrackerFailure::TrackerError(msg)) => {
            assert_eq!(msg, b"tracker says no".to_vec());
        }
        other => panic!("expected a tracker-reported error, got {:?}", other),
    }
}

#[test]
fn announce_response_short_datagram() {
    let bytes = vec![0u8, 0, 0, 1, 0, 0, 0, 0];
    assert!(matches!(
        AnnounceResponse::from_bytes(&bytes, 8),
        Err(TrackerFailure::ShortResponse)
    ));
    assert!(matches!(
        AnnounceResponse::from_bytes(&bytes, 2),
        Err(TrackerFailure::ShortResponse)
    ));
}

#[test]
fn bytes_to_int_reads_big_endian() {
    assert_eq!(bytes_to_int(&[0x12, 0x34]), 0x1234);
    assert_eq!(bytes_to_int(&[]), 0);
    assert_eq!(bytes_to_int(&[0xFF, 0xFF, 0xFF, 0xFF]), 0xFFFFFFFF);
}

#[test]
fn int_to_bytes_writes_little_endian() {
    assert_eq!(int_to_bytes(0x1234, 4), vec![0x34, 0x12, 0, 0]);
    assert_eq!(int_to_bytes(7, 0), Vec::<u8>::new());
    assert_eq!(int_to_bytes(0, 3), vec![0, 0, 0]);
}

#[test]
fn parse_url_splits_scheme_host_and_path() {
    let (scheme, host, path) = parse_url("udp://tracker.example:8080/announce");
    assert_eq!(scheme, "udp");
    assert_eq!(host, "tracker.example:8080");
    assert_eq!(path, "announce");
}

#[test]
fn parse_url_tolerates_missing_parts() {
    let (scheme, host, path) = parse_url("udp://tracker.example:8080");
    assert_eq!(scheme, "udp");
    assert_eq!(host, "tracker.example:8080");
    assert_eq!(path, "");

    let (scheme, host, path) = parse_url("plainhost");
    assert_eq!(scheme, "plainhost");
    assert_eq!(host, "");
    assert_eq!(path, "");
}
