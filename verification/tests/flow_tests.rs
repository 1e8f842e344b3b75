use btkit::tracker::flow::aggregate_peers;
use btkit::tracker::flow::connect_timeout;
use btkit::tracker::flow::scheme_is_udp;
use btkit::tracker::flow::validate_announce_response;
use btkit::tracker::flow::validate_connect_response;
use btkit::tracker::flow::TrackerFailure;
use btkit::tracker::flow::TrackerPhase;
use btkit::tracker::flow::TrackerSession;
use btkit::tracker::types::AnnounceResponse;
use btkit::tracker::types::ConnectionRequestAction;
use btkit::tracker::types::PeerEndpoint;

fn connect_response_bytes(txid: i32, cid: u64) -> Vec<u8> {
    let mut bytes = vec![0u8, 0, 0, 0];
    bytes.extend_from_slice(&(txid as u32).to_be_bytes());
    bytes.extend_from_slice(&cid.to_be_bytes());
    bytes
}

#[test]
fn backoff_doubles_per_attempt() {
    assert_eq!(connect_timeout(15, 0), 15);
    assert_eq!(connect_timeout(15, 1), 30);
    assert_eq!(connect_timeout(15, 3), 120);
    assert_eq!(connect_timeout(2, 5), 64);
}

#[test]
fn scheme_check() {
    assert!(scheme_is_udp("udp"));
    assert!(!scheme_is_udp("http"));
    assert!(!scheme_is_udp(""));
}

#[test]
fn connect_validation_checks_action_and_transaction() {
    let good = connect_response_bytes(0x1010, 7);
    let r = validate_connect_response(&good, good.len(), 0x1010).unwrap();
    assert_eq!(r.action, ConnectionRequestAction::CONNECT);
    assert_eq!(r.transaction_id, 0x1010);
    assert_eq!(r.connection_id, 7);

    assert_eq!(
        validate_connect_response(&good, good.len(), 0x2020),
        Err(TrackerFailure::TransactionMismatch)
    );
    assert_eq!(
        validate_connect_response(&good, 10, 0x1010),
        Err(TrackerFailure::ShortResponse)
    );
    let mut wrong_action = good.clone();
    wrong_action[3] = 1;
    assert_eq!(
        validate_connect_response(&wrong_action, wrong_action.len(), 0x1010),
        Err(TrackerFailure::ActionMismatch)
    );
}

fn announce_response_bytes(txid: i32, peers: &[([u8; 4], u16)]) -> Vec<u8> {
    let mut bytes = vec![0u8, 0, 0, 1];
    bytes.extend_from_slice(&(txid as u32).to_be_bytes());
    bytes.extend_from_slice(&[0, 0, 0, 60]);
    bytes.extend_from_slice(&[0, 0, 0, 1]);
    bytes.extend_from_slice(&[0, 0, 0, 2]);
    for (ip, port) in peers {
        bytes.extend_from_slice(ip);
        bytes.extend_from_slice(&port.to_be_bytes());
    }
    bytes
}

#[test]
fn announce_validation_checks_transaction() {
    let good = announce_response_bytes(5, &[([10, 0, 0, 1], 6881)]);
    let r = validate_announce_response(&good, good.len(), 5).unwrap();
    assert_eq!(r.peers.len(), 1);
    assert_eq!(
        validate_announce_response(&good, good.len(), 6),
        Err(TrackerFailure::TransactionMismatch)
    );
}

#[test]
fn session_walks_connect_then_announce() {
    let mut s = TrackerSession::new(8, 15);
    assert_eq!(s.phase, TrackerPhase::Idle);
    s.begin_connect(true, 0x1010);
    assert_eq!(s.phase, TrackerPhase::AwaitingConnect);
    let bytes = connect_response_bytes(0x1010, 0xABCD);
    s.on_connect_datagram(&bytes, bytes.len());
    assert_eq!(s.phase, TrackerPhase::Connected);
    assert_eq!(s.connection_id, 0xABCD);
    s.begin_announce(0x2020);
    assert_eq!(s.phase, TrackerPhase::AwaitingAnnounce);
    let ann = announce_response_bytes(0x2020, &[([10, 0, 0, 1], 6881)]);
    let res = s.on_announce_datagram(&ann, ann.len()).unwrap();
    assert_eq!(s.phase, TrackerPhase::Announced);
    assert_eq!(res.peers.len(), 1);
}

#[test]
fn session_rejects_non_udp_scheme() {
    let mut s = TrackerSession::new(8, 15);
    s.begin_connect(false, 1);
    assert_eq!(
        s.phase,
        TrackerPhase::Failed(TrackerFailure::UnsupportedScheme)
    );
}

#[test]
fn session_exhausts_connect_retries() {
    let mut s = TrackerSession::new(2, 15);
    s.begin_connect(true, 1);
    s.on_timeout();
    assert_eq!(s.phase, TrackerPhase::AwaitingConnect);
    assert_eq!(s.attempt, 1);
    s.on_timeout();
    assert_eq!(
        s.phase,
        TrackerPhase::Failed(TrackerFailure::ConnectExhausted)
    );
}

#[test]
fn session_surfaces_tracker_reported_errors_without_retry() {
    let mut s = TrackerSession::new(8, 15);
    s.begin_connect(true, 1);
    let bytes = connect_response_bytes(1, 9);
    s.on_connect_datagram(&bytes, bytes.len());
    s.begin_announce(2);
    let mut err_bytes = vec![0u8, 0, 0, 3, 0, 0, 0, 2];
    err_bytes.extend_from_slice(b"denied");
    assert!(s.on_announce_datagram(&err_bytes, err_bytes.len()).is_none());
    assert_eq!(
        s.phase,
        TrackerPhase::Failed(TrackerFailure::TrackerError(b"denied".to_vec()))
    );
}

#[test]
fn peer_rendering_handles_all_octet_widths() {
    let p = PeerEndpoint {
        ipv4: vec![255, 0, 42, 7],
        port: 65535,
    };
    assert_eq!(p.ipv4_string(), "255.0.42.7");
}

#[test]
fn aggregation_dedups_and_drops_the_sentinel() {
    let make = |peers: Vec<([u8; 4], u16)>| AnnounceResponse {
        action: ConnectionRequestAction::ANNOUNCE,
        transaction_id: 0,
        interval: 60,
        leechers: 0,
        seeders: 0,
        peers: peers
            .into_iter()
            .map(|(ip, port)| PeerEndpoint {
                ipv4: ip.to_vec(),
                port,
            })
            .collect(),
    };
    let responses = vec![
        make(vec![([10, 0, 0, 1], 1000), ([0, 0, 0, 0], 9), ([10, 0, 0, 2], 1000)]),
        make(vec![([10, 0, 0, 1], 1000), ([10, 0, 0, 1], 2000)]),
    ];
    let peers = aggregate_peers(&responses);
    let got: Vec<(Vec<u8>, u16)> = peers.iter().map(|p| (p.ipv4.clone(), p.port)).collect();
    assert_eq!(
        got,
        vec![
            (vec![10, 0, 0, 1], 1000),
            (vec![10, 0, 0, 2], 1000),
            (vec![10, 0, 0, 1], 2000),
        ]
    );
}
