//! Tracker client decisions: the failure taxonomy, response validation
//! (action and transaction id must match what was sent), the exponential
//! retry timeout, the connect/announce state machine, and aggregation of
//! peers across trackers.

use vstd::prelude::*;

use crate::tracker::types::action_code;
use crate::tracker::types::u32_of_i32;
use crate::tracker::types::AnnounceResponse;
use crate::tracker::types::ConnectionRequestAction;
use crate::tracker::types::ConnectionResponse;
use crate::tracker::types::PeerEndpoint;
use crate::tracker::utils::be_val;
use vstd::string::StrSliceExecFns;

verus! {

/// Why a tracker exchange failed. Scheme, resolution, short-response,
/// mismatch and exhaustion failures abandon one tracker and let the
/// caller move to the next; a tracker-reported error carries the
/// tracker's own message and is never retried.
#[derive(Debug, PartialEq, Eq)]
pub enum TrackerFailure {
    /// The URL scheme is not `udp`.
    UnsupportedScheme,
    /// The host name did not resolve to any address.
    ResolutionError,
    /// A datagram shorter than the response's fixed header.
    ShortResponse,
    /// The response's action code is not the one the request named.
    ActionMismatch,
    /// The response does not echo the request's transaction id.
    TransactionMismatch,
    /// The tracker rejected the request; the bytes are its own message.
    TrackerError(Vec<u8>),
    /// Every connect attempt timed out or was malformed.
    ConnectExhausted,
    /// Every announce attempt timed out or was malformed.
    AnnounceExhausted,
    /// No tracker URL was available at all.
    NoTrackers,
}

/// Two raised to the `n`.
pub open spec fn pow2(n: nat) -> int
    decreases n,
{
    if n == 0 {
        1
    } else {
        2 * pow2((n - 1) as nat)
    }
}

/// The timeout before resending attempt `attempt` (0-indexed):
/// `base * 2^attempt` seconds, the protocol's exponential backoff.
pub fn connect_timeout(base: u64, attempt: u32) -> (r: u64)
    requires
        base * pow2(attempt as nat) <= u64::MAX,
    ensures
        r as int == base * pow2(attempt as nat),
{
    let mut r = base;
    let mut i: u32 = 0;
    proof {
        lemma_pow2_mono(0, attempt as nat);
    }
    while i < attempt
        invariant
            i <= attempt,
            r as int == base * pow2(i as nat),
            base * pow2(attempt as nat) <= u64::MAX,
        decreases attempt - i,
    {
        proof {
            lemma_pow2_mono((i + 1) as nat, attempt as nat);
            assert(base * pow2((i + 1) as nat) == (base * pow2(i as nat)) * 2)
                by (nonlinear_arith);
            assert(base * pow2((i + 1) as nat) <= base * pow2(attempt as nat))
                by (nonlinear_arith)
                requires
                    pow2((i + 1) as nat) <= pow2(attempt as nat),
                    base >= 0,
            ;
        }
        r = r * 2;
        i += 1;
    }
    r
}

/// `pow2` grows with its argument.
pub proof fn lemma_pow2_mono(a: nat, b: nat)
    requires
        a <= b,
    ensures
        pow2(a) <= pow2(b),
        pow2(a) >= 1,
    decreases b,
{
    if a == b {
        lemma_pow2_pos(a);
    } else {
        lemma_pow2_mono(a, (b - 1) as nat);
    }
}

/// `pow2` is positive.
pub proof fn lemma_pow2_pos(n: nat)
    ensures
        pow2(n) >= 1,
    decreases n,
{
    if n > 0 {
        lemma_pow2_pos((n - 1) as nat);
    }
}

/// True exactly when the parsed scheme is `udp`.
pub fn scheme_is_udp(scheme: &str) -> (r: bool)
    ensures
        r == (scheme@ == seq!['u', 'd', 'p']),
{
    let n = scheme.unicode_len();
    if n != 3 {
        proof {
            assert(scheme@ != seq!['u', 'd', 'p']);
        }
        return false;
    }
    let ok = scheme.get_char(0) == 'u' && scheme.get_char(1) == 'd' && scheme.get_char(2) == 'p';
    proof {
        if ok {
            assert(scheme@ =~= seq!['u', 'd', 'p']);
        }
    }
    ok
}

/// Validates a connect response against what was sent: at least 16
/// meaningful bytes, the connect action echoed, and the request's
/// transaction id echoed; only then is the connection id trusted.
pub fn validate_connect_response(bytes: &[u8], len: usize, expected_txid: i32) -> (r: Result<
    ConnectionResponse,
    TrackerFailure,
>)
    requires
        len <= bytes@.len(),
    ensures
        match r {
            Ok(res) => {
                &&& len >= 16
                &&& be_val(bytes@.subrange(0, 4)) == action_code(
                    ConnectionRequestAction::CONNECT,
                )
                &&& res.action == ConnectionRequestAction::CONNECT
                &&& res.transaction_id == expected_txid
                &&& u32_of_i32(res.transaction_id as int) == be_val(bytes@.subrange(4, 8))
                &&& crate::tracker::types::u64_of_i64(res.connection_id as int) == be_val(
                    bytes@.subrange(8, 16),
                )
            },
            Err(TrackerFailure::ShortResponse) => len < 16,
            Err(TrackerFailure::ActionMismatch) => len >= 16 && be_val(bytes@.subrange(0, 4))
                != 0,
            Err(TrackerFailure::TransactionMismatch) => len >= 16 && be_val(
                bytes@.subrange(0, 4),
            ) == 0 && be_val(bytes@.subrange(4, 8)) != u32_of_i32(expected_txid as int),
            Err(_) => false,
        },
{
    match ConnectionResponse::from_res_bytes(bytes, len) {
        Err(e) => Err(e),
        Ok(res) => {
            if res.transaction_id != expected_txid {
                proof {
                    assert(u32_of_i32(res.transaction_id as int) != u32_of_i32(
                        expected_txid as int,
                    ));
                }
                Err(TrackerFailure::TransactionMismatch)
            } else {
                Ok(res)
            }
        },
    }
}

/// Validates an announce response against what was sent: the tracker's
/// own error message passes through untouched; otherwise the announce
/// action and the request's transaction id must be echoed.
pub fn validate_announce_response(bytes: &[u8], len: usize, expected_txid: i32) -> (r: Result<
    AnnounceResponse,
    TrackerFailure,
>)
    requires
        len <= bytes@.len(),
    ensures
        match r {
            Ok(res) => {
                &&& len >= 20
                &&& be_val(bytes@.subrange(0, 4)) == 1
                &&& res.action == ConnectionRequestAction::ANNOUNCE
                &&& res.transaction_id == expected_txid
                &&& be_val(bytes@.subrange(4, 8)) == u32_of_i32(expected_txid as int)
                &&& u32_of_i32(res.interval as int) == be_val(bytes@.subrange(8, 12))
                &&& u32_of_i32(res.leechers as int) == be_val(bytes@.subrange(12, 16))
                &&& u32_of_i32(res.seeders as int) == be_val(bytes@.subrange(16, 20))
                &&& res.peers@.len() == (len - 20) / 6
                &&& forall|i: int|
                    0 <= i < res.peers@.len() ==> (#[trigger] res.peers@[i]).ipv4@ == bytes@
                        .subrange(20 + 6 * i, 24 + 6 * i) && res.peers@[i].port as int == be_val(
                        bytes@.subrange(24 + 6 * i, 26 + 6 * i),
                    )
            },
            Err(TrackerFailure::TrackerError(msg)) => len >= 4 && be_val(bytes@.subrange(0, 4))
                == 3 && msg@ == (if len >= 8 {
                bytes@.subrange(8, len as int)
            } else {
                Seq::<u8>::empty()
            }),
            Err(TrackerFailure::ShortResponse) => len < 4 || (be_val(bytes@.subrange(0, 4)) != 3
                && len < 20),
            Err(TrackerFailure::ActionMismatch) => len >= 20 && be_val(bytes@.subrange(0, 4))
                != 1 && be_val(bytes@.subrange(0, 4)) != 3,
            Err(TrackerFailure::TransactionMismatch) => len >= 20 && be_val(
                bytes@.subrange(0, 4),
            ) == 1 && be_val(bytes@.subrange(4, 8)) != u32_of_i32(expected_txid as int),
            Err(_) => false,
        },
{
    match AnnounceResponse::from_bytes(bytes, len) {
        Err(e) => Err(e),
        Ok(res) => {
            match res.action {
                ConnectionRequestAction::CONNECT => Err(TrackerFailure::ActionMismatch),
                ConnectionRequestAction::ANNOUNCE => {
                    if res.transaction_id != expected_txid {
                        proof {
                            assert(u32_of_i32(res.transaction_id as int) != u32_of_i32(
                                expected_txid as int,
                            ));
                        }
                        Err(TrackerFailure::TransactionMismatch)
                    } else {
                        Ok(res)
                    }
                },
            }
        },
    }
}

// ---------------------------------------------------------------------------
// Protocol state machine
// ---------------------------------------------------------------------------

/// The phases of one tracker exchange: idle, waiting for the connect
/// response, connected (holding a connection id), waiting for the
/// announce response, announced, or failed.
#[derive(Debug, PartialEq, Eq)]
pub enum TrackerPhase {
    Idle,
    AwaitingConnect,
    Connected,
    AwaitingAnnounce,
    Announced,
    Failed(TrackerFailure),
}

/// One tracker exchange: configuration (attempt ceiling and base
/// timeout), the current phase, the attempt counter, the transaction id
/// awaiting its echo, and the connection id once issued.
pub struct TrackerSession {
    pub phase: TrackerPhase,
    pub max_tries: u32,
    pub base_timeout: u64,
    pub attempt: u32,
    pub transaction_id: i32,
    pub connection_id: i64,
}

impl TrackerSession {
    /// A fresh idle session with the given retry configuration.
    pub fn new(max_tries: u32, base_timeout: u64) -> (r: TrackerSession)
        ensures
            r.phase == TrackerPhase::Idle,
            r.max_tries == max_tries,
            r.base_timeout == base_timeout,
            r.attempt == 0,
    {
        TrackerSession {
            phase: TrackerPhase::Idle,
            max_tries,
            base_timeout,
            attempt: 0,
            transaction_id: 0,
            connection_id: 0,
        }
    }

    /// Starts the connect phase for a request with the given transaction
    /// id; a scheme other than `udp` fails the session at once.
    pub fn begin_connect(&mut self, scheme_udp: bool, transaction_id: i32)
        requires
            old(self).phase == TrackerPhase::Idle,
        ensures
            final(self).max_tries == old(self).max_tries,
            final(self).base_timeout == old(self).base_timeout,
            scheme_udp ==> final(self).phase == TrackerPhase::AwaitingConnect && final(self).attempt == 0 && final(self).transaction_id == transaction_id,
            !scheme_udp ==> final(self).phase == TrackerPhase::Failed(
                TrackerFailure::UnsupportedScheme,
            ),
    {
        if scheme_udp {
            self.phase = TrackerPhase::AwaitingConnect;
            self.attempt = 0;
            self.transaction_id = transaction_id;
        } else {
            self.phase = TrackerPhase::Failed(TrackerFailure::UnsupportedScheme);
        }
    }

    /// A timed-out attempt: move to the next attempt, or fail the
    /// session once the ceiling is reached.
    pub fn on_timeout(&mut self)
        requires
            old(self).phase == TrackerPhase::AwaitingConnect || old(self).phase
                == TrackerPhase::AwaitingAnnounce,
        ensures
            final(self).max_tries == old(self).max_tries,
            final(self).base_timeout == old(self).base_timeout,
            final(self).transaction_id == old(self).transaction_id,
            final(self).connection_id == old(self).connection_id,
            old(self).attempt + 1 < old(self).max_tries ==> final(self).phase == old(self).phase
                && final(self).attempt == old(self).attempt + 1,
            old(self).attempt + 1 >= old(self).max_tries ==> final(self).phase == (if old(self).phase == TrackerPhase::AwaitingConnect {
                TrackerPhase::Failed(TrackerFailure::ConnectExhausted)
            } else {
                TrackerPhase::Failed(TrackerFailure::AnnounceExhausted)
            }),
    {
        if self.max_tries == 0 || self.attempt >= self.max_tries - 1 {
            match self.phase {
                TrackerPhase::AwaitingConnect => {
                    self.phase = TrackerPhase::Failed(TrackerFailure::ConnectExhausted);
                },
                _ => {
                    self.phase = TrackerPhase::Failed(TrackerFailure::AnnounceExhausted);
                },
            }
        } else {
            self.attempt = self.attempt + 1;
        }
    }

    /// A datagram received while awaiting the connect response: a valid
    /// response (action and transaction id echoed) moves the session to
    /// connected, carrying the issued connection id; anything else is
    /// treated like a timeout (retry, or exhaust).
    pub fn on_connect_datagram(&mut self, bytes: &[u8], len: usize)
        requires
            old(self).phase == TrackerPhase::AwaitingConnect,
            len <= bytes@.len(),
        ensures
            final(self).max_tries == old(self).max_tries,
            final(self).base_timeout == old(self).base_timeout,
            final(self).transaction_id == old(self).transaction_id,
            (len >= 16 && be_val(bytes@.subrange(0, 4)) == 0 && be_val(bytes@.subrange(4, 8))
                == u32_of_i32(old(self).transaction_id as int)) ==> final(self).phase
                == TrackerPhase::Connected && crate::tracker::types::u64_of_i64(
                final(self).connection_id as int,
            ) == be_val(bytes@.subrange(8, 16)),
            !(len >= 16 && be_val(bytes@.subrange(0, 4)) == 0 && be_val(bytes@.subrange(4, 8))
                == u32_of_i32(old(self).transaction_id as int)) ==> (final(self).connection_id
                == old(self).connection_id && (old(self).attempt + 1 < old(self).max_tries
                ==> final(self).phase == TrackerPhase::AwaitingConnect && final(self).attempt
                == old(self).attempt + 1) && (old(self).attempt + 1 >= old(self).max_tries
                ==> final(self).phase == TrackerPhase::Failed(TrackerFailure::ConnectExhausted))),
    {
        match validate_connect_response(bytes, len, self.transaction_id) {
            Ok(res) => {
                self.phase = TrackerPhase::Connected;
                self.connection_id = res.connection_id;
            },
            Err(_) => {
                self.on_timeout();
            },
        }
    }

    /// Starts the announce phase with a fresh transaction id, reusing the
    /// connection id issued during connect.
    pub fn begin_announce(&mut self, transaction_id: i32)
        requires
            old(self).phase == TrackerPhase::Connected,
        ensures
            final(self).phase == TrackerPhase::AwaitingAnnounce,
            final(self).attempt == 0,
            final(self).transaction_id == transaction_id,
            final(self).connection_id == old(self).connection_id,
            final(self).max_tries == old(self).max_tries,
            final(self).base_timeout == old(self).base_timeout,
    {
        self.phase = TrackerPhase::AwaitingAnnounce;
        self.attempt = 0;
        self.transaction_id = transaction_id;
    }

    /// A datagram received while awaiting the announce response. A valid
    /// peer-list response moves the session to announced and hands the
    /// response back. A tracker-reported error fails the session at once
    /// (the tracker rejected the request; no retry). Anything else is
    /// treated like a timeout.
    pub fn on_announce_datagram(&mut self, bytes: &[u8], len: usize) -> (r: Option<
        AnnounceResponse,
    >)
        requires
            old(self).phase == TrackerPhase::AwaitingAnnounce,
            len <= bytes@.len(),
        ensures
            final(self).max_tries == old(self).max_tries,
            final(self).base_timeout == old(self).base_timeout,
            final(self).connection_id == old(self).connection_id,
            match r {
                Some(res) => {
                    &&& final(self).phase == TrackerPhase::Announced
                    &&& len >= 20
                    &&& be_val(bytes@.subrange(0, 4)) == 1
                    &&& be_val(bytes@.subrange(4, 8)) == u32_of_i32(
                        old(self).transaction_id as int,
                    )
                    &&& res.peers@.len() == (len - 20) / 6
                },
                None => (len >= 4 && be_val(bytes@.subrange(0, 4)) == 3) ==> final(self).phase
                    matches TrackerPhase::Failed(TrackerFailure::TrackerError(_)),
            },
    {
        match validate_announce_response(bytes, len, self.transaction_id) {
            Ok(res) => {
                self.phase = TrackerPhase::Announced;
                Some(res)
            },
            Err(e) => {
                match e {
                    TrackerFailure::TrackerError(msg) => {
                        self.phase = TrackerPhase::Failed(TrackerFailure::TrackerError(msg));
                    },
                    _ => {
                        self.on_timeout();
                    },
                }
                None
            },
        }
    }
}

// ---------------------------------------------------------------------------
// Peer aggregation
// ---------------------------------------------------------------------------

/// The never-dialable sentinel address 0.0.0.0.
pub open spec fn zero_ip() -> Seq<u8> {
    seq![0u8, 0u8, 0u8, 0u8]
}

/// Some response in `rs` offers the peer `(ip, port)`.
pub open spec fn offered(rs: Seq<AnnounceResponse>, ip: Seq<u8>, port: u16) -> bool {
    exists|i: int, j: int|
        0 <= i < rs.len() && 0 <= j < (#[trigger] rs[i]).peers@.len() && (
        #[trigger] rs[i].peers@[j]).ipv4@ == ip && rs[i].peers@[j].port == port
}

/// The list already holds the peer `(ip, port)`.
pub open spec fn listed(out: Seq<PeerEndpoint>, ip: Seq<u8>, port: u16) -> bool {
    exists|a: int|
        0 <= a < out.len() && (#[trigger] out[a]).ipv4@ == ip && out[a].port == port
}

/// Collects the peers of all responses into one list, discarding the
/// 0.0.0.0 sentinel and duplicates of the same address and port.
pub fn aggregate_peers(responses: &Vec<AnnounceResponse>) -> (r: Vec<PeerEndpoint>)
    ensures
        forall|a: int, b: int|
            0 <= a < b < r@.len() ==> !((#[trigger] r@[a]).ipv4@ == (#[trigger] r@[b]).ipv4@
                && r@[a].port == r@[b].port),
        forall|a: int|
            0 <= a < r@.len() ==> (#[trigger] r@[a]).ipv4@ != zero_ip() && offered(
                responses@,
                r@[a].ipv4@,
                r@[a].port,
            ),
        forall|ip: Seq<u8>, port: u16|
            offered(responses@, ip, port) && ip != zero_ip() ==> listed(r@, ip, port),
{
    let mut out: Vec<PeerEndpoint> = Vec::new();
    let mut i: usize = 0;
    while i < responses.len()
        invariant
            i <= responses@.len(),
            forall|a: int, b: int|
                0 <= a < b < out@.len() ==> !((#[trigger] out@[a]).ipv4@ == (
                #[trigger] out@[b]).ipv4@ && out@[a].port == out@[b].port),
            forall|a: int|
                0 <= a < out@.len() ==> (#[trigger] out@[a]).ipv4@ != zero_ip() && offered(
                    responses@,
                    out@[a].ipv4@,
                    out@[a].port,
                ),
            forall|oi: int, oj: int|
                0 <= oi < i && 0 <= oj < (#[trigger] responses@[oi]).peers@.len() && (
                #[trigger] responses@[oi].peers@[oj]).ipv4@ != zero_ip() ==> listed(
                    out@,
                    responses@[oi].peers@[oj].ipv4@,
                    responses@[oi].peers@[oj].port,
                ),
        decreases responses@.len() - i,
    {
        let peers = &responses[i].peers;
        let mut j: usize = 0;
        while j < peers.len()
            invariant
                i < responses@.len(),
                *peers == responses@[i as int].peers,
                j <= peers@.len(),
                forall|a: int, b: int|
                    0 <= a < b < out@.len() ==> !((#[trigger] out@[a]).ipv4@ == (
                    #[trigger] out@[b]).ipv4@ && out@[a].port == out@[b].port),
                forall|a: int|
                    0 <= a < out@.len() ==> (#[trigger] out@[a]).ipv4@ != zero_ip() && offered(
                        responses@,
                        out@[a].ipv4@,
                        out@[a].port,
                    ),
                forall|oi: int, oj: int|
                    0 <= oi < i && 0 <= oj < (#[trigger] responses@[oi]).peers@.len() && (
                    #[trigger] responses@[oi].peers@[oj]).ipv4@ != zero_ip() ==> listed(
                        out@,
                        responses@[oi].peers@[oj].ipv4@,
                        responses@[oi].peers@[oj].port,
                    ),
                forall|jj: int|
                    0 <= jj < j && (#[trigger] peers@[jj]).ipv4@ != zero_ip() ==> listed(
                        out@,
                        peers@[jj].ipv4@,
                        peers@[jj].port,
                    ),
            decreases peers@.len() - j,
        {
            let ghost out_before = out@;
            let p = &peers[j];
            let is_zero = p.ipv4.len() == 4 && p.ipv4[0] == 0 && p.ipv4[1] == 0 && p.ipv4[2] == 0
                && p.ipv4[3] == 0;
            proof {
                if is_zero {
                    assert(p.ipv4@ =~= zero_ip());
                }
            }
            if !is_zero {
                let mut seen = false;
                let mut a: usize = 0;
                while !seen && a < out.len()
                    invariant
                        a <= out@.len(),
                        out@ == out_before,
                        *p == responses@[i as int].peers@[j as int],
                        seen ==> listed(out@, p.ipv4@, p.port),
                        !seen ==> forall|b: int|
                            0 <= b < a ==> !((#[trigger] out@[b]).ipv4@ == p.ipv4@ && out@[b].port
                                == p.port),
                    decreases out@.len() - a + (if seen { 0int } else { 1int }),
                {
                    if crate::bencode::bytes_eq(&out[a].ipv4, &p.ipv4) && out[a].port == p.port {
                        seen = true;
                        proof {
                            assert(out@[a as int].ipv4@ == p.ipv4@ && out@[a as int].port
                                == p.port);
                        }
                    } else {
                        a += 1;
                    }
                }
                if !seen {
                    let copy = PeerEndpoint {
                        ipv4: crate::bencode::bytes_dup(&p.ipv4),
                        port: p.port,
                    };
                    proof {
                        assert(offered(responses@, p.ipv4@, p.port)) by {
                            assert(0 <= i < responses@.len() && 0 <= j < responses@[i as int]
                                .peers@.len() && (responses@[i as int].peers@[j as int]).ipv4@
                                == p.ipv4@ && responses@[i as int].peers@[j as int].port
                                == p.port);
                        }
                    }
                    out.push(copy);
                    proof {
                        assert forall|ip: Seq<u8>, port: u16|
                            listed(out_before, ip, port) implies listed(out@, ip, port) by {
                            let w = choose|w: int|
                                0 <= w < out_before.len() && (#[trigger] out_before[w]).ipv4@
                                    == ip && out_before[w].port == port;
                            assert(out@[w] == out_before[w]);
                        }
                        assert(out@[out@.len() - 1].ipv4@ == p.ipv4@ && out@[out@.len() - 1].port
                            == p.port);
                        assert(listed(out@, p.ipv4@, p.port));
                    }
                } else {
                    proof {
                        assert(listed(out@, p.ipv4@, p.port));
                    }
                }
            }
            j += 1;
            proof {
                assert forall|jj: int|
                    0 <= jj < j && (#[trigger] peers@[jj]).ipv4@ != zero_ip() implies listed(
                    out@,
                    peers@[jj].ipv4@,
                    peers@[jj].port,
                ) by {
                    if jj < j - 1 {
                        assert forall|ip: Seq<u8>, port: u16|
                            listed(out_before, ip, port) implies listed(out@, ip, port) by {
                            let w = choose|w: int|
                                0 <= w < out_before.len() && (#[trigger] out_before[w]).ipv4@
                                    == ip && out_before[w].port == port;
                            assert(out@[w] == out_before[w]);
                        }
                    }
                }
                assert forall|oi: int, oj: int|
                    0 <= oi < i && 0 <= oj < (#[trigger] responses@[oi]).peers@.len() && (
                    #[trigger] responses@[oi].peers@[oj]).ipv4@ != zero_ip() implies listed(
                    out@,
                    responses@[oi].peers@[oj].ipv4@,
                    responses@[oi].peers@[oj].port,
                ) by {
                    assert forall|ip: Seq<u8>, port: u16|
                        listed(out_before, ip, port) implies listed(out@, ip, port) by {
                        let w = choose|w: int|
                            0 <= w < out_before.len() && (#[trigger] out_before[w]).ipv4@ == ip
                                && out_before[w].port == port;
                        assert(out@[w] == out_before[w]);
                    }
                }
            }
        }
        i += 1;
    }
    proof {
        assert forall|ip: Seq<u8>, port: u16|
            offered(responses@, ip, port) && ip != zero_ip() implies listed(out@, ip, port) by {
            let (oi, oj) = choose|oi: int, oj: int|
                0 <= oi < responses@.len() && 0 <= oj < (#[trigger] responses@[oi]).peers@.len()
                    && (#[trigger] responses@[oi].peers@[oj]).ipv4@ == ip && responses@[oi]
                    .peers@[oj].port == port;
            assert(responses@[oi].peers@[oj].ipv4@ != zero_ip());
        }
    }
    out
}

} // verus!
