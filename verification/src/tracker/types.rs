//! Fixed-layout request and response types of the UDP tracker protocol
//! (connect and announce), with exact big-endian byte layouts.

use vstd::prelude::*;
use vstd::slice::slice_subrange;
use vstd::slice::slice_to_vec;
use vstd::string::StrSliceExecFns;
use vstd::string::StringExecFns;
use vstd::string::StringSliceAdditionalSpecFns;

use rand::Rng;

use crate::tracker::flow::TrackerFailure;
use crate::tracker::utils::be_val;
use crate::tracker::utils::int_to_bytes;
use crate::tracker::utils::lemma_be_val_bound;
use crate::tracker::utils::pow256;

verus! {

/// Relies on rand's `Rng::gen_range` over `0..bound`: a value uniformly
/// drawn from the half-open range, so always within it.
#[verifier::external_body]
fn random_below(bound: i32) -> (r: i32)
    requires
        bound > 0,
    ensures
        0 <= r < bound,
{
    rand::thread_rng().gen_range(0..bound)
}

/// The unsigned 64-bit reading of a signed 64-bit value (two's
/// complement).
pub open spec fn u64_of_i64(x: int) -> int {
    if x >= 0 {
        x
    } else {
        x + 0x10000000000000000
    }
}

/// The unsigned 32-bit reading of a signed 32-bit value.
pub open spec fn u32_of_i32(x: int) -> int {
    if x >= 0 {
        x
    } else {
        x + 0x100000000
    }
}

/// The unsigned 16-bit reading of a signed 16-bit value.
pub open spec fn u16_of_i16(x: int) -> int {
    if x >= 0 {
        x
    } else {
        x + 0x10000
    }
}


/// The unsigned 64-bit reading, computed without truncation.
fn u64_of_i64_exec(x: i64) -> (r: u64)
    ensures
        r as int == u64_of_i64(x as int),
{
    if x >= 0 {
        x as u64
    } else {
        let y: i64 = x + 0x4000000000000000 + 0x4000000000000000;
        (y as u64) + 0x8000000000000000u64
    }
}

/// The unsigned 32-bit reading, computed without truncation.
fn u32_of_i32_exec(x: i32) -> (r: u32)
    ensures
        r as int == u32_of_i32(x as int),
{
    if x >= 0 {
        x as u32
    } else {
        let y: i32 = x + 0x40000000 + 0x40000000;
        (y as u32) + 0x80000000u32
    }
}

/// The unsigned 16-bit reading, computed without truncation.
fn u16_of_i16_exec(x: i16) -> (r: u16)
    ensures
        r as int == u16_of_i16(x as int),
{
    if x >= 0 {
        x as u16
    } else {
        let y: i16 = x + 0x4000 + 0x4000;
        (y as u16) + 0x8000u16
    }
}

/// The signed 32-bit value whose unsigned reading is `v`.
fn i32_of_u32_val(v: i128) -> (r: i32)
    requires
        0 <= v < 0x100000000,
    ensures
        u32_of_i32(r as int) == v,
{
    if v < 0x80000000 {
        v as i32
    } else {
        (v - 0x100000000) as i32
    }
}

/// The signed 64-bit value whose unsigned reading is `v`.
fn i64_of_u64_val(v: i128) -> (r: i64)
    requires
        0 <= v < 0x10000000000000000,
    ensures
        u64_of_i64(r as int) == v,
{
    if v < 0x8000000000000000 {
        v as i64
    } else {
        (v - 0x10000000000000000) as i64
    }
}

/// The big-endian bytes of a non-negative value, most significant first,
/// truncated to exactly `size` bytes.
pub open spec fn be_bytes(n: int, size: nat) -> Seq<u8>
    decreases size,
{
    if size == 0 {
        Seq::empty()
    } else {
        be_bytes(n / 256, (size - 1) as nat).push((n % 256) as u8)
    }
}

/// Appends the big-endian bytes of `n`, exactly `be_bytes`.
fn push_be(out: &mut Vec<u8>, n: u64, size: usize)
    ensures
        final(out)@ == old(out)@ + be_bytes(n as int, size as nat),
    decreases size,
{
    if size == 0 {
        proof {
            assert(final(out)@ =~= old(out)@ + be_bytes(n as int, 0));
        }
    } else {
        push_be(out, n / 256, size - 1);
        out.push((n % 256) as u8);
        proof {
            assert(final(out)@ =~= old(out)@ + be_bytes(n as int, size as nat));
        }
    }
}

/// The URL-data extension block sent after a request: the option
/// identifier byte 0x2 and the length byte as this client sends it,
/// followed by the raw bytes of the tracker URL's path fragment.
pub fn url_data_block(path: &str) -> (r: Vec<u8>)
    ensures
        r@ == seq![2u8, 12u8] + path.spec_bytes(),
{
    let mut block: Vec<u8> = Vec::new();
    block.push(2);
    block.push(12);
    let mut tail = path.as_bytes_vec();
    block.append(&mut tail);
    proof {
        assert(block@ =~= seq![2u8, 12u8] + path.spec_bytes());
    }
    block
}

/// The wire action codes: connect is 0, announce is 1.
pub open spec fn action_code(a: ConnectionRequestAction) -> int {
    match a {
        ConnectionRequestAction::CONNECT => 0,
        ConnectionRequestAction::ANNOUNCE => 1,
    }
}

/// The discriminator sent in requests and echoed in responses.
#[allow(non_camel_case_types)]
#[derive(Debug, Clone, Copy, PartialEq, Eq, Structural)]
pub enum ConnectionRequestAction {
    CONNECT,
    ANNOUNCE,
}

impl ConnectionRequestAction {
    /// The wire code of this action.
    pub fn get_code(&self) -> (r: i32)
        ensures
            r as int == action_code(*self),
    {
        match self {
            ConnectionRequestAction::CONNECT => 0,
            ConnectionRequestAction::ANNOUNCE => 1,
        }
    }

    /// The action a wire code names; codes other than 0 and 1 are
    /// rejected as an action mismatch.
    pub fn from_code(code: i32) -> (r: Result<ConnectionRequestAction, TrackerFailure>)
        ensures
            match r {
                Ok(a) => action_code(a) == code as int,
                Err(e) => code != 0 && code != 1 && e == TrackerFailure::ActionMismatch,
            },
    {
        if code == 0 {
            Ok(ConnectionRequestAction::CONNECT)
        } else if code == 1 {
            Ok(ConnectionRequestAction::ANNOUNCE)
        } else {
            Err(TrackerFailure::ActionMismatch)
        }
    }
}

/// The 16-byte connect request: magic protocol id, action, and a fresh
/// transaction id that the response must echo.
#[derive(Debug)]
pub struct ConnectionRequest {
    pub protocol_id: i64,
    pub action: ConnectionRequestAction,
    pub transaction_id: i32,
}

/// The exact 16-byte layout of a connect request.
pub open spec fn connect_req_bytes(r: ConnectionRequest) -> Seq<u8> {
    be_bytes(u64_of_i64(r.protocol_id as int), 8) + be_bytes(action_code(r.action), 4) + be_bytes(
        u32_of_i32(r.transaction_id as int),
        4,
    )
}

/// The fixed magic protocol id of the UDP tracker handshake.
pub const PROTOCOL_MAGIC: i64 = 0x41727101980;

impl ConnectionRequest {
    /// A request carrying the magic protocol id and the given transaction
    /// id, for callers that supply their own id sequence.
    pub fn with_transaction_id(action: ConnectionRequestAction, transaction_id: i32) -> (r:
        ConnectionRequest)
        ensures
            r.protocol_id == PROTOCOL_MAGIC,
            r.action == action,
            r.transaction_id == transaction_id,
    {
        ConnectionRequest { protocol_id: PROTOCOL_MAGIC, transaction_id, action }
    }

    /// A fresh request carrying the magic protocol id and a random
    /// transaction id.
    pub fn new(action: ConnectionRequestAction) -> (r: ConnectionRequest)
        ensures
            r.protocol_id == PROTOCOL_MAGIC,
            r.action == action,
            0 <= r.transaction_id < i32::MAX,
    {
        let transaction_id = random_below(i32::MAX);
        ConnectionRequest::with_transaction_id(action, transaction_id)
    }

    /// The 16 bytes of the request, big-endian fields in wire order.
    pub fn to_req_bytes(&self) -> (r: Vec<u8>)
        ensures
            r@ == connect_req_bytes(*self),
            r@.len() == 16,
    {
        let mut bytes: Vec<u8> = Vec::new();
        let pid = u64_of_i64_exec(self.protocol_id);
        push_be(&mut bytes, pid, 8);
        let code = self.action.get_code();
        push_be(&mut bytes, code as u64, 4);
        let tid = u32_of_i32_exec(self.transaction_id);
        push_be(&mut bytes, tid as u64, 4);
        proof {
            assert(bytes@ =~= connect_req_bytes(*self));
            lemma_be_bytes_len(u64_of_i64(self.protocol_id as int), 8);
            lemma_be_bytes_len(action_code(self.action), 4);
            lemma_be_bytes_len(u32_of_i32(self.transaction_id as int), 4);
        }
        bytes
    }
}

/// `be_bytes` always produces exactly `size` bytes.
pub proof fn lemma_be_bytes_len(n: int, size: nat)
    ensures
        be_bytes(n, size).len() == size,
    decreases size,
{
    if size > 0 {
        lemma_be_bytes_len(n / 256, (size - 1) as nat);
    }
}

/// The connect response: echoed action and transaction id, and the
/// tracker-issued connection id that authorizes a later announce.
#[derive(Debug, PartialEq, Eq)]
pub struct ConnectionResponse {
    pub action: ConnectionRequestAction,
    pub transaction_id: i32,
    pub connection_id: i64,
}

impl ConnectionResponse {
    /// Reads a connect response of `len` meaningful bytes: the fixed
    /// 16-byte layout of action, echoed transaction id and connection id,
    /// all big-endian. Fewer than 16 bytes is a short response; an action
    /// code other than connect is an action mismatch.
    pub fn from_res_bytes(bytes: &[u8], len: usize) -> (r: Result<
        ConnectionResponse,
        TrackerFailure,
    >)
        requires
            len <= bytes@.len(),
        ensures
            match r {
                Ok(res) => {
                    &&& len >= 16
                    &&& be_val(bytes@.subrange(0, 4)) == 0
                    &&& res.action == ConnectionRequestAction::CONNECT
                    &&& u32_of_i32(res.transaction_id as int) == be_val(bytes@.subrange(4, 8))
                    &&& u64_of_i64(res.connection_id as int) == be_val(bytes@.subrange(8, 16))
                },
                Err(TrackerFailure::ShortResponse) => len < 16,
                Err(TrackerFailure::ActionMismatch) => len >= 16 && be_val(
                    bytes@.subrange(0, 4),
                ) != 0,
                Err(_) => false,
            },
    {
        if len < 16 {
            return Err(TrackerFailure::ShortResponse);
        }
        let code_val = crate::tracker::utils::bytes_to_int(slice_subrange(bytes, 0, 4));
        proof {
            lemma_be_val_bound(bytes@.subrange(0, 4));
            assert(pow256(4) == 0x100000000) by {
                reveal_with_fuel(pow256, 5);
            }
        }
        if code_val != 0 {
            return Err(TrackerFailure::ActionMismatch);
        }
        let action = ConnectionRequestAction::CONNECT;
        let tid_val = crate::tracker::utils::bytes_to_int(slice_subrange(bytes, 4, 8));
        proof {
            lemma_be_val_bound(bytes@.subrange(4, 8));
            assert(pow256(4) == 0x100000000) by {
                reveal_with_fuel(pow256, 5);
            }
        }
        let transaction_id = i32_of_u32_val(tid_val);
        let cid_val = crate::tracker::utils::bytes_to_int(slice_subrange(bytes, 8, 16));
        proof {
            lemma_be_val_bound(bytes@.subrange(8, 16));
            assert(pow256(8) == 0x10000000000000000) by {
                reveal_with_fuel(pow256, 9);
            }
        }
        let connection_id = i64_of_u64_val(cid_val);
        Ok(ConnectionResponse { action, transaction_id, connection_id })
    }
}

/// The 98-byte announce request: connection id from the connect phase,
/// the torrent's info-hash, this client's peer id, progress counters,
/// and announce parameters.
pub struct AnnounceRequest {
    pub connection_id: i64,
    pub action: ConnectionRequestAction,
    pub transaction_id: i32,
    pub info_hash: Vec<u8>,
    pub peer_id: Vec<u8>,
    pub downloaded: i64,
    pub left: i64,
    pub uploaded: i64,
    pub event: i32,
    pub ip_address: i32,
    pub key: i32,
    pub num_want: i32,
    pub port: i16,
}

/// The exact wire layout of an announce request: 98 bytes when the two
/// 20-byte identifiers have their proper length.
pub open spec fn announce_req_bytes(r: AnnounceRequest) -> Seq<u8> {
    be_bytes(u64_of_i64(r.connection_id as int), 8) + be_bytes(action_code(r.action), 4)
        + be_bytes(u32_of_i32(r.transaction_id as int), 4) + r.info_hash@ + r.peer_id@ + be_bytes(
        u64_of_i64(r.downloaded as int),
        8,
    ) + be_bytes(u64_of_i64(r.left as int), 8) + be_bytes(u64_of_i64(r.uploaded as int), 8)
        + be_bytes(u32_of_i32(r.event as int), 4) + be_bytes(u32_of_i32(r.ip_address as int), 4)
        + be_bytes(u32_of_i32(r.key as int), 4) + be_bytes(u32_of_i32(r.num_want as int), 4)
        + be_bytes(u16_of_i16(r.port as int), 2)
}

/// The eight fixed lead bytes of this client's peer id.
pub open spec fn peer_id_prefix() -> Seq<u8> {
    seq![45u8, 80u8, 67u8, 48u8, 48u8, 48u8, 49u8, 45u8]
}

impl AnnounceRequest {
    /// An announce request from caller-supplied ids, for callers that
    /// supply their own id sequence: the given transaction id and key,
    /// and a peer id of the fixed eight-byte lead followed by the twelve
    /// little-endian bytes of `id_num`. The connection id is reused, the
    /// action fixed to announce, the tracker's default peer count asked
    /// for (`num_want` of -1), and zero progress reported.
    pub fn with_ids(
        connection_id: &i64,
        info_hash: Vec<u8>,
        transaction_id: i32,
        key: i32,
        id_num: i32,
    ) -> (r: AnnounceRequest)
        requires
            id_num >= 0,
        ensures
            r.connection_id == *connection_id,
            r.action == ConnectionRequestAction::ANNOUNCE,
            r.transaction_id == transaction_id,
            r.info_hash == info_hash,
            r.peer_id@ == peer_id_prefix() + crate::tracker::utils::le_bytes(id_num as int, 12),
            r.peer_id@.len() == 20,
            r.downloaded == 0 && r.left == 0 && r.uploaded == 0,
            r.event == 0 && r.ip_address == 0,
            r.key == key,
            r.num_want == -1,
            r.port == 0,
    {
        let mut id: Vec<u8> = Vec::new();
        id.push(45);
        id.push(80);
        id.push(67);
        id.push(48);
        id.push(48);
        id.push(48);
        id.push(49);
        id.push(45);
        let mut id_tail = int_to_bytes(id_num as i128, 12);
        id.append(&mut id_tail);
        proof {
            assert(id@ =~= peer_id_prefix() + crate::tracker::utils::le_bytes(id_num as int, 12));
        }
        AnnounceRequest {
            connection_id: *connection_id,
            action: ConnectionRequestAction::ANNOUNCE,
            transaction_id,
            info_hash,
            peer_id: id,
            downloaded: 0,
            left: 0,
            uploaded: 0,
            event: 0,
            ip_address: 0,
            key,
            num_want: -1,
            port: 0,
        }
    }

    /// A fresh announce request: as `with_ids`, with the transaction id,
    /// key and peer-id suffix drawn at random.
    pub fn new(connection_id: &i64, info_hash: Vec<u8>) -> (r: AnnounceRequest)
        ensures
            r.connection_id == *connection_id,
            r.action == ConnectionRequestAction::ANNOUNCE,
            0 <= r.transaction_id < i32::MAX,
            r.info_hash == info_hash,
            r.peer_id@.len() == 20,
            r.peer_id@.subrange(0, 8) == peer_id_prefix(),
            r.downloaded == 0 && r.left == 0 && r.uploaded == 0,
            r.event == 0 && r.ip_address == 0,
            0 <= r.key < 0xFFFFFF,
            r.num_want == -1,
            r.port == 0,
    {
        let id_num = random_below(0xFFF);
        let key = random_below(0xFFFFFF);
        let transaction_id = random_below(i32::MAX);
        let r = AnnounceRequest::with_ids(connection_id, info_hash, transaction_id, key, id_num);
        proof {
            assert(r.peer_id@.subrange(0, 8) =~= peer_id_prefix());
        }
        r
    }

    /// The request's bytes, big-endian fields in wire order: 98 bytes
    /// when the info-hash and peer id are 20 bytes each.
    pub fn to_req_bytes(&self) -> (r: Vec<u8>)
        ensures
            r@ == announce_req_bytes(*self),
            self.info_hash@.len() == 20 && self.peer_id@.len() == 20 ==> r@.len() == 98,
    {
        let mut bytes: Vec<u8> = Vec::new();
        let cid = u64_of_i64_exec(self.connection_id);
        push_be(&mut bytes, cid, 8);
        let code = self.action.get_code();
        push_be(&mut bytes, code as u64, 4);
        let tid = u32_of_i32_exec(self.transaction_id);
        push_be(&mut bytes, tid as u64, 4);
        bytes.extend_from_slice(self.info_hash.as_slice());
        bytes.extend_from_slice(self.peer_id.as_slice());
        let down = u64_of_i64_exec(self.downloaded);
        push_be(&mut bytes, down, 8);
        let left = u64_of_i64_exec(self.left);
        push_be(&mut bytes, left, 8);
        let up = u64_of_i64_exec(self.uploaded);
        push_be(&mut bytes, up, 8);
        let event = u32_of_i32_exec(self.event);
        push_be(&mut bytes, event as u64, 4);
        let ip = u32_of_i32_exec(self.ip_address);
        push_be(&mut bytes, ip as u64, 4);
        let key = u32_of_i32_exec(self.key);
        push_be(&mut bytes, key as u64, 4);
        let want = u32_of_i32_exec(self.num_want);
        push_be(&mut bytes, want as u64, 4);
        let port = u16_of_i16_exec(self.port);
        push_be(&mut bytes, port as u64, 2);
        proof {
            assert(bytes@ =~= announce_req_bytes(*self));
            lemma_be_bytes_len(u64_of_i64(self.connection_id as int), 8);
            lemma_be_bytes_len(action_code(self.action), 4);
            lemma_be_bytes_len(u32_of_i32(self.transaction_id as int), 4);
            lemma_be_bytes_len(u64_of_i64(self.downloaded as int), 8);
            lemma_be_bytes_len(u64_of_i64(self.left as int), 8);
            lemma_be_bytes_len(u64_of_i64(self.uploaded as int), 8);
            lemma_be_bytes_len(u32_of_i32(self.event as int), 4);
            lemma_be_bytes_len(u32_of_i32(self.ip_address as int), 4);
            lemma_be_bytes_len(u32_of_i32(self.key as int), 4);
            lemma_be_bytes_len(u32_of_i32(self.num_want as int), 4);
            lemma_be_bytes_len(u16_of_i16(self.port as int), 2);
        }
        bytes
    }
}

/// One peer offered by the tracker: four raw IPv4 octets and a port.
#[derive(Debug, PartialEq, Eq)]
pub struct PeerEndpoint {
    pub ipv4: Vec<u8>,
    pub port: u16,
}

/// The decimal character for one digit value.
pub open spec fn digit_char(d: int) -> char {
    if d == 0 {
        '0'
    } else if d == 1 {
        '1'
    } else if d == 2 {
        '2'
    } else if d == 3 {
        '3'
    } else if d == 4 {
        '4'
    } else if d == 5 {
        '5'
    } else if d == 6 {
        '6'
    } else if d == 7 {
        '7'
    } else if d == 8 {
        '8'
    } else {
        '9'
    }
}

/// The decimal characters of a non-negative value, no leading zeros.
pub open spec fn dec_chars(n: int) -> Seq<char>
    decreases n,
{
    if n < 10 {
        seq![digit_char(n)]
    } else {
        dec_chars(n / 10).push(digit_char(n % 10))
    }
}

/// Dotted-decimal rendering of four IPv4 octets.
pub open spec fn dotted_quad(s: Seq<u8>) -> Seq<char> {
    dec_chars(s[0] as int) + seq!['.'] + dec_chars(s[1] as int) + seq!['.'] + dec_chars(
        s[2] as int,
    ) + seq!['.'] + dec_chars(s[3] as int)
}

/// Appends one decimal digit character.
fn push_digit(out: &mut String, d: u8)
    requires
        d < 10,
    ensures
        final(out)@ == old(out)@ + seq![digit_char(d as int)],
{
    proof {
        reveal_strlit("0");
        reveal_strlit("1");
        reveal_strlit("2");
        reveal_strlit("3");
        reveal_strlit("4");
        reveal_strlit("5");
        reveal_strlit("6");
        reveal_strlit("7");
        reveal_strlit("8");
        reveal_strlit("9");
    }
    if d == 0 {
        out.append("0");
    } else if d == 1 {
        out.append("1");
    } else if d == 2 {
        out.append("2");
    } else if d == 3 {
        out.append("3");
    } else if d == 4 {
        out.append("4");
    } else if d == 5 {
        out.append("5");
    } else if d == 6 {
        out.append("6");
    } else if d == 7 {
        out.append("7");
    } else if d == 8 {
        out.append("8");
    } else {
        out.append("9");
    }
}

/// Appends the decimal rendering of one octet.
fn push_dec_u8(out: &mut String, n: u8)
    ensures
        final(out)@ == old(out)@ + dec_chars(n as int),
    decreases n,
{
    if n < 10 {
        push_digit(out, n);
    } else {
        push_dec_u8(out, n / 10);
        push_digit(out, n % 10);
        proof {
            assert(final(out)@ =~= old(out)@ + dec_chars(n as int));
        }
    }
}

impl PeerEndpoint {
    /// The peer's address in dotted-decimal form.
    pub fn ipv4_string(&self) -> (r: String)
        requires
            self.ipv4@.len() == 4,
        ensures
            r@ == dotted_quad(self.ipv4@),
    {
        let mut out = String::new();
        proof {
            reveal_strlit(".");
        }
        push_dec_u8(&mut out, self.ipv4[0]);
        out.append(".");
        push_dec_u8(&mut out, self.ipv4[1]);
        out.append(".");
        push_dec_u8(&mut out, self.ipv4[2]);
        out.append(".");
        push_dec_u8(&mut out, self.ipv4[3]);
        proof {
            assert(out@ =~= dotted_quad(self.ipv4@));
        }
        out
    }
}

/// The announce response: echoed action and transaction id, the interval
/// until the next announce, swarm counters, and the peer list.
#[derive(Debug, PartialEq, Eq)]
pub struct AnnounceResponse {
    pub action: ConnectionRequestAction,
    pub transaction_id: i32,
    pub interval: i32,
    pub leechers: i32,
    pub seeders: i32,
    pub peers: Vec<PeerEndpoint>,
}

impl AnnounceResponse {
    /// Reads an announce response of `len` meaningful bytes. An action
    /// code of 3 is the tracker's own error shape: its message (bytes 8
    /// to the end) comes back verbatim, never a peer list. Otherwise the
    /// fixed 20-byte header is required, and each full 6-byte run after
    /// it is one peer (4 IPv4 octets, then the port); a shorter trailing
    /// remainder is ignored, so exactly `(len - 20) / 6` peers decode.
    pub fn from_bytes(bytes: &[u8], len: usize) -> (r: Result<AnnounceResponse, TrackerFailure>)
        requires
            len <= bytes@.len(),
        ensures
            match r {
                Ok(res) => {
                    let code = be_val(bytes@.subrange(0, 4));
                    &&& len >= 20
                    &&& (code == 0 || code == 1)
                    &&& action_code(res.action) == code
                    &&& u32_of_i32(res.transaction_id as int) == be_val(bytes@.subrange(4, 8))
                    &&& u32_of_i32(res.interval as int) == be_val(bytes@.subrange(8, 12))
                    &&& u32_of_i32(res.leechers as int) == be_val(bytes@.subrange(12, 16))
                    &&& u32_of_i32(res.seeders as int) == be_val(bytes@.subrange(16, 20))
                    &&& res.peers@.len() == (len - 20) / 6
                    &&& forall|i: int|
                        0 <= i < res.peers@.len() ==> (#[trigger] res.peers@[i]).ipv4@ == bytes@
                            .subrange(20 + 6 * i, 24 + 6 * i) && res.peers@[i].port as int == be_val(
                            bytes@.subrange(24 + 6 * i, 26 + 6 * i),
                        )
                },
                Err(TrackerFailure::TrackerError(msg)) => len >= 4 && be_val(
                    bytes@.subrange(0, 4),
                ) == 3 && msg@ == (if len >= 8 {
                    bytes@.subrange(8, len as int)
                } else {
                    Seq::<u8>::empty()
                }),
                Err(TrackerFailure::ShortResponse) => len < 4 || (be_val(bytes@.subrange(0, 4))
                    != 3 && len < 20),
                Err(TrackerFailure::ActionMismatch) => {
                    let code = be_val(bytes@.subrange(0, 4));
                    len >= 20 && code != 0 && code != 1 && code != 3
                },
                Err(_) => false,
            },
    {
        if len < 4 {
            return Err(TrackerFailure::ShortResponse);
        }
        let code_val = crate::tracker::utils::bytes_to_int(slice_subrange(bytes, 0, 4));
        proof {
            lemma_be_val_bound(bytes@.subrange(0, 4));
            assert(pow256(4) == 0x100000000) by {
                reveal_with_fuel(pow256, 5);
            }
        }
        if code_val == 3 {
            let msg: Vec<u8> = if len >= 8 {
                slice_to_vec(slice_subrange(bytes, 8, len))
            } else {
                Vec::new()
            };
            return Err(TrackerFailure::TrackerError(msg));
        }
        if len < 20 {
            return Err(TrackerFailure::ShortResponse);
        }
        if code_val != 0 && code_val != 1 {
            return Err(TrackerFailure::ActionMismatch);
        }
        let action = if code_val == 0 {
            ConnectionRequestAction::CONNECT
        } else {
            ConnectionRequestAction::ANNOUNCE
        };
        let tid_val = crate::tracker::utils::bytes_to_int(slice_subrange(bytes, 4, 8));
        let interval_val = crate::tracker::utils::bytes_to_int(slice_subrange(bytes, 8, 12));
        let leech_val = crate::tracker::utils::bytes_to_int(slice_subrange(bytes, 12, 16));
        let seed_val = crate::tracker::utils::bytes_to_int(slice_subrange(bytes, 16, 20));
        proof {
            lemma_be_val_bound(bytes@.subrange(4, 8));
            lemma_be_val_bound(bytes@.subrange(8, 12));
            lemma_be_val_bound(bytes@.subrange(12, 16));
            lemma_be_val_bound(bytes@.subrange(16, 20));
            assert(pow256(4) == 0x100000000) by {
                reveal_with_fuel(pow256, 5);
            }
        }
        let transaction_id = i32_of_u32_val(tid_val);
        let interval = i32_of_u32_val(interval_val);
        let leechers = i32_of_u32_val(leech_val);
        let seeders = i32_of_u32_val(seed_val);
        let mut peers: Vec<PeerEndpoint> = Vec::new();
        let mut offset: usize = 20;
        while offset <= len - 6
            invariant
                20 <= offset,
                20 <= len <= bytes@.len(),
                offset == 20 + 6 * peers@.len(),
                offset <= len,
                forall|i: int|
                    0 <= i < peers@.len() ==> (#[trigger] peers@[i]).ipv4@ == bytes@.subrange(
                        20 + 6 * i,
                        24 + 6 * i,
                    ) && peers@[i].port as int == be_val(bytes@.subrange(24 + 6 * i, 26 + 6 * i)),
            decreases len - offset,
        {
            let ip = slice_to_vec(slice_subrange(bytes, offset, offset + 4));
            let port_val = crate::tracker::utils::bytes_to_int(
                slice_subrange(bytes, offset + 4, offset + 6),
            );
            proof {
                lemma_be_val_bound(bytes@.subrange(offset as int + 4, offset as int + 6));
                assert(pow256(2) == 0x10000) by {
                    reveal_with_fuel(pow256, 3);
                }
            }
            let port = port_val as u16;
            peers.push(PeerEndpoint { ipv4: ip, port });
            offset += 6;
        }
        proof {
            let c = peers@.len() as int;
            assert(6 * c <= len - 20 < 6 * (c + 1));
            assert(c == (len - 20) / 6) by (nonlinear_arith)
                requires
                    6 * c <= len - 20 < 6 * (c + 1),
            ;
        }
        Ok(
            AnnounceResponse {
                action,
                transaction_id,
                interval,
                leechers,
                seeders,
                peers,
            },
        )
    }
}

} // verus!
