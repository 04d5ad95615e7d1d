//! Trackers: the announce requests, over HTTP and UDP, and how their replies are read.
use vstd::prelude::*;
use vstd::utf8::*;
use crate::bencode::{BencodeValue, SpecValue, dict_get, spec_decode, try_decode_bencoded_value, utf8_string};
use crate::bytes::{
    be_u32_bytes, be_u64_bytes, be_u32_value, be_u64_value, push_be_u32, push_be_u64, read_be_u32,
    read_be_u64,
};
use crate::torrent::Torrent;

verus! {

/// Whether `s` begins with `p`.
pub open spec fn chars_start_with(s: Seq<char>, p: Seq<char>) -> bool {
    p.len() <= s.len() && s.take(p.len() as int) == p
}

/// Whether `s` begins with `p` (`str::starts_with`).
fn starts_with(s: &str, p: &str) -> (r: bool)
    ensures
        r == chars_start_with(s@, p@),
{
    let n = p.unicode_len();
    let m = s.unicode_len();
    if n > m {
        return false;
    }
    let mut i: usize = 0;
    while i < n
        invariant
            0 <= i <= n <= m,
            n == p@.len(),
            m == s@.len(),
            forall|j: int| 0 <= j < i ==> s@[j] == p@[j],
        decreases n - i,
    {
        if s.get_char(i) != p.get_char(i) {
            assert(s@.take(n as int)[i as int] != p@[i as int]);
            return false;
        }
        i = i + 1;
    }
    assert(s@.take(n as int) =~= p@);
    true
}

/// The kind of tracker that an announce URL names.
#[derive(Debug, PartialEq, Eq, Structural, Clone, Copy)]
pub enum TrackerKind {
    Http,
    Udp,
    Unrecognized,
}

/// The first position of character `c` in `s`.
pub open spec fn spec_find_char(s: Seq<char>, c: char) -> Option<int>
    decreases s.len(),
{
    if s.len() == 0 {
        None
    } else if s[0] == c {
        Some(0)
    } else {
        match spec_find_char(s.drop_first(), c) {
            Some(i) => Some(i + 1),
            None => None,
        }
    }
}

proof fn lemma_find_char_skip(s: Seq<char>, c: char, i: int)
    requires
        0 <= i <= s.len(),
        forall|j: int| 0 <= j < i ==> s[j] != c,
    ensures
        spec_find_char(s, c) == (match spec_find_char(s.skip(i), c) {
            Some(x) => Some(x + i),
            None => None,
        }),
    decreases i,
{
    if i == 0 {
        assert(s.skip(0) =~= s);
    } else {
        assert(s.drop_first().skip(i - 1) =~= s.skip(i));
        lemma_find_char_skip(s.drop_first(), c, i - 1);
    }
}

/// The host and port of a UDP tracker: what follows `udp://` up to the first `/`,
/// or the whole URL when it does not begin with `udp://`.
pub open spec fn spec_udp_address(url: Seq<char>) -> Seq<char> {
    if chars_start_with(url, "udp://"@) {
        let rest = url.skip("udp://"@.len() as int);
        match spec_find_char(rest, '/') {
            Some(i) => rest.take(i),
            None => rest,
        }
    } else {
        url
    }
}

/// The host and port of a UDP tracker URL.
pub fn udp_tracker_address<'a>(url: &'a str) -> (r: &'a str)
    ensures
        r@ == spec_udp_address(url@),
{
    let prefix = "udp://";
    if !starts_with(url, prefix) {
        return url;
    }
    let n = prefix.unicode_len();
    let m = url.unicode_len();
    let mut i: usize = n;
    while i < m && url.get_char(i) != '/'
        invariant
            n <= i <= m,
            n == prefix@.len(),
            m == url@.len(),
            forall|j: int| n <= j < i ==> url@[j] != '/',
        decreases m - i,
    {
        i = i + 1;
    }
    let ghost rest = url@.skip(n as int);
    proof {
        assert forall|j: int| 0 <= j < i - n implies rest[j] != '/' by {
            assert(rest[j] == url@[j + n]);
        }
        lemma_find_char_skip(rest, '/', i - n);
        assert(rest.skip(i - n) =~= url@.skip(i as int));
        assert(url@.subrange(n as int, i as int) =~= rest.take(i - n));
        assert(url@.subrange(n as int, m as int) =~= rest);
    }
    url.substring_char(n, i)
}

impl Torrent {
    /// The kind of tracker of the announce URL: HTTP for URLs that begin with `http`,
    /// UDP for those that begin with `udp`.
    pub fn tracker_kind(&self) -> (r: TrackerKind)
        ensures
            r == (if chars_start_with(self.url@, "http"@) {
                TrackerKind::Http
            } else if chars_start_with(self.url@, "udp"@) {
                TrackerKind::Udp
            } else {
                TrackerKind::Unrecognized
            }),
    {
        if starts_with(self.url.as_str(), "http") {
            TrackerKind::Http
        } else if starts_with(self.url.as_str(), "udp") {
            TrackerKind::Udp
        } else {
            TrackerKind::Unrecognized
        }
    }
}

/// How many times a UDP tracker is asked before it counts as unreachable.
pub const TRACKER_ATTEMPTS: u32 = 5;

/// The magic number that opens a UDP tracker connect request.
pub const UDP_PROTOCOL_ID: u64 = 0x41727101980;

/// A UDP tracker connect request of transaction `tid`.
pub open spec fn spec_udp_connect_request(tid: u32) -> Seq<u8> {
    be_u64_bytes(UDP_PROTOCOL_ID) + be_u32_bytes(0) + be_u32_bytes(tid)
}

/// The 16 bytes of a UDP tracker connect request of transaction `tid`.
pub fn udp_connect_request(tid: u32) -> (r: Vec<u8>)
    ensures
        r@ == spec_udp_connect_request(tid),
{
    let mut msg: Vec<u8> = Vec::with_capacity(16);
    push_be_u64(&mut msg, UDP_PROTOCOL_ID);
    push_be_u32(&mut msg, 0);
    push_be_u32(&mut msg, tid);
    assert(msg@ =~= spec_udp_connect_request(tid));
    msg
}

/// Calls `rand::random::<u32>()`; nothing is promised of the number.
#[verifier::external_body]
fn random_u32() -> u32 {
    rand::random::<u32>()
}

/// A UDP tracker connect request of a fresh random transaction, and that transaction.
pub fn udp_connect() -> (r: (Vec<u8>, u32))
    ensures
        r.0@ == spec_udp_connect_request(r.1),
{
    let tid = random_u32();
    (udp_connect_request(tid), tid)
}

/// The connection id in a reply to the connect request of transaction `tid`: a reply
/// of 16 bytes, action 0 and the same transaction. `None` for any other reply, which
/// is ignored.
pub fn udp_connection_id(res: &[u8], bytes: usize, tid: u32) -> (r: Option<u64>)
    requires
        16 <= res@.len(),
    ensures
        r is Some <==> (bytes == 16 && be_u32_value(res@.subrange(0, 4)) == 0 && be_u32_value(
            res@.subrange(4, 8),
        ) == tid),
        r matches Some(id) ==> id == be_u64_value(res@.subrange(8, 16)),
{
    if bytes == 16 && read_be_u32(res, 0) == 0 && read_be_u32(res, 4) == tid {
        Some(read_be_u64(res, 8))
    } else {
        None
    }
}

/// A UDP announce request: connection `conn_id`, action 1, transaction `tid`, the info
/// hash, the peer id, 0 downloaded, `left` left, 0 uploaded, event 2 (started), no
/// IP, key `key`, as many peers as the tracker likes (-1), port 6881.
pub open spec fn spec_udp_announce_request(
    conn_id: u64,
    tid: u32,
    info_hash: Seq<u8>,
    peer_id: Seq<u8>,
    left: u64,
    key: u32,
) -> Seq<u8> {
    be_u64_bytes(conn_id) + be_u32_bytes(1) + be_u32_bytes(tid) + info_hash + peer_id + be_u64_bytes(0)
        + be_u64_bytes(left) + be_u64_bytes(0) + be_u32_bytes(2) + be_u32_bytes(0) + be_u32_bytes(key)
        + be_u32_bytes(0xFFFFFFFF) + seq![0x1Au8, 0xE1u8]
}

impl Torrent {
    /// The 98 bytes of a UDP announce request for this torrent, with the whole length
    /// left.
    pub fn udp_announce_request(&self, conn_id: u64, tid: u32, key: u32, peer_id: &str) -> (r: Vec<u8>)
        requires
            encode_utf8(peer_id@).len() == 20,
        ensures
            r@ == spec_udp_announce_request(
                conn_id,
                tid,
                self.info_hash@,
                encode_utf8(peer_id@),
                self.length as u64,
                key,
            ),
    {
        let mut msg: Vec<u8> = Vec::with_capacity(98);
        push_be_u64(&mut msg, conn_id);
        push_be_u32(&mut msg, 1);
        push_be_u32(&mut msg, tid);
        let mut i: usize = 0;
        let ghost start = msg@;
        while i < 20
            invariant
                0 <= i <= 20,
                msg@ == start + self.info_hash@.take(i as int),
            decreases 20 - i,
        {
            msg.push(self.info_hash[i]);
            assert(self.info_hash@.take(i + 1) =~= self.info_hash@.take(i as int).push(self.info_hash@[i as int]));
            i = i + 1;
        }
        assert(self.info_hash@.take(20) =~= self.info_hash@);
        let id = peer_id.as_bytes();
        let mut j: usize = 0;
        let ghost mid = msg@;
        while j < id.len()
            invariant
                0 <= j <= id@.len(),
                msg@ == mid + id@.take(j as int),
            decreases id@.len() - j,
        {
            msg.push(id[j]);
            assert(id@.take(j + 1) =~= id@.take(j as int).push(id@[j as int]));
            j = j + 1;
        }
        assert(id@.take(id@.len() as int) =~= id@);
        push_be_u64(&mut msg, 0);
        push_be_u64(&mut msg, self.length as u64);
        push_be_u64(&mut msg, 0);
        push_be_u32(&mut msg, 2);
        push_be_u32(&mut msg, 0);
        push_be_u32(&mut msg, key);
        push_be_u32(&mut msg, 0xFFFFFFFF);
        msg.push(0x1A);
        msg.push(0xE1);
        assert(msg@ =~= spec_udp_announce_request(
            conn_id,
            tid,
            self.info_hash@,
            encode_utf8(peer_id@),
            self.length as u64,
            key,
        ));
        msg
    }

    /// A UDP announce request of a fresh random transaction and key, and that
    /// transaction.
    pub fn udp_announce(&self, conn_id: u64, peer_id: &str) -> (r: (Vec<u8>, u32))
        requires
            encode_utf8(peer_id@).len() == 20,
        ensures
            exists|key: u32|
                r.0@ == #[trigger] spec_udp_announce_request(
                    conn_id,
                    r.1,
                    self.info_hash@,
                    encode_utf8(peer_id@),
                    self.length as u64,
                    key,
                ),
    {
        let tid = random_u32();
        let key = random_u32();
        let msg = self.udp_announce_request(conn_id, tid, key, peer_id);
        let r = (msg, tid);
        assert(r.0@ == spec_udp_announce_request(
            conn_id,
            r.1,
            self.info_hash@,
            encode_utf8(peer_id@),
            self.length as u64,
            key,
        ));
        r
    }
}

/// A peer's IPv4 address and port.
#[derive(Debug, PartialEq, Eq, Clone, Copy)]
pub struct PeerAddr {
    pub ip: [u8; 4],
    pub port: u16,
}

/// The peers of a compact peer list: six bytes each, four of address and two of port,
/// most significant first; trailing bytes short of six are ignored.
pub open spec fn peers_match(v: Seq<PeerAddr>, b: Seq<u8>) -> bool {
    &&& v.len() == b.len() / 6
    &&& forall|k: int|
        0 <= k < v.len() ==> {
            &&& (#[trigger] v[k]).ip@ == b.subrange(6 * k, 6 * k + 4)
            &&& v[k].port == b[6 * k + 4] * 256 + b[6 * k + 5]
        }
}

/// The peers of a compact peer list.
pub fn compact_peers(b: &[u8]) -> (r: Vec<PeerAddr>)
    ensures
        peers_match(r@, b@),
{
    let n = b.len();
    let count = n / 6;
    let mut out: Vec<PeerAddr> = Vec::new();
    let mut k: usize = 0;
    while k < count
        invariant
            0 <= k <= count,
            n == b@.len(),
            count == n / 6,
            out@.len() == k,
            forall|q: int|
                0 <= q < k ==> {
                    &&& (#[trigger] out@[q]).ip@ == b@.subrange(6 * q, 6 * q + 4)
                    &&& out@[q].port == b@[6 * q + 4] * 256 + b@[6 * q + 5]
                },
        decreases count - k,
    {
        let at = 6 * k;
        let ip = [b[at], b[at + 1], b[at + 2], b[at + 3]];
        let port = (b[at + 4] as u16) * 256 + (b[at + 5] as u16);
        assert(ip@ =~= b@.subrange(6 * k, 6 * k + 4));
        out.push(PeerAddr { ip, port });
        k = k + 1;
    }
    out
}

/// What a UDP tracker answered to an announce request.
#[derive(Debug, PartialEq, Eq)]
pub enum AnnounceReply {
    /// Action 1 of our transaction: the peers it lists.
    Peers(Vec<PeerAddr>),
    /// Action 3 of our transaction: the tracker refused.
    TrackerError,
    /// Any other reply, which is ignored.
    Ignored,
    /// Action 1 of our transaction in fewer than 20 bytes, too short to hold the
    /// header of a peer list.
    Malformed,
}

/// Whether `r` is what the first `bytes` bytes of `res` answer to the announce request
/// of transaction `tid`: action and transaction in the first 8 bytes, peers from byte 20.
pub open spec fn announce_reply_matches(res: Seq<u8>, bytes: int, tid: u32, r: AnnounceReply) -> bool {
    let action = be_u32_value(res.subrange(0, 4));
    let rtid = be_u32_value(res.subrange(4, 8));
    if action == 1 && rtid == tid {
        if bytes < 20 {
            r == AnnounceReply::Malformed
        } else {
            r matches AnnounceReply::Peers(v) && peers_match(v@, res.subrange(20, bytes))
        }
    } else if action == 3 && rtid == tid {
        r == AnnounceReply::TrackerError
    } else {
        r == AnnounceReply::Ignored
    }
}

/// Reads the first `bytes` bytes of `res` as the reply to the announce request of
/// transaction `tid`: action and transaction in the first 8 bytes, peers from byte 20.
pub fn udp_announce_reply(res: &[u8], bytes: usize, tid: u32) -> (r: AnnounceReply)
    requires
        8 <= res@.len(),
        bytes <= res@.len(),
    ensures
        announce_reply_matches(res@, bytes as int, tid, r),
{
    let action = read_be_u32(res, 0);
    let rtid = read_be_u32(res, 4);
    if action == 1 && rtid == tid {
        if bytes < 20 {
            AnnounceReply::Malformed
        } else {
            AnnounceReply::Peers(compact_peers(&res[20..bytes]))
        }
    } else if action == 3 && rtid == tid {
        AnnounceReply::TrackerError
    } else {
        AnnounceReply::Ignored
    }
}

/// The compact peer list of an HTTP tracker reply: the binary `peers` of the top
/// dictionary, or none when there is no such entry; `None` for a malformed reply:
/// one that does not decode, or a peer list whose length is not a
/// multiple of six.
pub open spec fn spec_http_peers(body: Seq<u8>) -> Option<Seq<u8>> {
    match spec_decode(body) {
        None => None,
        Some((v, _)) => match v {
            SpecValue::Dict(d) => match dict_get(d, "peers"@) {
                Some(n) => match n.value {
                    SpecValue::Bin(p) => if p.len() % 6 == 0 {
                        Some(p)
                    } else {
                        None
                    },
                    _ => Some(seq![]),
                },
                None => Some(seq![]),
            },
            _ => Some(seq![]),
        },
    }
}

/// The peers that an HTTP tracker reply lists.
pub fn http_peers(body: &[u8]) -> (r: Option<Vec<PeerAddr>>)
    ensures
        match spec_http_peers(body@) {
            None => r is None,
            Some(p) => r matches Some(v) && peers_match(v@, p),
        },
{
    let (node, _) = match try_decode_bencoded_value(body) {
        Some(x) => x,
        None => return None,
    };
    if let BencodeValue::Dict(d) = &node.value {
        if let Some(n) = d.get("peers") {
            if let BencodeValue::Binary(peers) = &n.value {
                if peers.len() % 6 != 0 {
                    return None;
                }
                return Some(compact_peers(peers.as_slice()));
            }
        }
    }
    let empty: Vec<PeerAddr> = Vec::new();
    Some(empty)
}


/// A lower-case hexadecimal digit of `n` (below 16), as ASCII.
pub open spec fn hex_digit(n: u8) -> u8 {
    if n < 10 {
        (48 + n) as u8
    } else {
        (87 + n) as u8
    }
}

/// Each byte as `%` and two lower-case hexadecimal digits (`format!("%{:02x}", b)`).
pub open spec fn percent_bytes(b: Seq<u8>) -> Seq<u8>
    decreases b.len(),
{
    if b.len() == 0 {
        seq![]
    } else {
        percent_bytes(b.drop_last()) + seq![37u8, hex_digit(b.last() / 16), hex_digit(b.last() % 16)]
    }
}

/// The decimal digits of `n`, as ASCII.
pub open spec fn decimal_bytes(n: nat) -> Seq<u8>
    decreases n,
{
    if n < 10 {
        seq![(48 + n) as u8]
    } else {
        decimal_bytes(n / 10) + seq![(48 + n % 10) as u8]
    }
}

/// An integer as `Display` writes it: a `-` for a negative one, then its digits.
pub open spec fn int_text(i: int) -> Seq<u8> {
    if i < 0 {
        seq![45u8] + decimal_bytes((-i) as nat)
    } else {
        decimal_bytes(i as nat)
    }
}

/// ASCII bytes as characters.
pub open spec fn ascii_chars(b: Seq<u8>) -> Seq<char> {
    Seq::new(b.len(), |i: int| b[i] as char)
}

pub open spec fn all_ascii(b: Seq<u8>) -> bool {
    forall|i: int| 0 <= i < b.len() ==> #[trigger] b[i] < 128
}

/// The announce URL of an HTTP tracker: the info hash percent-encoded, the peer id,
/// port 6881, nothing up- or downloaded, the whole length left, compact peer lists.
pub open spec fn spec_http_announce_url(url: Seq<char>, info_hash: Seq<u8>, peer_id: Seq<char>, length: int) -> Seq<char> {
    url + "?info_hash="@ + ascii_chars(percent_bytes(info_hash)) + "&peer_id="@ + peer_id
        + "&port=6881&uploaded=0&downloaded=0&left="@ + ascii_chars(int_text(length)) + "&compact=1"@
}

/// Appends the decimal digits of `n`.
fn push_decimal(out: &mut Vec<u8>, n: u64)
    ensures
        final(out)@ == old(out)@ + decimal_bytes(n as nat),
        all_ascii(old(out)@) ==> all_ascii(final(out)@),
    decreases n,
{
    if n >= 10 {
        push_decimal(out, n / 10);
    }
    let ghost mid = out@;
    out.push(48 + (n % 10) as u8);
    assert(out@ =~= old(out)@ + decimal_bytes(n as nat));
    assert(all_ascii(old(out)@) ==> all_ascii(out@)) by {
        if all_ascii(old(out)@) {
            assert forall|i: int| 0 <= i < out@.len() implies #[trigger] out@[i] < 128 by {
                if i < mid.len() {
                    assert(out@[i] == mid[i]);
                }
            }
        }
    }
}

/// Appends an integer as `Display` writes it.
fn push_int(out: &mut Vec<u8>, i: isize)
    ensures
        final(out)@ == old(out)@ + int_text(i as int),
        all_ascii(old(out)@) ==> all_ascii(final(out)@),
{
    if i < 0 {
        out.push(45);
        let ghost mid = out@;
        assert(all_ascii(old(out)@) ==> all_ascii(mid));
        let mag: u64 = ((-(i + 1)) as u64) + 1;
        push_decimal(out, mag);
        assert(out@ =~= old(out)@ + int_text(i as int));
    } else {
        push_decimal(out, i as u64);
    }
}

/// Appends `%` and the two lower-case hexadecimal digits of `b`.
fn push_percent(out: &mut Vec<u8>, b: u8)
    ensures
        final(out)@ == old(out)@ + seq![37u8, hex_digit(b / 16), hex_digit(b % 16)],
        all_ascii(old(out)@) ==> all_ascii(final(out)@),
{
    let hi = b / 16;
    let lo = b % 16;
    out.push(37);
    out.push(if hi < 10 { 48 + hi } else { 87 + hi });
    out.push(if lo < 10 { 48 + lo } else { 87 + lo });
    assert(out@ =~= old(out)@ + seq![37u8, hex_digit(b / 16), hex_digit(b % 16)]);
}

/// The text of ASCII bytes.
fn ascii_string(b: &[u8]) -> (s: String)
    requires
        all_ascii(b@),
    ensures
        s@ == ascii_chars(b@),
{
    let ghost c = ascii_chars(b@);
    proof {
        assert(is_ascii_chars(c));
        is_ascii_chars_encode_utf8(c);
        assert(encode_utf8(c) =~= b@);
        encode_utf8_valid_utf8(c);
        encode_utf8_decode_utf8(c);
    }
    let r = utf8_string(b);
    r.unwrap()
}

impl Torrent {
    /// The announce URL to ask an HTTP tracker for peers.
    pub fn http_announce_url(&self, peer_id: &str) -> (r: String)
        ensures
            r@ == spec_http_announce_url(self.url@, self.info_hash@, peer_id@, self.length as int),
    {
        let mut s = self.url.clone();
        s.append("?info_hash=");
        let mut enc: Vec<u8> = Vec::new();
        let mut i: usize = 0;
        while i < 20
            invariant
                0 <= i <= 20,
                enc@ == percent_bytes(self.info_hash@.take(i as int)),
                all_ascii(enc@),
            decreases 20 - i,
        {
            push_percent(&mut enc, self.info_hash[i]);
            assert(self.info_hash@.take(i + 1).drop_last() =~= self.info_hash@.take(i as int));
            i = i + 1;
        }
        assert(self.info_hash@.take(20) =~= self.info_hash@);
        let enc_text = ascii_string(enc.as_slice());
        s.append(enc_text.as_str());
        s.append("&peer_id=");
        s.append(peer_id);
        s.append("&port=6881&uploaded=0&downloaded=0&left=");
        let mut num: Vec<u8> = Vec::new();
        push_int(&mut num, self.length);
        let num_text = ascii_string(num.as_slice());
        s.append(num_text.as_str());
        s.append("&compact=1");
        s
    }
}


/// How one attempt of a UDP tracker exchange ended: a reply of this many bytes, or a
/// read that timed out.
#[derive(Debug, PartialEq, Eq, Structural, Clone, Copy)]
pub enum UdpAttempt {
    Reply(usize),
    TimedOut,
}

/// What the connect exchange with a UDP tracker does next.
#[derive(Debug, PartialEq, Eq, Structural, Clone, Copy)]
pub enum ConnectStep {
    /// The tracker gave this connection id.
    Connected(u64),
    /// Send the request again.
    Retry,
    /// No usable reply came in `TRACKER_ATTEMPTS` attempts.
    Unreachable,
}

/// What the announce exchange with a UDP tracker does next.
#[derive(Debug, PartialEq, Eq)]
pub enum AnnounceStep {
    /// The tracker answered: peers, a refusal, or a reply too short for its peers.
    Answered(AnnounceReply),
    /// Send the request again.
    Retry,
    /// No usable reply came in `TRACKER_ATTEMPTS` attempts.
    Unreachable,
}

/// Whether a UDP tracker exchange asks again after attempt `attempt` (counted from
/// 0) brought no usable reply: while fewer than `TRACKER_ATTEMPTS` attempts were made.
pub open spec fn asks_again(attempt: u32) -> bool {
    attempt + 1 < TRACKER_ATTEMPTS
}

/// Whether an attempt brought a reply of 16 bytes with action 0 and transaction `tid`,
/// the reply to a connect request.
pub open spec fn connect_answered(outcome: UdpAttempt, res: Seq<u8>, tid: u32) -> bool {
    match outcome {
        UdpAttempt::Reply(bytes) => bytes == 16 && be_u32_value(res.subrange(0, 4)) == 0 && be_u32_value(
            res.subrange(4, 8),
        ) == tid,
        UdpAttempt::TimedOut => false,
    }
}

/// Whether an attempt brought a reply of transaction `tid` with action 1 or 3, an
/// answer to an announce request.
pub open spec fn announce_answered(outcome: UdpAttempt, res: Seq<u8>, tid: u32) -> bool {
    let action = be_u32_value(res.subrange(0, 4));
    match outcome {
        UdpAttempt::Reply(_) => be_u32_value(res.subrange(4, 8)) == tid && (action == 1 || action == 3),
        UdpAttempt::TimedOut => false,
    }
}

/// The connect exchange after attempt `attempt` (counted from 0) of transaction `tid`
/// ended in `outcome`, a reply being in `res`: connected on a reply that gives a
/// connection id; otherwise the reply is ignored and the request is sent again while
/// fewer than `TRACKER_ATTEMPTS` attempts were made.
pub fn udp_connect_step(attempt: u32, outcome: UdpAttempt, res: &[u8], tid: u32) -> (r: ConnectStep)
    requires
        16 <= res@.len(),
    ensures
        if connect_answered(outcome, res@, tid) {
            r matches ConnectStep::Connected(id) && id == be_u64_value(res@.subrange(8, 16))
        } else {
            r == (if asks_again(attempt) {
                ConnectStep::Retry
            } else {
                ConnectStep::Unreachable
            })
        },
{
    if let UdpAttempt::Reply(bytes) = outcome {
        if let Some(conn_id) = udp_connection_id(res, bytes, tid) {
            return ConnectStep::Connected(conn_id);
        }
    }
    if attempt < TRACKER_ATTEMPTS - 1 {
        ConnectStep::Retry
    } else {
        ConnectStep::Unreachable
    }
}

/// The announce exchange after attempt `attempt` (counted from 0) of transaction `tid`
/// ended in `outcome`, a reply being in `res`: a reply of our transaction with action
/// 1 or 3 is the answer; any other is ignored, and the request is sent again while
/// fewer than `TRACKER_ATTEMPTS` attempts were made.
pub fn udp_announce_step(attempt: u32, outcome: UdpAttempt, res: &[u8], tid: u32) -> (r: AnnounceStep)
    requires
        8 <= res@.len(),
        outcome matches UdpAttempt::Reply(bytes) ==> bytes <= res@.len(),
    ensures
        if announce_answered(outcome, res@, tid) {
            match outcome {
                UdpAttempt::Reply(bytes) => r matches AnnounceStep::Answered(a) && announce_reply_matches(
                    res@,
                    bytes as int,
                    tid,
                    a,
                ),
                UdpAttempt::TimedOut => false,
            }
        } else {
            r == (if asks_again(attempt) {
                AnnounceStep::Retry
            } else {
                AnnounceStep::Unreachable
            })
        },
{
    if let UdpAttempt::Reply(bytes) = outcome {
        let reply = udp_announce_reply(res, bytes, tid);
        if !matches!(reply, AnnounceReply::Ignored) {
            return AnnounceStep::Answered(reply);
        }
    }
    if attempt < TRACKER_ATTEMPTS - 1 {
        AnnounceStep::Retry
    } else {
        AnnounceStep::Unreachable
    }
}

} // verus!
