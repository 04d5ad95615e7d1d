use rbittorrent::torrent::Torrent;
use rbittorrent::tracker::{
    compact_peers, http_peers, udp_announce_reply, udp_announce_step, udp_connect,
    udp_connect_request, udp_connect_step, udp_connection_id, udp_tracker_address, AnnounceReply,
    AnnounceStep, ConnectStep, PeerAddr, TrackerKind, UdpAttempt,
};

fn torrent(url: &str, length: isize) -> Torrent {
    let mut info_hash = [0u8; 20];
    for (i, b) in info_hash.iter_mut().enumerate() {
        *b = (i as u8) * 13;
    }
    Torrent { url: url.to_string(), length, piece_length: 16, pieces: vec![], info_hash }
}

#[test]
fn tracker_kinds() {
    assert_eq!(torrent("http://a/announce", 1).tracker_kind(), TrackerKind::Http);
    assert_eq!(torrent("https://a/announce", 1).tracker_kind(), TrackerKind::Http);
    assert_eq!(torrent("udp://a:80", 1).tracker_kind(), TrackerKind::Udp);
    assert_eq!(torrent("wss://a", 1).tracker_kind(), TrackerKind::Unrecognized);
    assert_eq!(torrent("ht", 1).tracker_kind(), TrackerKind::Unrecognized);
}

#[test]
fn udp_addresses() {
    assert_eq!(udp_tracker_address("udp://tracker.example:1337/announce"), "tracker.example:1337");
    assert_eq!(udp_tracker_address("udp://tracker.example:1337"), "tracker.example:1337");
    assert_eq!(udp_tracker_address("udp:/x"), "udp:/x");
    assert_eq!(udp_tracker_address("udp://é:1/x"), "é:1");
}

#[test]
fn udp_connect_messages() {
    let req = udp_connect_request(0x01020304);
    assert_eq!(req, vec![0, 0, 0x04, 0x17, 0x27, 0x10, 0x19, 0x80, 0, 0, 0, 0, 1, 2, 3, 4]);
    let (req, tid) = udp_connect();
    assert_eq!(req, udp_connect_request(tid));
    let mut res = [0u8; 16];
    res[4..8].copy_from_slice(&tid.to_be_bytes());
    res[8..16].copy_from_slice(&0x1122334455667788u64.to_be_bytes());
    assert_eq!(udp_connection_id(&res, 16, tid), Some(0x1122334455667788));
    assert_eq!(udp_connection_id(&res, 15, tid), None);
    assert_eq!(udp_connection_id(&res, 16, tid.wrapping_add(1)), None);
    res[3] = 1;
    assert_eq!(udp_connection_id(&res, 16, tid), None);
}

#[test]
fn udp_announce_message() {
    let t = torrent("udp://a:1", -1);
    let msg = t.udp_announce_request(0x0102030405060708, 9, 10, "avknevkjn43t34tn389f");
    assert_eq!(msg.len(), 98);
    assert_eq!(&msg[0..8], &[1, 2, 3, 4, 5, 6, 7, 8]);
    assert_eq!(&msg[8..12], &1u32.to_be_bytes());
    assert_eq!(&msg[12..16], &9u32.to_be_bytes());
    assert_eq!(&msg[16..36], &t.info_hash);
    assert_eq!(&msg[36..56], b"avknevkjn43t34tn389f");
    assert_eq!(&msg[56..64], &0u64.to_be_bytes());
    assert_eq!(&msg[64..72], &u64::MAX.to_be_bytes());
    assert_eq!(&msg[72..80], &0u64.to_be_bytes());
    assert_eq!(&msg[80..84], &2u32.to_be_bytes());
    assert_eq!(&msg[84..88], &0u32.to_be_bytes());
    assert_eq!(&msg[88..92], &10u32.to_be_bytes());
    assert_eq!(&msg[92..96], &(-1i32).to_be_bytes());
    assert_eq!(&msg[96..98], &6881u16.to_be_bytes());
    let (msg2, tid) = t.udp_announce(0x0102030405060708, "avknevkjn43t34tn389f");
    assert_eq!(&msg2[12..16], &tid.to_be_bytes());
    assert_eq!(&msg2[16..88], &msg[16..88]);
}

#[test]
fn udp_announce_replies() {
    let mut res = [0u8; 1024];
    res[0..4].copy_from_slice(&1u32.to_be_bytes());
    res[4..8].copy_from_slice(&77u32.to_be_bytes());
    res[20..26].copy_from_slice(&[10, 0, 0, 1, 0x1A, 0xE1]);
    res[26..32].copy_from_slice(&[192, 168, 1, 2, 0, 80]);
    assert_eq!(
        udp_announce_reply(&res, 32, 77),
        AnnounceReply::Peers(vec![
            PeerAddr { ip: [10, 0, 0, 1], port: 6881 },
            PeerAddr { ip: [192, 168, 1, 2], port: 80 }
        ])
    );
    assert_eq!(udp_announce_reply(&res, 35, 77), udp_announce_reply(&res, 32, 77));
    assert_eq!(udp_announce_reply(&res, 19, 77), AnnounceReply::Malformed);
    assert_eq!(udp_announce_reply(&res, 32, 78), AnnounceReply::Ignored);
    res[0..4].copy_from_slice(&3u32.to_be_bytes());
    assert_eq!(udp_announce_reply(&res, 32, 77), AnnounceReply::TrackerError);
}

#[test]
fn compact_peer_lists() {
    assert_eq!(compact_peers(&[1, 2, 3, 4, 1, 0, 9]), vec![PeerAddr { ip: [1, 2, 3, 4], port: 256 }]);
    assert_eq!(compact_peers(&[]), vec![]);
}

#[test]
fn http_peer_lists() {
    let mut body = b"d8:intervali1800e5:peers12:".to_vec();
    body.extend_from_slice(&[10, 0, 0, 1, 0x1A, 0xE1, 0xC0, 0xA8, 0, 1, 0xFF, 0xFF]);
    body.push(b'e');
    assert_eq!(
        http_peers(&body),
        Some(vec![
            PeerAddr { ip: [10, 0, 0, 1], port: 6881 },
            PeerAddr { ip: [192, 168, 0, 1], port: 65535 }
        ])
    );
    // No peers entry, text peers, or not a dictionary: no peers.
    assert_eq!(http_peers(b"d8:intervali1ee"), Some(vec![]));
    assert_eq!(http_peers(b"d5:peers6:abcdefe"), Some(vec![]));
    assert_eq!(http_peers(b"i1e"), Some(vec![]));
    // Undecodable replies and peer lists of a length not a multiple of six.
    assert_eq!(http_peers(b"d5:peers"), None);
    let mut odd = b"d5:peers7:".to_vec();
    odd.extend_from_slice(&[0xff; 7]);
    odd.push(b'e');
    assert_eq!(http_peers(&odd), None);
}

#[test]
fn http_announce_urls() {
    let t = torrent("http://tracker.example/announce", 822083584);
    let url = t.http_announce_url("avknevkjn43t34tn389f");
    let hash: String = t.info_hash.iter().map(|b| format!("%{:02x}", b)).collect();
    assert_eq!(
        url,
        format!(
            "http://tracker.example/announce?info_hash={hash}&peer_id=avknevkjn43t34tn389f&port=6881&uploaded=0&downloaded=0&left=822083584&compact=1"
        )
    );
    assert!(url.contains("%0d%1a"));
    let neg = torrent("http://t", -42).http_announce_url("p");
    assert!(neg.ends_with("&left=-42&compact=1"));
    let min = torrent("http://t", isize::MIN).http_announce_url("p");
    assert!(min.ends_with(&format!("&left={}&compact=1", isize::MIN)));
    let zero = torrent("http://t", 0).http_announce_url("p");
    assert!(zero.ends_with("&left=0&compact=1"));
}

#[test]
fn udp_connect_retries() {
    let mut res = [0u8; 16];
    res[4..8].copy_from_slice(&9u32.to_be_bytes());
    res[8..16].copy_from_slice(&0x1122334455667788u64.to_be_bytes());
    assert_eq!(udp_connect_step(0, UdpAttempt::Reply(16), &res, 9), ConnectStep::Connected(0x1122334455667788));
    assert_eq!(udp_connect_step(4, UdpAttempt::Reply(16), &res, 9), ConnectStep::Connected(0x1122334455667788));
    assert_eq!(udp_connect_step(0, UdpAttempt::Reply(15), &res, 9), ConnectStep::Retry);
    assert_eq!(udp_connect_step(0, UdpAttempt::Reply(16), &res, 8), ConnectStep::Retry);
    assert_eq!(udp_connect_step(3, UdpAttempt::TimedOut, &res, 9), ConnectStep::Retry);
    assert_eq!(udp_connect_step(4, UdpAttempt::TimedOut, &res, 9), ConnectStep::Unreachable);
}

#[test]
fn udp_announce_retries() {
    let mut res = [0u8; 1024];
    res[0..4].copy_from_slice(&1u32.to_be_bytes());
    res[4..8].copy_from_slice(&77u32.to_be_bytes());
    res[20..26].copy_from_slice(&[10, 0, 0, 1, 0x1A, 0xE1]);
    assert_eq!(
        udp_announce_step(0, UdpAttempt::Reply(26), &res, 77),
        AnnounceStep::Answered(AnnounceReply::Peers(vec![PeerAddr { ip: [10, 0, 0, 1], port: 6881 }]))
    );
    assert_eq!(udp_announce_step(0, UdpAttempt::Reply(10), &res, 77), AnnounceStep::Answered(AnnounceReply::Malformed));
    assert_eq!(udp_announce_step(0, UdpAttempt::Reply(26), &res, 76), AnnounceStep::Retry);
    assert_eq!(udp_announce_step(4, UdpAttempt::Reply(26), &res, 76), AnnounceStep::Unreachable);
    assert_eq!(udp_announce_step(2, UdpAttempt::TimedOut, &res, 77), AnnounceStep::Retry);
    res[0..4].copy_from_slice(&3u32.to_be_bytes());
    assert_eq!(udp_announce_step(4, UdpAttempt::Reply(26), &res, 77), AnnounceStep::Answered(AnnounceReply::TrackerError));
}
