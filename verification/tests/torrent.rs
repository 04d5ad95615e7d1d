use rbittorrent::download::Download;
use rbittorrent::torrent::Torrent;
use sha1::{Digest, Sha1};

fn piece_data(n: usize, len: usize) -> Vec<u8> {
    (0..len).map(|i| (i * 7 + n * 13) as u8).collect()
}

/// A torrent of 100 bytes in pieces of 40, whose piece hashes are those of `piece_data`.
fn sample_torrent() -> (Vec<u8>, Vec<u8>) {
    let mut pieces = Vec::new();
    for (n, len) in [(0usize, 40usize), (1, 40), (2, 20)] {
        let mut h = Sha1::digest(piece_data(n, len)).to_vec();
        h[0] = 0xff; // keep the hash list from being valid UTF-8
        pieces.extend_from_slice(&h);
    }
    let mut info = Vec::new();
    info.extend_from_slice(b"d6:lengthi100e12:piece lengthi40e6:pieces60:");
    info.extend_from_slice(&pieces);
    info.push(b'e');
    let mut data = Vec::new();
    data.extend_from_slice(b"d8:announce31:http://tracker.example/announce4:info");
    data.extend_from_slice(&info);
    data.push(b'e');
    (data, info)
}

#[test]
fn reads_torrent_fields() {
    let (data, info) = sample_torrent();
    let t = Torrent::new(&data);
    assert_eq!(t.url, "http://tracker.example/announce");
    assert_eq!(t.length, 100);
    assert_eq!(t.piece_length, 40);
    assert_eq!(t.pieces.len(), 60);
    let expected: [u8; 20] = Sha1::digest(&info).into();
    assert_eq!(t.info_hash, expected);
    assert_ne!(t.info_hash, [0u8; 20]);
}

#[test]
fn refuses_incomplete_torrents() {
    assert!(Torrent::try_new(b"i1e").is_none());
    assert!(Torrent::try_new(b"d4:infode").is_none());
    assert!(Torrent::try_new(b"d8:announce3:abc4:infod6:lengthi1eee").is_none());
    // Text piece hashes are not accepted.
    assert!(Torrent::try_new(
        b"d8:announce3:abc4:infod6:lengthi1e12:piece lengthi1e6:pieces2:abee"
    )
    .is_none());
    assert!(Torrent::try_new(&sample_torrent().0).is_some());
}

#[test]
fn piece_counts_and_lengths() {
    let (data, _) = sample_torrent();
    let t = Torrent::new(&data);
    assert_eq!(t.count_pieces(), 3);
    assert_eq!(t.calc_piece_length(0), 40);
    assert_eq!(t.calc_piece_length(1), 40);
    assert_eq!(t.calc_piece_length(2), 20);
    assert!(t.is_piece_length_defined(2));
}

#[test]
fn readme_example_counts() {
    let t = Torrent {
        url: "http://bttracker.debian.org:6969/announce".to_string(),
        length: 822083584,
        piece_length: 262144,
        pieces: vec![],
        info_hash: [0; 20],
    };
    assert_eq!(t.count_pieces(), 3136);
    assert_eq!(t.calc_piece_length(3135), 262144);
}

#[test]
fn count_pieces_edge_cases() {
    let mk = |length: isize, piece_length: isize| Torrent {
        url: String::new(),
        length,
        piece_length,
        pieces: vec![],
        info_hash: [0; 20],
    };
    assert_eq!(mk(0, 10).count_pieces(), 0);
    assert_eq!(mk(1, 10).count_pieces(), 1);
    assert_eq!(mk(10, 10).count_pieces(), 1);
    assert_eq!(mk(11, 10).count_pieces(), 2);
    assert_eq!(mk(-5, 10).count_pieces(), 0);
    assert_eq!(mk(-7, -2).count_pieces(), 4);
    assert_eq!(mk(5, 0).count_pieces(), u32::MAX);
    assert_eq!(mk(0, 0).count_pieces(), 0);
    assert_eq!(mk(1 << 50, 1).count_pieces(), u32::MAX);
    assert!(!mk(0, 10).is_piece_length_defined(0));
    // The last piece would need more bytes than the length holds.
    let t = mk(5, 1 << 31);
    assert_eq!(t.count_pieces(), 1);
    assert!(t.is_piece_length_defined(0));
    assert_eq!(t.calc_piece_length(0), 5);
}

#[test]
fn count_pieces_matches_float_division() {
    for (length, piece_length) in [(1isize, 3isize), (262145, 262144), (999, 7), (-9, 4), (9, -4), (-9, -4)] {
        let t = Torrent {
            url: String::new(),
            length,
            piece_length,
            pieces: vec![],
            info_hash: [0; 20],
        };
        let expected = (length as f64 / piece_length as f64).ceil() as u32;
        assert_eq!(t.count_pieces(), expected);
    }
}

#[test]
fn handshake_layout() {
    let (data, _) = sample_torrent();
    let t = Torrent::new(&data);
    let msg = t.handshake_message("avknevkjn43t34tn389f");
    assert_eq!(msg.len(), 68);
    assert_eq!(msg[0], 19);
    assert_eq!(&msg[1..20], b"BitTorrent protocol");
    assert_eq!(&msg[20..28], &[0u8; 8]);
    assert_eq!(&msg[28..48], &t.info_hash);
    assert_eq!(&msg[48..68], b"avknevkjn43t34tn389f");
}

#[test]
fn verify_piece_checks_hashes() {
    let mut t = Torrent::new(&sample_torrent().0);
    let mut pieces = Vec::new();
    for (n, len) in [(0usize, 40usize), (1, 40), (2, 20)] {
        pieces.extend_from_slice(&Sha1::digest(piece_data(n, len)));
    }
    t.pieces = pieces;
    let d = Download::new(t, false);
    assert!(d.verify_piece(0, &piece_data(0, 40)));
    assert!(d.verify_piece(2, &piece_data(2, 20)));
    assert!(!d.verify_piece(1, &piece_data(0, 40)));
    assert!(!d.verify_piece(2, &piece_data(2, 19)));
    assert_eq!(d.peer_id, "avknevkjn43t34tn389f");
}
