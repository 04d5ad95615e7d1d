use rbittorrent::download::{
    interested_message, request_message, Download, DownloadState, MessageId, PeerSession,
    UnknownMessageId, BLOCK_SIZE,
};
use rbittorrent::torrent::Torrent;

fn torrent(length: isize, piece_length: isize) -> Torrent {
    Torrent { url: String::new(), length, piece_length, pieces: vec![], info_hash: [0; 20] }
}

#[test]
fn peer_bitfield_bits() {
    let mut p = PeerSession { bitfield: vec![0b1010_0000], choked: true };
    assert!(p.has_piece(0));
    assert!(!p.has_piece(1));
    assert!(p.has_piece(2));
    assert!(!p.has_piece(8));
    p.update_have(9);
    assert_eq!(p.bitfield, vec![0b1010_0000, 0b0100_0000]);
    assert!(p.has_piece(9));
    assert!(p.has_piece(0));
    assert!(!p.has_piece(10));
    p.update_have(1);
    assert_eq!(p.bitfield[0], 0b1110_0000);
    p.update_have(30);
    assert_eq!(p.bitfield.len(), 4);
    assert!(p.has_piece(30));
    assert!(p.choked);
}

#[test]
fn state_tracks_pieces() {
    let mut s = DownloadState::new(10);
    assert_eq!(s.completed, vec![0, 0]);
    assert_eq!(s.in_progress, vec![0, 0]);
    assert!(!s.is_piece_in_progress(3));
    s.set_in_progress(3, true);
    assert!(s.is_piece_in_progress(3));
    s.set_complete(3);
    assert!(s.is_piece_complete(3));
    assert!(!s.is_piece_in_progress(3));
    s.set_complete(9);
    assert_eq!(s.count_complete(), 2);
    assert!(!s.is_complete(10));
    assert!(s.is_complete(2));
    s.set_in_progress(4, true);
    s.set_in_progress(4, false);
    assert!(!s.is_piece_in_progress(4));
    // Pieces past the state are left alone.
    s.set_complete(100);
    s.set_in_progress(100, true);
    assert!(!s.is_piece_complete(100));
    assert!(!s.is_piece_in_progress(100));
    assert_eq!(DownloadState::new(16).completed.len(), 2);
    assert_eq!(DownloadState::new(17).completed.len(), 3);
    assert_eq!(DownloadState::new(0).completed.len(), 0);
}

#[test]
fn all_pieces_complete() {
    let mut s = DownloadState::new(3);
    for i in 0..3 {
        assert!(!s.is_complete(3));
        s.set_complete(i);
    }
    assert!(s.is_complete(3));
}

#[test]
fn message_ids() {
    assert_eq!(MessageId::try_from(0), Ok(MessageId::Choke));
    assert_eq!(MessageId::try_from(4), Ok(MessageId::Have));
    assert_eq!(MessageId::try_from(7), Ok(MessageId::Piece));
    assert_eq!(MessageId::try_from(8), Ok(MessageId::Cancel));
    assert_eq!(MessageId::try_from(9), Err(UnknownMessageId { value: 9 }));
    assert_eq!(MessageId::Bitfield.code(), 5);
    for b in 0..=8u8 {
        assert_eq!(MessageId::try_from(b).unwrap().code(), b);
    }
}

#[test]
fn wire_messages() {
    assert_eq!(interested_message(), vec![0, 0, 0, 1, 2]);
    assert_eq!(
        request_message(13, 6, 2, 16384, 16384),
        vec![0, 0, 0, 13, 6, 0, 0, 0, 2, 0, 0, 64, 0, 0, 0, 64, 0]
    );
}

#[test]
fn block_sizes() {
    assert_eq!(Download::calc_block_size(40000, 0), BLOCK_SIZE);
    assert_eq!(Download::calc_block_size(40000, 32768), 40000 - 32768);
    assert_eq!(Download::calc_block_size(40000, 40000), 0);
}

#[test]
fn claims_first_free_piece_once() {
    let d = Download::new(torrent(100, 10), false);
    let mut s = DownloadState::new(10);
    let peer = PeerSession { bitfield: vec![0b0111_0000, 0], choked: false };
    s.set_complete(1);
    assert_eq!(d.claim_piece(&mut s, &peer), Some(2));
    assert!(s.is_piece_in_progress(2));
    let other = PeerSession { bitfield: vec![0b0111_0000, 0], choked: false };
    assert_eq!(d.claim_piece(&mut s, &other), Some(3));
    assert_eq!(d.claim_piece(&mut s, &other), None);
    s.set_in_progress(2, false);
    assert_eq!(d.claim_piece(&mut s, &other), Some(2));
}

#[test]
fn claims_only_existing_pieces() {
    let d = Download::new(torrent(20, 10), false);
    let mut s = DownloadState::new(2);
    let peer = PeerSession { bitfield: vec![0b0011_1111], choked: false };
    assert_eq!(d.claim_piece(&mut s, &peer), None);
    assert_eq!(s.in_progress, vec![0]);
}

#[test]
fn completing_counts_each_piece_once() {
    let mut s = DownloadState::new(10);
    assert_eq!(s.count_complete(), 0);
    s.set_complete(3);
    assert_eq!(s.count_complete(), 1);
    s.set_complete(3);
    assert_eq!(s.count_complete(), 1);
    s.set_complete(16);
    assert_eq!(s.count_complete(), 1);
    assert_eq!(s.completed, vec![0b0001_0000, 0]);
    s.set_complete(9);
    assert_eq!(s.count_complete(), 2);
}

#[test]
fn completing_every_piece_in_any_order() {
    let mut s = DownloadState::new(10);
    for i in [9, 0, 4, 4, 1, 8, 2, 7, 3, 5] {
        s.set_complete(i);
        assert!(!s.is_complete(10));
    }
    s.set_complete(6);
    assert!(s.is_complete(10));
    assert_eq!(s.count_complete(), 10);
}

#[test]
fn no_piece_is_both_complete_and_claimed() {
    let d = Download::new(torrent(30, 10), false);
    let mut s = DownloadState::new(3);
    let peer = PeerSession { bitfield: vec![0xff], choked: false };
    assert_eq!(d.claim_piece(&mut s, &peer), Some(0));
    s.set_complete(0);
    assert_eq!(d.claim_piece(&mut s, &peer), Some(1));
    for i in 0..3 {
        assert!(!(s.is_piece_complete(i) && s.is_piece_in_progress(i)));
    }
    assert!(s.is_piece_complete(0) && s.is_piece_in_progress(1));
}
