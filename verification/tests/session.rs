use rbittorrent::download::{Download, DownloadState, MessageId, BLOCK_SIZE};
use rbittorrent::session::{frame_kind, ClaimOutcome, FrameKind, MessageOutcome, SessionState};
use rbittorrent::torrent::Torrent;
use sha1::{Digest, Sha1};

fn download(length: isize, piece_length: isize) -> Download {
    download_with_hashes(length, piece_length, vec![])
}

fn download_with_hashes(length: isize, piece_length: isize, pieces: Vec<u8>) -> Download {
    Download::new(Torrent { url: String::new(), length, piece_length, pieces, info_hash: [0; 20] }, false)
}

/// A session of a single-piece download of 100 bytes that has received all of them.
fn received_piece(d: &Download, state: &mut DownloadState, data: &[u8]) -> SessionState {
    let mut s = SessionState::new();
    s.on_message(MessageId::Bitfield, vec![0x80], state);
    s.on_message(MessageId::Unchoke, vec![], state);
    assert_eq!(s.claim(d, state), ClaimOutcome::Started(0));
    assert_eq!(s.on_message(MessageId::Piece, piece_payload(0, 0, data), state), MessageOutcome::PieceReady(0));
    s
}

fn piece_payload(index: u32, begin: u32, data: &[u8]) -> Vec<u8> {
    let mut p = Vec::new();
    p.extend_from_slice(&index.to_be_bytes());
    p.extend_from_slice(&begin.to_be_bytes());
    p.extend_from_slice(data);
    p
}

#[test]
fn nothing_happens_while_choked() {
    let d = download(100_000, 50_000);
    let mut state = DownloadState::new(2);
    let mut s = SessionState::new();
    assert_eq!(s.claim(&d, &mut state), ClaimOutcome::Idle);
    assert_eq!(s.block_requests().unwrap(), vec![]);
}

#[test]
fn full_piece_cycle() {
    let data: Vec<u8> = (0..40_000u32).map(|i| i as u8).collect();
    let mut hashes = Sha1::digest(&data).to_vec();
    hashes.extend_from_slice(&[0; 20]);
    let d = download_with_hashes(50_000, 40_000, hashes);
    let mut state = DownloadState::new(2);
    let mut s = SessionState::new();
    assert_eq!(s.on_message(MessageId::Bitfield, vec![0b1100_0000], &mut state), MessageOutcome::Continue);
    assert_eq!(s.on_message(MessageId::Unchoke, vec![], &mut state), MessageOutcome::Continue);
    assert!(!s.peer.choked);
    assert_eq!(s.claim(&d, &mut state), ClaimOutcome::Started(0));
    assert!(state.is_piece_in_progress(0));
    assert_eq!(s.piece_length, 40_000);
    assert_eq!(s.buf.len(), 40_000);
    let reqs = s.block_requests().unwrap();
    assert_eq!(reqs, vec![(0, 0, BLOCK_SIZE), (0, BLOCK_SIZE, BLOCK_SIZE), (0, 2 * BLOCK_SIZE, 40_000 - 2 * BLOCK_SIZE)]);
    assert_eq!(s.requested, 40_000);
    assert_eq!(s.block_requests().unwrap(), vec![]);
    assert_eq!(
        s.on_message(MessageId::Piece, piece_payload(0, 0, &data[..30_000]), &mut state),
        MessageOutcome::Continue
    );
    assert_eq!(
        s.on_message(MessageId::Piece, piece_payload(0, 30_000, &data[30_000..]), &mut state),
        MessageOutcome::PieceReady(0)
    );
    assert_eq!(s.buf, data);
    assert!(s.finish_piece(&d, true, &mut state));
    assert!(state.is_piece_complete(0));
    assert!(s.peer.has_piece(0));
    assert_eq!(state.count_complete(), 1);
    assert!(!state.is_piece_in_progress(0));
    assert!(s.piece_index.is_none());
    assert_eq!(s.claim(&d, &mut state), ClaimOutcome::Started(1));
    assert_eq!(s.piece_length, 10_000);
}

#[test]
fn requests_pipeline_up_to_the_limit() {
    let d = download(1 << 22, 1 << 22);
    let mut state = DownloadState::new(1);
    let mut s = SessionState::new();
    s.on_message(MessageId::Have, 0u32.to_be_bytes().to_vec(), &mut state);
    s.on_message(MessageId::Unchoke, vec![], &mut state);
    assert_eq!(s.claim(&d, &mut state), ClaimOutcome::Started(0));
    let reqs = s.block_requests().unwrap();
    assert_eq!(reqs.len(), 10);
    for (k, r) in reqs.iter().enumerate() {
        assert_eq!(*r, (0, k as u32 * BLOCK_SIZE, BLOCK_SIZE));
    }
    assert_eq!(s.block_requests().unwrap(), vec![]);
}

#[test]
fn choke_releases_piece() {
    let d = download(100, 100);
    let mut state = DownloadState::new(1);
    let mut s = SessionState::new();
    s.on_message(MessageId::Bitfield, vec![0x80], &mut state);
    s.on_message(MessageId::Unchoke, vec![], &mut state);
    assert_eq!(s.claim(&d, &mut state), ClaimOutcome::Started(0));
    assert_eq!(s.on_message(MessageId::Choke, vec![], &mut state), MessageOutcome::Continue);
    assert!(s.peer.choked);
    assert!(s.piece_index.is_none());
    assert!(!state.is_piece_in_progress(0));
}

#[test]
fn failed_piece_is_released() {
    let d = download_with_hashes(100, 100, vec![0; 20]);
    let mut state = DownloadState::new(1);
    let mut s = SessionState::new();
    s.on_message(MessageId::Bitfield, vec![0x80], &mut state);
    s.on_message(MessageId::Unchoke, vec![], &mut state);
    s.claim(&d, &mut state);
    assert!(!s.finish_piece(&d, false, &mut state));
    assert!(!state.is_piece_in_progress(0));
    assert!(!state.is_piece_complete(0));
    let mut other = SessionState::new();
    other.on_message(MessageId::Bitfield, vec![0x80], &mut state);
    other.on_message(MessageId::Unchoke, vec![], &mut state);
    assert_eq!(other.claim(&d, &mut state), ClaimOutcome::Started(0));
    other.abort(&mut state);
    assert!(!state.is_piece_in_progress(0));
}

#[test]
fn malformed_messages() {
    let d = download(100, 100);
    let mut state = DownloadState::new(1);
    let mut s = SessionState::new();
    assert_eq!(s.on_message(MessageId::Have, vec![0, 0], &mut state), MessageOutcome::Malformed);
    s.on_message(MessageId::Bitfield, vec![0x80], &mut state);
    s.on_message(MessageId::Unchoke, vec![], &mut state);
    s.claim(&d, &mut state);
    assert_eq!(s.on_message(MessageId::Piece, vec![0, 0, 0], &mut state), MessageOutcome::Malformed);
    assert_eq!(
        s.on_message(MessageId::Piece, piece_payload(0, 90, &[1; 20]), &mut state),
        MessageOutcome::Malformed
    );
    assert_eq!(s.received, 0);
    // More data than was asked for.
    assert_eq!(
        s.on_message(MessageId::Piece, piece_payload(0, 0, &[1; 50]), &mut state),
        MessageOutcome::Continue
    );
    assert_eq!(s.block_requests(), None);
}

#[test]
fn undefined_last_piece_length() {
    let d = download(5, 1 << 31);
    let mut state = DownloadState::new(1);
    let mut s = SessionState::new();
    s.on_message(MessageId::Bitfield, vec![0x80], &mut state);
    s.on_message(MessageId::Unchoke, vec![], &mut state);
    assert_eq!(s.claim(&d, &mut state), ClaimOutcome::Started(0));
    assert_eq!(s.piece_length, 5);
    let d = download(3_000_000_000, 1_000_000_000);
    assert!(d.torrent.is_piece_length_defined(2));
    let d = download(-1, 1);
    let mut state = DownloadState::new(1);
    let mut s = SessionState::new();
    s.on_message(MessageId::Bitfield, vec![0x80], &mut state);
    s.on_message(MessageId::Unchoke, vec![], &mut state);
    assert_eq!(s.claim(&d, &mut state), ClaimOutcome::Idle);
}

#[test]
fn frames() {
    assert_eq!(frame_kind(0), FrameKind::KeepAlive);
    assert_eq!(frame_kind(1), FrameKind::IdOnly);
    assert_eq!(frame_kind(13), FrameKind::WithPayload(12));
}

#[test]
fn claim_of_a_piece_without_a_length() {
    // The length is cut to 5 in `u32`, less than two full pieces before the last.
    let d = download((1isize << 32) + 5, 1 << 31);
    assert_eq!(d.torrent.count_pieces(), 3);
    assert!(!d.torrent.is_piece_length_defined(2));
    let mut state = DownloadState::new(3);
    let mut s = SessionState::new();
    s.on_message(MessageId::Bitfield, vec![0b0010_0000], &mut state);
    s.on_message(MessageId::Unchoke, vec![], &mut state);
    assert_eq!(s.claim(&d, &mut state), ClaimOutcome::LengthUndefined(2));
    assert!(state.is_piece_in_progress(2));
    assert!(s.piece_index.is_none());
}

#[test]
fn piece_with_wrong_digest_is_not_completed() {
    let data = [7u8; 100];
    let d = download_with_hashes(100, 100, Sha1::digest([8u8; 100]).to_vec());
    let mut state = DownloadState::new(1);
    let mut s = received_piece(&d, &mut state, &data);
    assert!(!s.finish_piece(&d, true, &mut state));
    assert!(!state.is_piece_complete(0));
    assert!(!state.is_piece_in_progress(0));
    assert_eq!(s.peer.bitfield, vec![0x80]);
    assert!(s.piece_index.is_none());
    assert!(!state.is_complete(1));
}

#[test]
fn unstored_piece_is_not_completed() {
    let data = [7u8; 100];
    let d = download_with_hashes(100, 100, Sha1::digest(data).to_vec());
    let mut state = DownloadState::new(1);
    let mut s = received_piece(&d, &mut state, &data);
    assert!(!s.finish_piece(&d, false, &mut state));
    assert!(!state.is_piece_complete(0));
    assert!(!state.is_piece_in_progress(0));
    let mut s = received_piece(&d, &mut state, &data);
    assert!(s.finish_piece(&d, true, &mut state));
    assert!(state.is_piece_complete(0));
    assert!(state.is_complete(1));
}

#[test]
fn requests_resume_as_blocks_arrive() {
    let d = download(1 << 22, 1 << 22);
    let mut state = DownloadState::new(1);
    let mut s = SessionState::new();
    s.on_message(MessageId::Have, 0u32.to_be_bytes().to_vec(), &mut state);
    s.on_message(MessageId::Unchoke, vec![], &mut state);
    assert_eq!(s.claim(&d, &mut state), ClaimOutcome::Started(0));
    assert_eq!(s.block_requests().unwrap().len(), 10);
    let block = vec![1u8; BLOCK_SIZE as usize];
    assert_eq!(s.on_message(MessageId::Piece, piece_payload(0, 0, &block), &mut state), MessageOutcome::Continue);
    let reqs = s.block_requests().unwrap();
    assert_eq!(reqs, vec![(0, 10 * BLOCK_SIZE, BLOCK_SIZE)]);
    for (_, begin, length) in reqs {
        assert!(begin - s.received < 10 * BLOCK_SIZE);
        assert!(begin + length <= s.piece_length);
    }
    assert_eq!(s.requested, 11 * BLOCK_SIZE);
}
