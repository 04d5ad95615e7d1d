//! A BitTorrent client library: bencode decoding, torrent metadata, tracker and
//! peer wire messages, and the bookkeeping of a piece download.
pub mod bencode;
pub mod bytes;
pub mod digest;
pub mod torrent;
pub mod download;
pub mod session;
pub mod tracker;
