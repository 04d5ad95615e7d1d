# rbittorrent

A BitTorrent client whose logic is a library verified with Verus, and a small program
around it.

- `src/bencode.rs`: bencode decoding, dictionaries kept in key order.
- `src/torrent.rs`: torrent metadata, piece counts and lengths, the handshake.
- `src/download.rs`: piece bitfields, the shared download state, claiming pieces,
  verifying them, and the peer wire messages.
- `src/session.rs`: the decisions of one peer session, as a state that each received
  message updates; a fetched piece is marked done only when its bytes were stored and
  match the torrent's SHA-1 digest for it.
- `src/tracker.rs`: tracker announce requests over HTTP and UDP, their replies, and
  when a UDP request is sent again.
- `src/bytes.rs`, `src/digest.rs`: byte order and big-endian numbers; SHA-1.
- `app/`: the command line, the network and the file; it drives the library.
