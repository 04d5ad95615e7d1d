//! The decisions of one peer session: which piece to fetch, which blocks to ask for,
//! and what each received message changes.
use vstd::prelude::*;
use crate::bytes::{be_u32_value, read_be_u32};
use crate::download::{
    BLOCK_SIZE, MAX_REQUESTS, Download, DownloadState, MessageId, PeerSession, bitfield_assign,
    bitfield_grow_mark, bitfield_has, claimable, law_bitfield_assign,
};
use crate::digest::sha1_digest;
use crate::torrent::{exact_length, spec_count_pieces, spec_piece_length};

verus! {

/// What one peer session knows: the peer, and the piece it is fetching from it.
pub struct SessionState {
    pub peer: PeerSession,
    /// The bytes of the piece being fetched.
    pub buf: Vec<u8>,
    /// How many bytes of the piece have arrived.
    pub received: u32,
    /// How many bytes of the piece have been asked for.
    pub requested: u32,
    /// The piece being fetched.
    pub piece_index: Option<u32>,
    pub piece_length: u32,
}

/// What `claim` did.
#[derive(Debug, PartialEq, Eq, Structural, Clone, Copy)]
pub enum ClaimOutcome {
    /// Nothing: a piece is being fetched already, or the peer chokes us, or it has
    /// no piece that we need.
    Idle,
    /// The piece is claimed and its fetching starts.
    Started(u32),
    /// The piece is claimed but its length is not defined (`calc_piece_length` does not
    /// accept it).
    LengthUndefined(u32),
}

/// What a received message asks of the caller.
#[derive(Debug, PartialEq, Eq, Structural, Clone, Copy)]
pub enum MessageOutcome {
    Continue,
    /// All bytes of the piece have arrived: verify and store them, then `finish_piece`.
    PieceReady(u32),
    /// The message is too short, or its data does not fit the piece or overflows the
    /// count of received bytes. Nothing was changed.
    Malformed,
}

/// The block requests that are sent for piece `piece` of `piece_length` bytes when
/// `requested` bytes are asked for and `received` have arrived, as `(index, begin,
/// length)`, and how many bytes are asked for after them: blocks are asked for in
/// order while fewer than `MAX_REQUESTS` blocks' worth are outstanding.
pub open spec fn spec_plan(piece: u32, piece_length: u32, requested: int, received: int) -> (Seq<(u32, u32, u32)>, int)
    decreases piece_length - requested,
{
    if requested > piece_length || (requested - received) / (BLOCK_SIZE as int) >= MAX_REQUESTS {
        (seq![], requested)
    } else {
        let bs: int = if piece_length - requested >= BLOCK_SIZE {
            BLOCK_SIZE as int
        } else {
            piece_length - requested
        };
        if bs > 0 {
            let rest = spec_plan(piece, piece_length, requested + bs, received);
            (seq![(piece, requested as u32, bs as u32)] + rest.0, rest.1)
        } else {
            (seq![], requested)
        }
    }
}

/// Whether a fetched piece `p` is accepted: its bytes `buf` were stored and have the
/// SHA-1 digest that the torrent's piece hashes `pieces` list for it.
pub open spec fn piece_accepted(pieces: Seq<u8>, p: int, buf: Seq<u8>, stored: bool) -> bool {
    stored && pieces.subrange(20 * p, 20 * p + 20) == sha1_digest(buf)
}

/// The completed pieces after the fetching of piece `p` ends: marked when accepted.
pub open spec fn completed_after_finish(completed: Seq<u8>, pieces: Seq<u8>, p: int, buf: Seq<u8>, stored: bool) -> Seq<u8> {
    if piece_accepted(pieces, p, buf, stored) {
        bitfield_assign(completed, p, true)
    } else {
        completed
    }
}

impl SessionState {
    /// A piece being fetched has a buffer of its length, and no more of it asked for.
    pub open spec fn wf(&self) -> bool {
        self.piece_index is Some ==> {
            &&& self.requested <= self.piece_length
            &&& self.buf@.len() == self.piece_length
        }
    }

    /// A session that has not heard from the peer: choked, fetching nothing.
    pub fn new() -> (r: SessionState)
        ensures
            r.wf(),
            r.peer.bitfield@.len() == 0,
            r.peer.choked,
            r.buf@.len() == 0,
            r.received == 0,
            r.requested == 0,
            r.piece_index is None,
            r.piece_length == 0,
    {
        SessionState {
            peer: PeerSession { bitfield: Vec::new(), choked: true },
            buf: Vec::new(),
            received: 0,
            requested: 0,
            piece_index: None,
            piece_length: 0,
        }
    }

    /// When no piece is being fetched and the peer does not choke us, claims a piece
    /// and starts fetching it.
    pub fn claim(&mut self, download: &Download, state: &mut DownloadState) -> (r: ClaimOutcome)
        requires
            old(self).wf(),
            exact_length(download.torrent.length as int),
        ensures
            final(self).wf(),
            final(state).completed@ == old(state).completed@,
            final(self).peer == old(self).peer,
            (old(self).piece_index is Some || old(self).peer.choked) ==> r == ClaimOutcome::Idle
                && *final(self) == *old(self) && final(state).in_progress@ == old(state).in_progress@,
            r == ClaimOutcome::Idle && old(self).piece_index is None && !old(self).peer.choked ==> {
                &&& forall|j: int|
                    0 <= j < spec_count_pieces(download.torrent.length as int, download.torrent.piece_length as int)
                        ==> !claimable(old(state).completed@, old(state).in_progress@, old(self).peer.bitfield@, j)
                &&& *final(self) == *old(self)
                &&& final(state).in_progress@ == old(state).in_progress@
            },
            match r {
                ClaimOutcome::Idle => true,
                ClaimOutcome::Started(p) => {
                    &&& old(self).piece_index is None && !old(self).peer.choked
                    &&& p < spec_count_pieces(download.torrent.length as int, download.torrent.piece_length as int)
                    &&& claimable(old(state).completed@, old(state).in_progress@, old(self).peer.bitfield@, p as int)
                    &&& forall|j: int| 0 <= j < p ==> !claimable(
                        old(state).completed@,
                        old(state).in_progress@,
                        old(self).peer.bitfield@,
                        j,
                    )
                    &&& final(state).in_progress@ == bitfield_assign(old(state).in_progress@, p as int, true)
                    &&& download.torrent.piece_length_defined(p)
                    &&& final(self).piece_index == Some(p)
                    &&& final(self).piece_length as int == spec_piece_length(
                        download.torrent.length,
                        download.torrent.piece_length,
                        spec_count_pieces(download.torrent.length as int, download.torrent.piece_length as int),
                        p as int,
                    )
                    &&& final(self).buf@ == Seq::new(final(self).piece_length as nat, |_i: int| 0u8)
                    &&& final(self).received == 0
                    &&& final(self).requested == 0
                },
                ClaimOutcome::LengthUndefined(p) => {
                    &&& old(self).piece_index is None && !old(self).peer.choked
                    &&& p < spec_count_pieces(download.torrent.length as int, download.torrent.piece_length as int)
                    &&& claimable(old(state).completed@, old(state).in_progress@, old(self).peer.bitfield@, p as int)
                    &&& forall|j: int| 0 <= j < p ==> !claimable(
                        old(state).completed@,
                        old(state).in_progress@,
                        old(self).peer.bitfield@,
                        j,
                    )
                    &&& final(state).in_progress@ == bitfield_assign(old(state).in_progress@, p as int, true)
                    &&& !download.torrent.piece_length_defined(p)
                    &&& *final(self) == *old(self)
                },
            },
    {
        if self.piece_index.is_some() || self.peer.choked {
            return ClaimOutcome::Idle;
        }
        match download.claim_piece(state, &self.peer) {
            None => ClaimOutcome::Idle,
            Some(piece) => {
                let p = piece as u32;
                if !download.torrent.is_piece_length_defined(p) {
                    return ClaimOutcome::LengthUndefined(p);
                }
                let len = download.torrent.calc_piece_length(p);
                self.piece_index = Some(p);
                self.piece_length = len;
                self.buf = vec![0u8; len as usize];
                self.received = 0;
                self.requested = 0;
                assert(self.buf@ =~= Seq::new(len as nat, |_i: int| 0u8));
                ClaimOutcome::Started(p)
            },
        }
    }

    /// While a piece is being fetched and the peer does not choke us, asks for the
    /// next blocks of the piece: the requests to send, as `(index, begin, length)`.
    /// `None` when more of the piece has arrived than was asked for, so that the count
    /// of outstanding bytes is not defined; then nothing was changed.
    pub fn block_requests(&mut self) -> (r: Option<Vec<(u32, u32, u32)>>)
        requires
            old(self).wf(),
        ensures
            final(self).wf(),
            final(self).peer == old(self).peer,
            final(self).buf == old(self).buf,
            final(self).received == old(self).received,
            final(self).piece_index == old(self).piece_index,
            final(self).piece_length == old(self).piece_length,
            (old(self).piece_index is None || old(self).peer.choked) ==> (r matches Some(v) && v@.len() == 0
                && final(self).requested == old(self).requested),
            old(self).piece_index matches Some(p) ==> !old(self).peer.choked ==> {
                if old(self).received > old(self).requested {
                    r is None && final(self).requested == old(self).requested
                } else {
                    let plan = spec_plan(p, old(self).piece_length, old(self).requested as int, old(self).received as int);
                    r matches Some(v) && v@ == plan.0 && final(self).requested as int == plan.1
                }
            },
    {
        let p = match self.piece_index {
            Some(p) => p,
            None => return Some(Vec::new()),
        };
        if self.peer.choked {
            return Some(Vec::new());
        }
        if self.received > self.requested {
            return None;
        }
        let ghost start = self.requested as int;
        let mut out: Vec<(u32, u32, u32)> = Vec::new();
        let mut done = false;
        while !done
            invariant
                self.piece_index == Some(p),
                self.received <= self.requested <= self.piece_length,
                self.buf@.len() == self.piece_length,
                self.received == old(self).received,
                self.piece_length == old(self).piece_length,
                self.peer == old(self).peer,
                self.buf == old(self).buf,
                self.piece_index == old(self).piece_index,
                !done ==> spec_plan(p, self.piece_length, start, self.received as int) == (
                    out@ + spec_plan(p, self.piece_length, self.requested as int, self.received as int).0,
                    spec_plan(p, self.piece_length, self.requested as int, self.received as int).1,
                ),
                done ==> spec_plan(p, self.piece_length, start, self.received as int) == (
                    out@,
                    self.requested as int,
                ),
            decreases self.piece_length - self.requested + (if done { 0int } else { 1int }),
        {
            let ghost cur = spec_plan(p, self.piece_length, self.requested as int, self.received as int);
            if (self.requested - self.received) / BLOCK_SIZE >= MAX_REQUESTS {
                assert(out@ + cur.0 =~= out@);
                done = true;
            } else {
                let bs = Download::calc_block_size(self.piece_length, self.requested);
                if bs > 0 {
                    let ghost old_out = out@;
                    let ghost next = spec_plan(p, self.piece_length, self.requested + bs, self.received as int);
                    out.push((p, self.requested, bs));
                    assert(old_out + cur.0 =~= out@ + next.0);
                    self.requested = self.requested + bs;
                } else {
                    assert(out@ + cur.0 =~= out@);
                    done = true;
                }
            }
        }
        Some(out)
    }

    /// Applies a message received from the peer. On a choke the piece being fetched is
    /// released; a have or bitfield records what the peer holds; a piece message
    /// copies its data into the buffer.
    pub fn on_message(&mut self, id: MessageId, payload: Vec<u8>, state: &mut DownloadState) -> (r: MessageOutcome)
        requires
            old(self).wf(),
        ensures
            final(self).wf(),
            final(state).completed@ == old(state).completed@,
            r == MessageOutcome::Malformed ==> *final(self) == *old(self),
            id != MessageId::Choke ==> final(state).in_progress@ == old(state).in_progress@,
            match id {
                MessageId::Choke => {
                    &&& r == MessageOutcome::Continue
                    &&& final(self).peer.choked
                    &&& final(self).peer.bitfield == old(self).peer.bitfield
                    &&& final(self).piece_index is None
                    &&& final(self).buf == old(self).buf
                    &&& final(self).received == old(self).received
                    &&& final(self).requested == old(self).requested
                    &&& final(self).piece_length == old(self).piece_length
                    &&& final(state).in_progress@ == (match old(self).piece_index {
                        Some(p) => bitfield_assign(old(state).in_progress@, p as int, false),
                        None => old(state).in_progress@,
                    })
                },
                MessageId::Unchoke => {
                    &&& r == MessageOutcome::Continue
                    &&& !final(self).peer.choked
                    &&& final(self).peer.bitfield == old(self).peer.bitfield
                    &&& final(self).buf == old(self).buf
                    &&& final(self).received == old(self).received
                    &&& final(self).requested == old(self).requested
                    &&& final(self).piece_index == old(self).piece_index
                    &&& final(self).piece_length == old(self).piece_length
                },
                MessageId::Have => if payload@.len() < 4 {
                    r == MessageOutcome::Malformed
                } else {
                    &&& r == MessageOutcome::Continue
                    &&& final(self).peer.bitfield@ == bitfield_grow_mark(
                        old(self).peer.bitfield@,
                        be_u32_value(payload@.subrange(0, 4)),
                    )
                    &&& final(self).peer.choked == old(self).peer.choked
                    &&& final(self).buf == old(self).buf
                    &&& final(self).received == old(self).received
                    &&& final(self).requested == old(self).requested
                    &&& final(self).piece_index == old(self).piece_index
                    &&& final(self).piece_length == old(self).piece_length
                },
                MessageId::Bitfield => {
                    &&& r == MessageOutcome::Continue
                    &&& final(self).peer.bitfield@ == payload@
                    &&& final(self).peer.choked == old(self).peer.choked
                    &&& final(self).buf == old(self).buf
                    &&& final(self).received == old(self).received
                    &&& final(self).requested == old(self).requested
                    &&& final(self).piece_index == old(self).piece_index
                    &&& final(self).piece_length == old(self).piece_length
                },
                MessageId::Piece => match old(self).piece_index {
                    None => r == MessageOutcome::Continue && *final(self) == *old(self),
                    Some(p) => if payload@.len() < 8 {
                        r == MessageOutcome::Malformed
                    } else {
                        let begin = be_u32_value(payload@.subrange(4, 8));
                        let n = payload@.len() - 8;
                        if begin + n > old(self).buf@.len() || old(self).received + n > u32::MAX {
                            r == MessageOutcome::Malformed
                        } else {
                            &&& final(self).received == old(self).received + n
                            &&& final(self).buf@ == old(self).buf@.take(begin) + payload@.skip(8) + old(
                                self,
                            ).buf@.skip(begin + n)
                            &&& final(self).peer == old(self).peer
                            &&& final(self).requested == old(self).requested
                            &&& final(self).piece_index == old(self).piece_index
                            &&& final(self).piece_length == old(self).piece_length
                            &&& r == (if final(self).received >= old(self).piece_length {
                                MessageOutcome::PieceReady(p)
                            } else {
                                MessageOutcome::Continue
                            })
                        }
                    },
                },
                _ => r == MessageOutcome::Continue && *final(self) == *old(self),
            },
    {
        match id {
            MessageId::Choke => {
                self.peer.choked = true;
                if let Some(piece) = self.piece_index {
                    state.set_in_progress(piece as usize, false);
                    self.piece_index = None;
                }
                assert(self.wf());
                MessageOutcome::Continue
            },
            MessageId::Unchoke => {
                self.peer.choked = false;
                MessageOutcome::Continue
            },
            MessageId::Have => {
                if payload.len() < 4 {
                    return MessageOutcome::Malformed;
                }
                let index = read_be_u32(payload.as_slice(), 0);
                self.peer.update_have(index as usize);
                MessageOutcome::Continue
            },
            MessageId::Bitfield => {
                self.peer.bitfield = payload;
                MessageOutcome::Continue
            },
            MessageId::Piece => {
                let piece = match self.piece_index {
                    Some(piece) => piece,
                    None => return MessageOutcome::Continue,
                };
                if payload.len() < 8 {
                    return MessageOutcome::Malformed;
                }
                let begin = read_be_u32(payload.as_slice(), 4) as usize;
                let n = payload.len() - 8;
                if begin > self.buf.len() || n > self.buf.len() - begin || n > (u32::MAX - self.received) as usize {
                    return MessageOutcome::Malformed;
                }
                let ghost old_buf = self.buf@;
                let ghost before = *self;
                let mut j: usize = 0;
                while j < n
                    invariant
                        0 <= j <= n,
                        n == payload.len() - 8,
                        begin + n <= self.buf.len(),
                        n + self.received <= u32::MAX,
                        self.received == before.received,
                        self.requested == before.requested,
                        self.piece_index == before.piece_index,
                        self.piece_length == before.piece_length,
                        self.peer == before.peer,
                        self.buf@.len() == old_buf.len(),
                        forall|k: int| 0 <= k < begin ==> self.buf@[k] == old_buf[k],
                        forall|k: int| begin + n <= k < old_buf.len() ==> self.buf@[k] == old_buf[k],
                        forall|k: int| begin <= k < begin + j ==> self.buf@[k] == payload@[k - begin + 8],
                    decreases n - j,
                {
                    let b = payload[8 + j];
                    self.buf.set(begin + j, b);
                    j = j + 1;
                }
                assert(self.buf@ =~= old_buf.take(begin as int) + payload@.skip(8) + old_buf.skip(begin + n));
                self.received = self.received + n as u32;
                if self.received >= self.piece_length {
                    MessageOutcome::PieceReady(piece)
                } else {
                    MessageOutcome::Continue
                }
            },
            _ => MessageOutcome::Continue,
        }
    }

    /// Ends the fetching of the current piece. The piece is marked done, and held by
    /// the peer, only when its bytes were stored (`stored`) and have the SHA-1 digest
    /// that the torrent lists for it; otherwise it is only released. Returns whether
    /// it was marked done.
    pub fn finish_piece(&mut self, download: &Download, stored: bool, state: &mut DownloadState) -> (r: bool)
        requires
            old(self).wf(),
            old(self).piece_index is Some,
            (old(self).piece_index.unwrap() + 1) * 20 <= download.torrent.pieces@.len(),
            (old(self).piece_index.unwrap() / 8) < old(state).completed@.len() ==> (old(self).piece_index.unwrap() / 8)
                < old(state).in_progress@.len(),
        ensures
            final(self).wf(),
            final(self).piece_index is None,
            final(self).peer.choked == old(self).peer.choked,
            final(self).buf == old(self).buf,
            final(self).received == old(self).received,
            final(self).requested == old(self).requested,
            final(self).piece_length == old(self).piece_length,
            ({
                let p = old(self).piece_index.unwrap() as int;
                &&& r == piece_accepted(download.torrent.pieces@, p, old(self).buf@, stored)
                &&& final(state).completed@ == completed_after_finish(
                    old(state).completed@,
                    download.torrent.pieces@,
                    p,
                    old(self).buf@,
                    stored,
                )
                &&& if r {
                    &&& final(self).peer.bitfield@ == bitfield_grow_mark(old(self).peer.bitfield@, p)
                    &&& final(state).in_progress@ == (if p / 8 < old(state).completed@.len() {
                        bitfield_assign(old(state).in_progress@, p, false)
                    } else {
                        old(state).in_progress@
                    })
                } else {
                    &&& final(self).peer.bitfield == old(self).peer.bitfield
                    &&& final(state).in_progress@ == bitfield_assign(old(state).in_progress@, p, false)
                }
            }),
    {
        let piece = self.piece_index.unwrap();
        let accepted = stored && download.verify_piece(piece as usize, self.buf.as_slice());
        if accepted {
            state.set_complete(piece as usize);
            self.peer.update_have(piece as usize);
        } else {
            state.set_in_progress(piece as usize, false);
        }
        self.piece_index = None;
        accepted
    }

    /// Releases the piece being fetched when the session fails.
    pub fn abort(&mut self, state: &mut DownloadState)
        ensures
            *final(self) == *old(self),
            final(state).completed@ == old(state).completed@,
            final(state).in_progress@ == (match old(self).piece_index {
                Some(p) => bitfield_assign(old(state).in_progress@, p as int, false),
                None => old(state).in_progress@,
            }),
    {
        if let Some(piece) = self.piece_index {
            state.set_in_progress(piece as usize, false);
        }
    }
}

/// How a peer message continues after its four length bytes.
#[derive(Debug, PartialEq, Eq, Structural, Clone, Copy)]
pub enum FrameKind {
    /// Length 0: a keep-alive, nothing follows.
    KeepAlive,
    /// Length 1: an id byte and no payload.
    IdOnly,
    /// An id byte and a payload of this many bytes.
    WithPayload(u32),
}

/// What follows a message length prefix.
pub fn frame_kind(len: u32) -> (r: FrameKind)
    ensures
        len == 0 ==> r == FrameKind::KeepAlive,
        len == 1 ==> r == FrameKind::IdOnly,
        len > 1 ==> r == FrameKind::WithPayload((len - 1) as u32),
{
    if len == 0 {
        FrameKind::KeepAlive
    } else if len == 1 {
        FrameKind::IdOnly
    } else {
        FrameKind::WithPayload(len - 1)
    }
}


/// The block requests ask, in order and without gaps, for the bytes from `from` to
/// `to` of piece `piece`, each for at least one byte and at most a block.
pub open spec fn blocks_tile(blocks: Seq<(u32, u32, u32)>, piece: u32, from: int, to: int) -> bool
    decreases blocks.len(),
{
    if blocks.len() == 0 {
        from == to
    } else {
        &&& blocks[0].0 == piece
        &&& blocks[0].1 == from
        &&& 0 < blocks[0].2 <= BLOCK_SIZE
        &&& blocks_tile(blocks.drop_first(), piece, from + blocks[0].2, to)
    }
}

/// The blocks asked for when fetching a piece continue where the asking stopped,
/// follow one another without gaps or overlaps, and stay within the piece; each is
/// asked for while fewer than `MAX_REQUESTS` blocks' worth are outstanding, and
/// asking stops at the end of the piece or once that many are.
pub proof fn law_block_requests_tile(piece: u32, piece_length: u32, requested: int, received: int)
    requires
        0 <= received <= requested <= piece_length,
    ensures
        ({
            let plan = spec_plan(piece, piece_length, requested, received);
            &&& requested <= plan.1 <= piece_length
            &&& blocks_tile(plan.0, piece, requested, plan.1)
            &&& (plan.1 == piece_length || (plan.1 - received) / (BLOCK_SIZE as int) >= MAX_REQUESTS)
            &&& forall|k: int|
                0 <= k < plan.0.len() ==> {
                    &&& #[trigger] plan.0[k].1 - received < MAX_REQUESTS * BLOCK_SIZE
                    &&& plan.0[k].1 + plan.0[k].2 <= piece_length
                }
        }),
    decreases piece_length - requested,
{
    let plan = spec_plan(piece, piece_length, requested, received);
    if (requested - received) / (BLOCK_SIZE as int) < MAX_REQUESTS {
        let bs: int = if piece_length - requested >= BLOCK_SIZE {
            BLOCK_SIZE as int
        } else {
            piece_length - requested
        };
        if bs > 0 {
            law_block_requests_tile(piece, piece_length, requested + bs, received);
            let rest = spec_plan(piece, piece_length, requested + bs, received);
            assert(plan.0.drop_first() =~= rest.0);
            assert forall|k: int| 0 <= k < plan.0.len() implies {
                &&& #[trigger] plan.0[k].1 - received < MAX_REQUESTS * BLOCK_SIZE
                &&& plan.0[k].1 + plan.0[k].2 <= piece_length
            } by {
                if k > 0 {
                    assert(plan.0[k] == rest.0[k - 1]);
                }
            }
        }
    }
}

/// A piece becomes complete only when its bytes were stored and have the SHA-1 digest
/// that the torrent lists for it: after the fetching of piece `p` ends, piece `j` is
/// complete exactly when it was complete before, or it is `p`, the state holds it, and
/// it was accepted.
pub proof fn law_complete_only_when_verified(
    completed: Seq<u8>,
    pieces: Seq<u8>,
    p: int,
    buf: Seq<u8>,
    stored: bool,
    j: int,
)
    requires
        0 <= p,
        0 <= j,
    ensures
        bitfield_has(completed_after_finish(completed, pieces, p, buf, stored), j) == (bitfield_has(completed, j)
            || (j == p && p / 8 < completed.len() && stored && pieces.subrange(20 * p, 20 * p + 20)
            == sha1_digest(buf))),
{
    law_bitfield_assign(completed, p, true, j);
}

} // verus!
