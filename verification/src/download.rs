//! Piece bookkeeping: bitfields of pieces, the shared download state, and the
//! decisions of a download.
use vstd::prelude::*;
use crate::bytes::{KeyOrder, compare_bytes, lemma_lex_order_equal, be_u32_bytes, push_be_u32};
use crate::digest::{sha1, sha1_digest};
use crate::torrent::{Torrent, exact_length, spec_count_pieces};

verus! {

/// Bit `k` of a byte, counting from the most significant (bit 0) to the least (bit 7).
pub open spec fn bit_at(b: u8, k: u8) -> bool {
    (b >> ((7 - k) as u8)) & 1u8 != 0u8
}

/// The mask of bit `k`, counting from the most significant.
pub open spec fn bit_mask(k: u8) -> u8 {
    1u8 << ((7 - k) as u8)
}

/// Whether piece `i` is marked in a bitfield: bit `i % 8` of byte `i / 8`, and no
/// piece past the end.
pub open spec fn bitfield_has(bits: Seq<u8>, i: int) -> bool {
    &&& 0 <= i
    &&& i / 8 < bits.len()
    &&& bit_at(bits[i / 8], (i % 8) as u8)
}

/// The bitfield with piece `i` marked, first grown with zero bytes to hold it.
pub open spec fn bitfield_grow_mark(bits: Seq<u8>, i: int) -> Seq<u8> {
    let bi = i / 8;
    let grown = if bi < bits.len() {
        bits
    } else {
        bits + Seq::new((bi + 1 - bits.len()) as nat, |_j: int| 0u8)
    };
    grown.update(bi, grown[bi] | bit_mask((i % 8) as u8))
}

/// The bitfield with piece `i` marked (`value`) or cleared; unchanged when the
/// bitfield is too short to hold piece `i`.
pub open spec fn bitfield_assign(bits: Seq<u8>, i: int, value: bool) -> Seq<u8> {
    let bi = i / 8;
    if bi < bits.len() {
        bits.update(
            bi,
            if value {
                bits[bi] | bit_mask((i % 8) as u8)
            } else {
                bits[bi] & !bit_mask((i % 8) as u8)
            },
        )
    } else {
        bits
    }
}

/// How a bit of a byte changes when a mask is or-ed or and-not-ed into it.
pub proof fn lemma_bit_ops(b: u8, k: u8, j: u8)
    requires
        k < 8,
        j < 8,
    ensures
        bit_at(b | bit_mask(k), j) == (j == k || bit_at(b, j)),
        bit_at(b & !bit_mask(k), j) == (j != k && bit_at(b, j)),
        !bit_at(0u8, j),
{
    assert(((b | (1u8 << (7u8 - k) as u8)) >> (7u8 - j) as u8) & 1u8 != 0u8 <==> (j == k || (b >> (
    7u8 - j) as u8) & 1u8 != 0u8)) by (bit_vector)
        requires
            k < 8,
            j < 8,
    ;
    assert(((b & !(1u8 << (7u8 - k) as u8)) >> (7u8 - j) as u8) & 1u8 != 0u8 <==> (j != k && (b >> (
    7u8 - j) as u8) & 1u8 != 0u8)) by (bit_vector)
        requires
            k < 8,
            j < 8,
    ;
    assert((0u8 >> (7u8 - j) as u8) & 1u8 == 0u8) by (bit_vector)
        requires
            j < 8,
    ;
}

/// Marking piece `i` in a bitfield marks it and leaves every other piece as it was.
pub proof fn law_bitfield_grow_mark(bits: Seq<u8>, i: int, j: int)
    requires
        0 <= i,
        0 <= j,
    ensures
        bitfield_has(bitfield_grow_mark(bits, i), j) == (j == i || bitfield_has(bits, j)),
{
    let bi = i / 8;
    let grown = if bi < bits.len() {
        bits
    } else {
        bits + Seq::new((bi + 1 - bits.len()) as nat, |_j: int| 0u8)
    };
    lemma_bit_ops(grown[bi], (i % 8) as u8, (j % 8) as u8);
    if j / 8 < grown.len() {
        lemma_bit_ops(grown[j / 8], (i % 8) as u8, (j % 8) as u8);
        if j / 8 >= bits.len() {
            assert(grown[j / 8] == 0u8);
        }
    }
    if j / 8 == i / 8 && j % 8 == i % 8 {
        assert(j == i);
    }
}

/// Assigning piece `i` in a bitfield changes it alone, and only when the bitfield
/// holds it.
pub proof fn law_bitfield_assign(bits: Seq<u8>, i: int, value: bool, j: int)
    requires
        0 <= i,
        0 <= j,
    ensures
        bitfield_has(bitfield_assign(bits, i, value), j) == (if j == i && i / 8 < bits.len() {
            value
        } else {
            bitfield_has(bits, j)
        }),
{
    if i / 8 < bits.len() && j / 8 < bits.len() {
        lemma_bit_ops(bits[i / 8], (i % 8) as u8, (j % 8) as u8);
        lemma_bit_ops(bits[j / 8], (i % 8) as u8, (j % 8) as u8);
    }
    if j / 8 == i / 8 && j % 8 == i % 8 {
        assert(j == i);
    }
}

/// What one peer has told of itself.
pub struct PeerSession {
    /// The pieces that the peer has, one bit each, most significant bit first.
    pub bitfield: Vec<u8>,
    pub choked: bool,
}

impl PeerSession {
    /// Whether the peer has piece `piece_index`.
    pub fn has_piece(&self, piece_index: usize) -> (r: bool)
        ensures
            r == bitfield_has(self.bitfield@, piece_index as int),
    {
        let byte_index = piece_index / 8;
        let bit_index = (piece_index % 8) as u8;
        if byte_index < self.bitfield.len() {
            let byte = self.bitfield[byte_index];
            (byte >> (7 - bit_index)) & 1 != 0
        } else {
            false
        }
    }

    /// Records that the peer has piece `piece_index`, growing the bitfield as needed.
    pub fn update_have(&mut self, piece_index: usize)
        ensures
            final(self).bitfield@ == bitfield_grow_mark(old(self).bitfield@, piece_index as int),
            final(self).choked == old(self).choked,
    {
        let byte_index = piece_index / 8;
        let bit_index = (piece_index % 8) as u8;
        let ghost old_bits = self.bitfield@;
        if byte_index >= self.bitfield.len() {
            self.bitfield.resize(byte_index + 1, 0);
            proof {
                assert forall|j: int| old_bits.len() <= j < byte_index + 1 implies self.bitfield@[j]
                    == 0u8 by {
                    assert(vstd::pervasive::cloned::<u8>(0u8, self.bitfield@[j]));
                }
                assert(self.bitfield@ =~= old_bits + Seq::new(
                    (byte_index + 1 - old_bits.len()) as nat,
                    |_j: int| 0u8,
                ));
            }
        }
        let byte = self.bitfield[byte_index];
        self.bitfield.set(byte_index, byte | (1u8 << (7 - bit_index)));
    }
}


/// The number of marked bits among bits `0..k` of a byte.
pub open spec fn bits_upto(b: u8, k: int) -> nat
    decreases k,
{
    if k <= 0 {
        0
    } else {
        bits_upto(b, k - 1) + if bit_at(b, (k - 1) as u8) {
            1nat
        } else {
            0nat
        }
    }
}

/// The number of marked bits in a bitfield.
pub open spec fn bitfield_count(bits: Seq<u8>) -> nat
    decreases bits.len(),
{
    if bits.len() == 0 {
        0
    } else {
        bitfield_count(bits.drop_last()) + bits_upto(bits.last(), 8)
    }
}

proof fn lemma_bitfield_count_bound(bits: Seq<u8>)
    ensures
        bitfield_count(bits) <= 8 * bits.len(),
    decreases bits.len(),
{
    if bits.len() > 0 {
        lemma_bitfield_count_bound(bits.drop_last());
        lemma_bits_upto_bound(bits.last(), 8);
    }
}

proof fn lemma_bits_upto_bound(b: u8, k: int)
    requires
        0 <= k,
    ensures
        bits_upto(b, k) <= k,
    decreases k,
{
    if k > 0 {
        lemma_bits_upto_bound(b, k - 1);
    }
}

/// Which pieces are done and which are being fetched, one bit per piece.
pub struct DownloadState {
    pub completed: Vec<u8>,
    pub in_progress: Vec<u8>,
}

impl DownloadState {
    /// A state for `count` pieces, none done or being fetched: one byte for each eight
    /// pieces, `(count as f64 / 8f64).ceil()` of them (exact for counts up to 2^53).
    pub fn new(count: usize) -> (r: Self)
        requires
            count <= 0x20000000000000,
        ensures
            r.completed@ == Seq::new(((count + 7) / 8) as nat, |_i: int| 0u8),
            r.in_progress@ == Seq::new(((count + 7) / 8) as nat, |_i: int| 0u8),
    {
        let bytes = count / 8 + if count % 8 != 0 {
            1
        } else {
            0
        };
        let r = DownloadState { completed: vec![0u8; bytes], in_progress: vec![0u8; bytes] };
        assert(r.completed@ =~= Seq::new(((count + 7) / 8) as nat, |_i: int| 0u8));
        assert(r.in_progress@ =~= Seq::new(((count + 7) / 8) as nat, |_i: int| 0u8));
        r
    }

    /// The number of completed pieces.
    pub fn count_complete(&self) -> (n: usize)
        requires
            self.completed@.len() * 8 <= usize::MAX,
        ensures
            n == bitfield_count(self.completed@),
    {
        let mut n: usize = 0;
        let mut i: usize = 0;
        while i < self.completed.len()
            invariant
                0 <= i <= self.completed@.len(),
                self.completed@.len() * 8 <= usize::MAX,
                n == bitfield_count(self.completed@.take(i as int)),
            decreases self.completed@.len() - i,
        {
            let byte = self.completed[i];
            let mut k: u8 = 0;
            let mut c: usize = 0;
            while k < 8
                invariant
                    0 <= k <= 8,
                    c == bits_upto(byte, k as int),
                decreases 8 - k,
            {
                proof {
                    lemma_bits_upto_bound(byte, k as int);
                }
                if (byte >> (7 - k)) & 1 != 0 {
                    c = c + 1;
                }
                k = k + 1;
            }
            proof {
                assert(self.completed@.take(i + 1).drop_last() =~= self.completed@.take(i as int));
                lemma_bitfield_count_bound(self.completed@.take(i as int));
                lemma_bits_upto_bound(byte, 8);
            }
            n = n + c;
            i = i + 1;
        }
        assert(self.completed@.take(i as int) =~= self.completed@);
        n
    }

    /// Whether all `total` pieces are done: the number of completed pieces is `total`.
    pub fn is_complete(&self, total: usize) -> (r: bool)
        requires
            self.completed@.len() * 8 <= usize::MAX,
        ensures
            r == (bitfield_count(self.completed@) == total),
    {
        self.count_complete() == total
    }

    /// Whether piece `index` is done.
    pub fn is_piece_complete(&self, index: usize) -> (r: bool)
        ensures
            r == bitfield_has(self.completed@, index as int),
    {
        let byte_idx = index / 8;
        let bit_idx = (index % 8) as u8;
        if byte_idx < self.completed.len() {
            (self.completed[byte_idx] >> (7 - bit_idx)) & 1 != 0
        } else {
            false
        }
    }

    /// Whether piece `index` is being fetched.
    pub fn is_piece_in_progress(&self, index: usize) -> (r: bool)
        ensures
            r == bitfield_has(self.in_progress@, index as int),
    {
        let byte_idx = index / 8;
        let bit_idx = (index % 8) as u8;
        if byte_idx < self.in_progress.len() {
            (self.in_progress[byte_idx] >> (7 - bit_idx)) & 1 != 0
        } else {
            false
        }
    }

    /// Marks piece `index` done and no longer being fetched; nothing happens when the
    /// state does not hold the piece.
    pub fn set_complete(&mut self, index: usize)
        requires
            index / 8 < old(self).completed@.len() ==> index / 8 < old(self).in_progress@.len(),
        ensures
            index / 8 < old(self).completed@.len() ==> {
                &&& final(self).completed@ == bitfield_assign(old(self).completed@, index as int, true)
                &&& final(self).in_progress@ == bitfield_assign(old(self).in_progress@, index as int, false)
            },
            index / 8 >= old(self).completed@.len() ==> *final(self) == *old(self),
    {
        let byte_idx = index / 8;
        let bit_idx = (index % 8) as u8;
        if byte_idx < self.completed.len() {
            let c = self.completed[byte_idx];
            self.completed.set(byte_idx, c | (1u8 << (7 - bit_idx)));
            let p = self.in_progress[byte_idx];
            self.in_progress.set(byte_idx, p & !(1u8 << (7 - bit_idx)));
        }
    }

    /// Marks piece `index` as being fetched or not; nothing happens when the state does
    /// not hold the piece.
    pub fn set_in_progress(&mut self, index: usize, value: bool)
        ensures
            final(self).in_progress@ == bitfield_assign(old(self).in_progress@, index as int, value),
            final(self).completed@ == old(self).completed@,
    {
        let byte_idx = index / 8;
        let bit_idx = (index % 8) as u8;
        if byte_idx < self.in_progress.len() {
            let p = self.in_progress[byte_idx];
            if value {
                self.in_progress.set(byte_idx, p | (1u8 << (7 - bit_idx)));
            } else {
                self.in_progress.set(byte_idx, p & !(1u8 << (7 - bit_idx)));
            }
        }
    }
}

/// The kinds of peer wire messages.
#[derive(Debug, PartialEq, Eq, Structural, Clone, Copy)]
pub enum MessageId {
    Choke,
    Unchoke,
    Interested,
    NotInterested,
    Have,
    Bitfield,
    Request,
    Piece,
    Cancel,
}

/// A message id byte that names no message.
#[derive(Debug, PartialEq, Eq, Structural, Clone, Copy)]
pub struct UnknownMessageId {
    pub value: u8,
}

impl MessageId {
    /// The id byte of the message kind on the wire.
    pub open spec fn spec_code(self) -> u8 {
        match self {
            MessageId::Choke => 0,
            MessageId::Unchoke => 1,
            MessageId::Interested => 2,
            MessageId::NotInterested => 3,
            MessageId::Have => 4,
            MessageId::Bitfield => 5,
            MessageId::Request => 6,
            MessageId::Piece => 7,
            MessageId::Cancel => 8,
        }
    }

    /// The id byte of the message kind on the wire.
    pub fn code(&self) -> (r: u8)
        ensures
            r == self.spec_code(),
    {
        match self {
            MessageId::Choke => 0,
            MessageId::Unchoke => 1,
            MessageId::Interested => 2,
            MessageId::NotInterested => 3,
            MessageId::Have => 4,
            MessageId::Bitfield => 5,
            MessageId::Request => 6,
            MessageId::Piece => 7,
            MessageId::Cancel => 8,
        }
    }

    /// The message kind of an id byte; the ids are 0 to 8.
    pub fn try_from(value: u8) -> (r: Result<MessageId, UnknownMessageId>)
        ensures
            value <= 8 ==> (r matches Ok(id) && id.spec_code() == value),
            value > 8 ==> r == Err::<MessageId, UnknownMessageId>(UnknownMessageId { value }),
    {
        match value {
            0 => Ok(MessageId::Choke),
            1 => Ok(MessageId::Unchoke),
            2 => Ok(MessageId::Interested),
            3 => Ok(MessageId::NotInterested),
            4 => Ok(MessageId::Have),
            5 => Ok(MessageId::Bitfield),
            6 => Ok(MessageId::Request),
            7 => Ok(MessageId::Piece),
            8 => Ok(MessageId::Cancel),
            _ => Err(UnknownMessageId { value }),
        }
    }
}

/// The largest block asked of a peer in one request.
pub const BLOCK_SIZE: u32 = 16384;

/// How many blocks may be asked for and not yet received.
pub const MAX_REQUESTS: u32 = 10;

/// The message that tells a peer we are interested: length 1, id 2.
pub fn interested_message() -> (r: Vec<u8>)
    ensures
        r@ == be_u32_bytes(1) + seq![2u8],
{
    let mut msg: Vec<u8> = Vec::with_capacity(5);
    push_be_u32(&mut msg, 1);
    msg.push(2);
    assert(msg@ =~= be_u32_bytes(1) + seq![2u8]);
    msg
}

/// A message of length prefix `len` and id `id` that asks for `length` bytes of piece
/// `index` from offset `begin`.
pub fn request_message(len: u32, id: u8, index: u32, begin: u32, length: u32) -> (r: Vec<u8>)
    ensures
        r@ == be_u32_bytes(len) + seq![id] + be_u32_bytes(index) + be_u32_bytes(begin) + be_u32_bytes(length),
{
    let mut msg: Vec<u8> = Vec::with_capacity(17);
    push_be_u32(&mut msg, len);
    msg.push(id);
    push_be_u32(&mut msg, index);
    push_be_u32(&mut msg, begin);
    push_be_u32(&mut msg, length);
    msg
}

/// How many peer sessions run at once.
pub const MAX_PEER_SESSIONS: usize = 20;

/// A torrent being downloaded, with the peer id this client presents.
pub struct Download {
    pub torrent: Torrent,
    pub peer_id: String,
    pub debug: bool,
}

/// The peer id this client presents.
pub open spec fn spec_peer_id() -> Seq<char> {
    "avknevkjn43t34tn389f"@
}

/// Whether piece `i` can be claimed from this peer: not done, not being fetched, and
/// held by the peer.
pub open spec fn claimable(completed: Seq<u8>, in_progress: Seq<u8>, peer: Seq<u8>, i: int) -> bool {
    &&& !bitfield_has(completed, i)
    &&& !bitfield_has(in_progress, i)
    &&& bitfield_has(peer, i)
}

impl Download {
    /// A download of `torrent` under this client's peer id.
    pub fn new(torrent: Torrent, debug: bool) -> (r: Download)
        ensures
            r.torrent == torrent,
            r.peer_id@ == spec_peer_id(),
            r.debug == debug,
    {
        Download { torrent, peer_id: String::from_str("avknevkjn43t34tn389f"), debug }
    }

    /// The size of the next block of a piece of `piece_length` bytes of which
    /// `requested` are asked for: a full block, or what is left.
    pub fn calc_block_size(piece_length: u32, requested: u32) -> (r: u32)
        requires
            requested <= piece_length,
        ensures
            r == (if piece_length - requested >= BLOCK_SIZE {
                BLOCK_SIZE as int
            } else {
                piece_length - requested
            }),
    {
        if piece_length - requested >= BLOCK_SIZE {
            BLOCK_SIZE
        } else {
            piece_length - requested
        }
    }

    /// The file offset at which piece `piece` is written: the piece index times the
    /// piece length, both taken as `u64`; `None` where that product overflows.
    pub fn piece_offset(&self, piece: u32) -> (r: Option<u64>)
        ensures
            r == (if piece * (self.torrent.piece_length as u64) <= u64::MAX {
                Some((piece * (self.torrent.piece_length as u64)) as u64)
            } else {
                None::<u64>
            }),
    {
        (piece as u64).checked_mul(self.torrent.piece_length as u64)
    }

    /// Whether `data` has the SHA-1 digest that the torrent lists for piece `index`.
    pub fn verify_piece(&self, index: usize, data: &[u8]) -> (r: bool)
        requires
            (index + 1) * 20 <= self.torrent.pieces@.len(),
        ensures
            r == (self.torrent.pieces@.subrange(index * 20, index * 20 + 20) == sha1_digest(data@)),
    {
        let n = self.torrent.pieces.len();
        assert((index + 1) * 20 <= n);
        let start = index * 20;
        let end = (index + 1) * 20;
        let expected = &self.torrent.pieces.as_slice()[start..end];
        let actual = sha1(data);
        let o = compare_bytes(expected, actual.as_slice());
        proof {
            lemma_lex_order_equal(expected@, actual@);
        }
        o == KeyOrder::Equal
    }

    /// Claims the first piece that this peer can give and that no one has claimed,
    /// marking it as being fetched.
    pub fn claim_piece(&self, state: &mut DownloadState, peer_session: &PeerSession) -> (r: Option<usize>)
        requires
            exact_length(self.torrent.length as int),
        ensures
            final(state).completed@ == old(state).completed@,
            match r {
                Some(i) => {
                    &&& i < spec_count_pieces(self.torrent.length as int, self.torrent.piece_length as int)
                    &&& claimable(old(state).completed@, old(state).in_progress@, peer_session.bitfield@, i as int)
                    &&& forall|j: int| 0 <= j < i ==> !claimable(
                        old(state).completed@,
                        old(state).in_progress@,
                        peer_session.bitfield@,
                        j,
                    )
                    &&& final(state).in_progress@ == bitfield_assign(old(state).in_progress@, i as int, true)
                },
                None => {
                    &&& forall|j: int|
                        0 <= j < spec_count_pieces(self.torrent.length as int, self.torrent.piece_length as int)
                            ==> !claimable(old(state).completed@, old(state).in_progress@, peer_session.bitfield@, j)
                    &&& final(state).in_progress@ == old(state).in_progress@
                },
            },
    {
        let count = self.torrent.count_pieces() as usize;
        let mut i: usize = 0;
        while i < count
            invariant
                0 <= i <= count,
                count as int == spec_count_pieces(self.torrent.length as int, self.torrent.piece_length as int),
                state.completed@ == old(state).completed@,
                state.in_progress@ == old(state).in_progress@,
                forall|j: int| 0 <= j < i ==> !claimable(
                    old(state).completed@,
                    old(state).in_progress@,
                    peer_session.bitfield@,
                    j,
                ),
            decreases count - i,
        {
            if !state.is_piece_complete(i) && !state.is_piece_in_progress(i) && peer_session.has_piece(i) {
                state.set_in_progress(i, true);
                return Some(i);
            }
            i = i + 1;
        }
        None
    }
}


/// The number of pieces below `n` that a bitfield marks.
pub open spec fn count_marked(bits: Seq<u8>, n: int) -> nat
    decreases n,
{
    if n <= 0 {
        0
    } else {
        count_marked(bits, n - 1) + if bitfield_has(bits, n - 1) {
            1nat
        } else {
            0nat
        }
    }
}

proof fn lemma_count_marked_prefix(bits: Seq<u8>, n: int)
    requires
        bits.len() > 0,
        0 <= n <= 8 * (bits.len() - 1),
    ensures
        count_marked(bits, n) == count_marked(bits.drop_last(), n),
    decreases n,
{
    if n > 0 {
        lemma_count_marked_prefix(bits, n - 1);
        assert((n - 1) / 8 < bits.len() - 1);
    }
}

proof fn lemma_count_marked_last(bits: Seq<u8>, k: int)
    requires
        bits.len() > 0,
        0 <= k <= 8,
    ensures
        count_marked(bits, 8 * (bits.len() - 1) + k) == count_marked(bits, 8 * (bits.len() - 1)) + bits_upto(
            bits.last(),
            k,
        ),
    decreases k,
{
    if k > 0 {
        lemma_count_marked_last(bits, k - 1);
        let j = 8 * (bits.len() - 1) + k - 1;
        assert(j / 8 == bits.len() - 1 && j % 8 == k - 1);
    }
}

/// The number of completed pieces that `count_complete` gives is the number of pieces
/// that the bitfield marks.
pub proof fn law_bitfield_count(bits: Seq<u8>)
    ensures
        bitfield_count(bits) == count_marked(bits, 8 * bits.len() as int),
    decreases bits.len(),
{
    if bits.len() > 0 {
        law_bitfield_count(bits.drop_last());
        assert(8 * (bits.len() - 1) + 8 == 8 * bits.len() as int);
        lemma_count_marked_prefix(bits, 8 * (bits.len() - 1));
        lemma_count_marked_last(bits, 8);
    }
}

/// A claimed piece is marked as being fetched, so no peer can claim it again until
/// it is released; a released piece is no longer being fetched.
pub proof fn law_claim_excludes(
    completed: Seq<u8>,
    in_progress: Seq<u8>,
    peer: Seq<u8>,
    other_peer: Seq<u8>,
    i: int,
)
    requires
        0 <= i,
        i / 8 < in_progress.len(),
        claimable(completed, in_progress, peer, i),
    ensures
        !claimable(completed, bitfield_assign(in_progress, i, true), other_peer, i),
        !bitfield_has(bitfield_assign(bitfield_assign(in_progress, i, true), i, false), i),
{
    law_bitfield_assign(in_progress, i, true, i);
    law_bitfield_assign(bitfield_assign(in_progress, i, true), i, false, i);
}

/// A completed piece is done and no longer being fetched.
pub proof fn law_set_complete(completed: Seq<u8>, in_progress: Seq<u8>, i: int)
    requires
        0 <= i,
        i / 8 < completed.len(),
        i / 8 < in_progress.len(),
    ensures
        bitfield_has(bitfield_assign(completed, i, true), i),
        !bitfield_has(bitfield_assign(in_progress, i, false), i),
{
    law_bitfield_assign(completed, i, true, i);
    law_bitfield_assign(in_progress, i, false, i);
}


proof fn lemma_count_marked_assign(bits: Seq<u8>, i: int, n: int)
    requires
        0 <= i,
    ensures
        count_marked(bitfield_assign(bits, i, true), n) == count_marked(bits, n) + (if i < n && i / 8
            < bits.len() && !bitfield_has(bits, i) {
            1nat
        } else {
            0nat
        }),
    decreases n,
{
    if n > 0 {
        lemma_count_marked_assign(bits, i, n - 1);
        law_bitfield_assign(bits, i, true, n - 1);
    }
}

/// Completing piece `i` raises the number of completed pieces by one when the
/// bitfield holds the piece and it was not complete yet, and leaves it unchanged
/// otherwise.
pub proof fn law_complete_counts_once(bits: Seq<u8>, i: int)
    requires
        0 <= i,
    ensures
        bitfield_count(bitfield_assign(bits, i, true)) == bitfield_count(bits) + (if i / 8 < bits.len()
            && !bitfield_has(bits, i) {
            1nat
        } else {
            0nat
        }),
{
    law_bitfield_count(bits);
    law_bitfield_count(bitfield_assign(bits, i, true));
    lemma_count_marked_assign(bits, i, 8 * bits.len() as int);
}

proof fn lemma_count_marked_full(bits: Seq<u8>, n: int)
    requires
        0 <= n,
    ensures
        count_marked(bits, n) <= n,
        count_marked(bits, n) == n <==> forall|i: int| 0 <= i < n ==> bitfield_has(bits, i),
    decreases n,
{
    if n > 0 {
        lemma_count_marked_full(bits, n - 1);
        if count_marked(bits, n) == n {
            assert forall|i: int| 0 <= i < n implies bitfield_has(bits, i) by {
                if i < n - 1 {
                    assert(0 <= i < n - 1);
                }
            }
        }
    }
}

proof fn lemma_count_marked_none(bits: Seq<u8>, from: int, n: int)
    requires
        0 <= from <= n,
        forall|j: int| from <= j < n ==> !#[trigger] bitfield_has(bits, j),
    ensures
        count_marked(bits, n) == count_marked(bits, from),
    decreases n - from,
{
    if n > from {
        lemma_count_marked_none(bits, from, n - 1);
        assert(!bitfield_has(bits, n - 1));
    }
}

/// When a bitfield marks no piece at or past `count`, it marks `count` pieces exactly
/// when it marks every piece below `count`.
pub proof fn law_complete_iff_all_marked(bits: Seq<u8>, count: int)
    requires
        0 <= count <= 8 * bits.len(),
        forall|j: int| count <= j ==> !#[trigger] bitfield_has(bits, j),
    ensures
        bitfield_count(bits) == count <==> forall|i: int| 0 <= i < count ==> bitfield_has(bits, i),
{
    law_bitfield_count(bits);
    lemma_count_marked_none(bits, count, 8 * bits.len() as int);
    lemma_count_marked_full(bits, count);
}

/// The completed bitfield after `set_complete` on each piece of `idxs` in turn.
pub open spec fn complete_all(bits: Seq<u8>, idxs: Seq<int>) -> Seq<u8>
    decreases idxs.len(),
{
    if idxs.len() == 0 {
        bits
    } else {
        bitfield_assign(complete_all(bits, idxs.drop_last()), idxs.last(), true)
    }
}

proof fn lemma_complete_all(bits: Seq<u8>, idxs: Seq<int>, j: int)
    requires
        0 <= j,
        forall|k: int| 0 <= k < idxs.len() ==> 0 <= #[trigger] idxs[k],
    ensures
        complete_all(bits, idxs).len() == bits.len(),
        bitfield_has(complete_all(bits, idxs), j) == (bitfield_has(bits, j) || (idxs.contains(j) && j / 8
            < bits.len())),
    decreases idxs.len(),
{
    if idxs.len() > 0 {
        let prefix = idxs.drop_last();
        assert forall|k: int| 0 <= k < prefix.len() implies 0 <= #[trigger] prefix[k] by {
            assert(prefix[k] == idxs[k]);
        }
        lemma_complete_all(bits, prefix, j);
        assert(0 <= idxs[idxs.len() - 1]);
        law_bitfield_assign(complete_all(bits, prefix), idxs.last(), true, j);
        if idxs.contains(j) && !prefix.contains(j) {
            let k = choose|k: int| 0 <= k < idxs.len() && idxs[k] == j;
            if k < idxs.len() - 1 {
                assert(prefix[k] == j);
            }
        }
        if prefix.contains(j) {
            let k = choose|k: int| 0 <= k < prefix.len() && prefix[k] == j;
            assert(idxs[k] == j);
        }
    }
}

/// A fresh state for `count` pieces, after `set_complete` on each piece of `idxs` in
/// turn, all of them below `count`, has `count` completed pieces (and `is_complete`
/// holds) exactly when every piece below `count` occurs in `idxs`.
pub proof fn law_complete_every_piece(count: nat, idxs: Seq<int>)
    requires
        forall|k: int| 0 <= k < idxs.len() ==> 0 <= #[trigger] idxs[k] < count,
    ensures
        ({
            let bits = complete_all(Seq::new(((count + 7) / 8) as nat, |_i: int| 0u8), idxs);
            bitfield_count(bits) == count <==> forall|i: int| 0 <= i < count ==> idxs.contains(i)
        }),
{
    let zeros = Seq::new(((count + 7) / 8) as nat, |_i: int| 0u8);
    let bits = complete_all(zeros, idxs);
    assert forall|j: int| 0 <= j implies #[trigger] bitfield_has(bits, j) == (idxs.contains(j) && j / 8
        < zeros.len()) by {
        lemma_complete_all(zeros, idxs, j);
        if j / 8 < zeros.len() {
            lemma_bit_ops(0u8, 0u8, (j % 8) as u8);
        }
    }
    assert forall|j: int| count <= j implies !#[trigger] bitfield_has(bits, j) by {
        if idxs.contains(j) {
            let k = choose|k: int| 0 <= k < idxs.len() && idxs[k] == j;
            assert(idxs[k] < count);
        }
    }
    lemma_complete_all(zeros, idxs, 0);
    law_complete_iff_all_marked(bits, count as int);
    assert((forall|i: int| 0 <= i < count ==> bitfield_has(bits, i)) == (forall|i: int|
        0 <= i < count ==> idxs.contains(i))) by {
        assert forall|i: int| 0 <= i < count implies (bitfield_has(bits, i) == idxs.contains(i)) by {
            assert(i / 8 < zeros.len());
        }
    }
}

/// No piece is both complete and being fetched.
pub open spec fn pieces_disjoint(completed: Seq<u8>, in_progress: Seq<u8>) -> bool {
    forall|j: int| 0 <= j ==> !(#[trigger] bitfield_has(completed, j) && bitfield_has(in_progress, j))
}

/// Claiming a claimable piece, releasing a piece, and completing a piece each keep
/// every piece from being both complete and being fetched.
pub proof fn law_pieces_stay_disjoint(completed: Seq<u8>, in_progress: Seq<u8>, peer: Seq<u8>, i: int)
    requires
        0 <= i,
        pieces_disjoint(completed, in_progress),
    ensures
        claimable(completed, in_progress, peer, i) ==> pieces_disjoint(
            completed,
            bitfield_assign(in_progress, i, true),
        ),
        pieces_disjoint(completed, bitfield_assign(in_progress, i, false)),
        pieces_disjoint(bitfield_assign(completed, i, true), bitfield_assign(in_progress, i, false)),
{
    if claimable(completed, in_progress, peer, i) {
        assert forall|j: int| 0 <= j implies !(#[trigger] bitfield_has(completed, j) && bitfield_has(
            bitfield_assign(in_progress, i, true),
            j,
        )) by {
            law_bitfield_assign(in_progress, i, true, j);
        }
    }
    assert forall|j: int| 0 <= j implies !(#[trigger] bitfield_has(completed, j) && bitfield_has(
        bitfield_assign(in_progress, i, false),
        j,
    )) by {
        law_bitfield_assign(in_progress, i, false, j);
    }
    assert forall|j: int| 0 <= j implies !(#[trigger] bitfield_has(bitfield_assign(completed, i, true), j)
        && bitfield_has(bitfield_assign(in_progress, i, false), j)) by {
        law_bitfield_assign(in_progress, i, false, j);
        law_bitfield_assign(completed, i, true, j);
    }
}

/// The message ids are those of the BitTorrent peer wire protocol: choke 0, unchoke 1,
/// interested 2, not interested 3, have 4, bitfield 5, request 6, piece 7, cancel 8;
/// so every id byte up to 8 reads as its message and back.
pub proof fn law_wire_ids(v: u8)
    requires
        v <= 8,
    ensures
        MessageId::Choke.spec_code() == 0,
        MessageId::Unchoke.spec_code() == 1,
        MessageId::Interested.spec_code() == 2,
        MessageId::NotInterested.spec_code() == 3,
        MessageId::Have.spec_code() == 4,
        MessageId::Bitfield.spec_code() == 5,
        MessageId::Request.spec_code() == 6,
        MessageId::Piece.spec_code() == 7,
        MessageId::Cancel.spec_code() == 8,
        exists|id: MessageId| #[trigger] id.spec_code() == v,
        forall|a: MessageId, b: MessageId| #[trigger] a.spec_code() == #[trigger] b.spec_code() ==> a == b,
{
    let id = if v == 0 {
        MessageId::Choke
    } else if v == 1 {
        MessageId::Unchoke
    } else if v == 2 {
        MessageId::Interested
    } else if v == 3 {
        MessageId::NotInterested
    } else if v == 4 {
        MessageId::Have
    } else if v == 5 {
        MessageId::Bitfield
    } else if v == 6 {
        MessageId::Request
    } else if v == 7 {
        MessageId::Piece
    } else {
        MessageId::Cancel
    };
    assert(id.spec_code() == v);
}

} // verus!
