//! Torrent metadata.
use vstd::prelude::*;
use crate::bencode::{
    BencodeValue, SpecValue, dict_get, law_binary_raw, law_dict_get_decodes, law_dict_values_decode,
    lemma_find_byte, spec_decode, spec_find_byte, try_decode_bencoded_value,
};
use crate::digest::{sha1, sha1_digest};
use vstd::utf8::encode_utf8;

verus! {

/// The fields that a torrent file gives.
pub struct SpecTorrent {
    pub url: Seq<char>,
    pub length: int,
    pub piece_length: int,
    pub pieces: Seq<u8>,
    /// The bytes of the `info` dictionary, from which the info hash is computed.
    pub info_raw: Seq<u8>,
}

/// What `Torrent::new` reads from the bytes of a torrent file; `None` for bytes that
/// hold no torrent.
/// The top value must be a dictionary with a text `announce` and a dictionary `info`,
/// which holds integers `length` and `piece length` and a binary `pieces`.
pub open spec fn spec_torrent(data: Seq<u8>) -> Option<SpecTorrent> {
    match spec_decode(data) {
        Some((SpecValue::Dict(d), _)) => match (dict_get(d, "announce"@), dict_get(d, "info"@)) {
            (Some(a), Some(info)) => match (a.value, info.value) {
                (SpecValue::Str(url), SpecValue::Dict(id)) => match (
                    dict_get(id, "length"@),
                    dict_get(id, "piece length"@),
                    dict_get(id, "pieces"@),
                ) {
                    (Some(l), Some(pl), Some(p)) => match (l.value, pl.value, p.value) {
                        (SpecValue::Int(len), SpecValue::Int(plen), SpecValue::Bin(_)) => match spec_find_byte(
                            p.raw,
                            58,
                        ) {
                            Some(c) => Some(
                                SpecTorrent {
                                    url,
                                    length: len,
                                    piece_length: plen,
                                    pieces: p.raw.skip(c + 1),
                                    info_raw: info.raw,
                                },
                            ),
                            None => None,
                        },
                        _ => None,
                    },
                    _ => None,
                },
                _ => None,
            },
            _ => None,
        },
        _ => None,
    }
}

/// The metadata of a single-file torrent.
pub struct Torrent {
    pub url: String,
    pub length: isize,
    pub piece_length: isize,
    /// The concatenated 20-byte SHA-1 hashes of the pieces.
    pub pieces: Vec<u8>,
    /// The SHA-1 digest of the bencoded `info` dictionary.
    pub info_hash: [u8; 20],
}

impl Torrent {
    /// True when the torrent holds what `t` describes.
    pub open spec fn matches(&self, t: SpecTorrent) -> bool {
        &&& self.url@ == t.url
        &&& self.length as int == t.length
        &&& self.piece_length as int == t.piece_length
        &&& self.pieces@ == t.pieces
        &&& self.info_hash@ == sha1_digest(t.info_raw)
    }

    /// Reads a torrent file; `None` exactly on the bytes that `Torrent::new` does not
    /// accept.
    pub fn try_new(data: &[u8]) -> (r: Option<Torrent>)
        ensures
            match spec_torrent(data@) {
                None => r is None,
                Some(t) => r matches Some(x) && x.matches(t),
            },
    {
        let (node, _) = match try_decode_bencoded_value(data) {
            Some(x) => x,
            None => return None,
        };
        let d = match &node.value {
            BencodeValue::Dict(d) => d,
            _ => return None,
        };
        let url = match d.get("announce") {
            Some(n) => match &n.value {
                BencodeValue::String(u) => u.clone(),
                _ => return None,
            },
            None => return None,
        };
        let info = match d.get("info") {
            Some(n) => n,
            None => return None,
        };
        let info_hash = sha1(info.raw);
        let id = match &info.value {
            BencodeValue::Dict(x) => x,
            _ => return None,
        };
        let length = match id.get("length") {
            Some(n) => match &n.value {
                BencodeValue::Integer(v) => *v,
                _ => return None,
            },
            None => return None,
        };
        let piece_length = match id.get("piece length") {
            Some(n) => match &n.value {
                BencodeValue::Integer(v) => *v,
                _ => return None,
            },
            None => return None,
        };
        let pieces = match id.get("pieces") {
            Some(n) => match &n.value {
                BencodeValue::Binary(_) => {
                    proof {
                        lemma_find_byte(n.raw@, 58);
                    }
                    match crate::bencode::find_byte(n.raw, 58) {
                        Some(c) => {
                            let raw_len = n.raw.len();
                            assert(c < raw_len);
                            vstd::slice::slice_to_vec(&n.raw[c + 1..raw_len])
                        },
                        None => return None,
                    }
                },
                _ => return None,
            },
            None => return None,
        };
        Some(Torrent { url, length, piece_length, pieces, info_hash })
    }

    /// Reads a torrent file.
    pub fn new(data: &[u8]) -> (r: Torrent)
        requires
            spec_torrent(data@) is Some,
        ensures
            r.matches(spec_torrent(data@).unwrap()),
    {
        let r = Torrent::try_new(data);
        r.unwrap()
    }
}


/// Lengths of magnitude below 2^53 are exact in the `f64` division by which the
/// number of pieces is defined.
pub open spec fn exact_length(length: int) -> bool {
    -0x20000000000000 < length < 0x20000000000000
}

/// The number of pieces: `(length as f64 / piece_length as f64).ceil() as u32`, the
/// rounded-up quotient saturated to the range of `u32`. A zero piece length gives
/// `u32::MAX` for a positive length and 0 otherwise.
pub open spec fn spec_count_pieces(length: int, piece_length: int) -> int {
    let q: int = if piece_length == 0 {
        if length > 0 {
            u32::MAX as int
        } else {
            0
        }
    } else if piece_length > 0 {
        -((-length) / piece_length)
    } else {
        -(length / (-piece_length))
    };
    if q < 0 {
        0
    } else if q > u32::MAX {
        u32::MAX as int
    } else {
        q
    }
}

/// The length of piece `piece` of `pieces`, as `calc_piece_length` computes it: the
/// piece length, but for the last piece what is left of the total length.
pub open spec fn spec_piece_length(length: isize, piece_length: isize, pieces: int, piece: int) -> int {
    if piece < pieces - 1 {
        (piece_length as u32) as int
    } else {
        (length as u32) - (piece_length as u32) * (pieces - 1)
    }
}

proof fn lemma_ceil_div(a: int, b: int)
    requires
        a > 0,
        b > 0,
    ensures
        -((-a) / b) == a / b + (if a % b != 0 { 1int } else { 0int }),
{
    let q = a / b;
    let r = a % b;
    assert(a == q * b + r && 0 <= r < b) by {
        vstd::arithmetic::div_mod::lemma_fundamental_div_mod(a, b);
    }
    if r == 0 {
        assert(-a == (-q) * b) by (nonlinear_arith)
            requires
                a == q * b + r,
                r == 0,
        ;
        vstd::arithmetic::div_mod::lemma_fundamental_div_mod_converse(-a, b, -q, 0);
    } else {
        assert(-a == (-q - 1) * b + (b - r)) by (nonlinear_arith)
            requires
                a == q * b + r,
        ;
        vstd::arithmetic::div_mod::lemma_fundamental_div_mod_converse(-a, b, -q - 1, b - r);
    }
}

impl Torrent {
    /// The number of pieces of the torrent.
    pub fn count_pieces(&self) -> (n: u32)
        requires
            exact_length(self.length as int),
        ensures
            n as int == spec_count_pieces(self.length as int, self.piece_length as int),
    {
        let a = self.length;
        let b = self.piece_length;
        if b == 0 {
            if a > 0 {
                u32::MAX
            } else {
                0
            }
        } else if (a > 0 && b > 0) || (a < 0 && b < 0) {
            let am: u64 = if a > 0 {
                a as u64
            } else {
                ((-(a + 1)) as u64) + 1
            };
            let bm: u64 = if b > 0 {
                b as u64
            } else {
                ((-(b + 1)) as u64) + 1
            };
            let q: u64 = am / bm + if am % bm != 0 {
                1
            } else {
                0
            };
            proof {
                lemma_ceil_div(am as int, bm as int);
                if b < 0 {
                    assert(am as int == -(a as int) && bm as int == -(b as int));
                }
            }
            if q > u32::MAX as u64 {
                u32::MAX
            } else {
                q as u32
            }
        } else {
            proof {
                if b > 0 {
                    assert((-(a as int)) / (b as int) >= 0) by {
                        vstd::arithmetic::div_mod::lemma_div_pos_is_pos(-(a as int), b as int);
                    }
                } else {
                    assert((a as int) / (-(b as int)) >= 0) by {
                        vstd::arithmetic::div_mod::lemma_div_pos_is_pos(a as int, -(b as int));
                    }
                }
            }
            0
        }
    }

    /// True when `calc_piece_length(piece)` is defined: the torrent has a piece, and
    /// for the last piece the length left over fits in `u32` arithmetic.
    pub open spec fn piece_length_defined(&self, piece: u32) -> bool {
        let pieces = spec_count_pieces(self.length as int, self.piece_length as int);
        &&& pieces >= 1
        &&& piece >= pieces - 1 ==> (self.piece_length as u32) * (pieces - 1) <= (self.length as u32)
    }

    /// The length of piece `piece`.
    pub fn calc_piece_length(&self, piece: u32) -> (n: u32)
        requires
            exact_length(self.length as int),
            self.piece_length_defined(piece),
        ensures
            n as int == spec_piece_length(
                self.length,
                self.piece_length,
                spec_count_pieces(self.length as int, self.piece_length as int),
                piece as int,
            ),
    {
        let pieces = self.count_pieces();
        if piece < pieces - 1 {
            self.piece_length as u32
        } else {
            self.length as u32 - self.piece_length as u32 * (pieces - 1)
        }
    }

    /// Whether `calc_piece_length(piece)` is defined.
    pub fn is_piece_length_defined(&self, piece: u32) -> (r: bool)
        requires
            exact_length(self.length as int),
        ensures
            r == self.piece_length_defined(piece),
    {
        let pieces = self.count_pieces();
        if pieces == 0 {
            return false;
        }
        if piece < pieces - 1 {
            return true;
        }
        let pl = (self.piece_length as u32) as u64;
        let rest = (pieces - 1) as u64;
        assert(pl * rest <= u64::MAX) by (nonlinear_arith)
            requires
                pl <= u32::MAX,
                rest <= u32::MAX,
        ;
        let product: u64 = pl * rest;
        product <= (self.length as u32) as u64
    }
}


/// The protocol name that opens a handshake, "BitTorrent protocol".
pub open spec fn protocol_name() -> Seq<u8> {
    seq![66u8, 105, 116, 84, 111, 114, 114, 101, 110, 116, 32, 112, 114, 111, 116, 111, 99, 111, 108]
}

/// A handshake: the length of the protocol name, the name, eight reserved zero bytes,
/// the info hash and the peer id.
pub open spec fn spec_handshake(info_hash: Seq<u8>, peer_id: Seq<u8>) -> Seq<u8> {
    seq![19u8] + protocol_name() + Seq::new(8, |_i: int| 0u8) + info_hash + peer_id
}

impl Torrent {
    /// The handshake that opens a peer connection for this torrent.
    pub fn handshake_message(&self, peer_id: &str) -> (r: Vec<u8>)
        ensures
            r@ == spec_handshake(self.info_hash@, encode_utf8(peer_id@)),
    {
        let name: [u8; 19] = [66, 105, 116, 84, 111, 114, 114, 101, 110, 116, 32, 112, 114, 111, 116, 111, 99, 111, 108];
        let mut msg: Vec<u8> = Vec::with_capacity(68);
        msg.push(19);
        let mut i: usize = 0;
        while i < 19
            invariant
                0 <= i <= 19,
                name@ == protocol_name(),
                msg@ == seq![19u8] + protocol_name().take(i as int),
            decreases 19 - i,
        {
            msg.push(name[i]);
            assert(protocol_name().take(i + 1) =~= protocol_name().take(i as int).push(name@[i as int]));
            i = i + 1;
        }
        let mut z: usize = 0;
        let ghost head = msg@;
        while z < 8
            invariant
                0 <= z <= 8,
                msg@ == head + Seq::new(z as nat, |_i: int| 0u8),
            decreases 8 - z,
        {
            msg.push(0);
            assert(head + Seq::new((z + 1) as nat, |_i: int| 0u8) =~= (head + Seq::new(z as nat, |_i: int| 0u8)).push(0u8));
            z = z + 1;
        }
        let mut k: usize = 0;
        let ghost mid = msg@;
        while k < 20
            invariant
                0 <= k <= 20,
                msg@ == mid + self.info_hash@.take(k as int),
            decreases 20 - k,
        {
            msg.push(self.info_hash[k]);
            assert(self.info_hash@.take(k + 1) =~= self.info_hash@.take(k as int).push(self.info_hash@[k as int]));
            k = k + 1;
        }
        let id = peer_id.as_bytes();
        let mut j: usize = 0;
        let ghost tail = msg@;
        while j < id.len()
            invariant
                0 <= j <= id@.len(),
                msg@ == tail + id@.take(j as int),
            decreases id@.len() - j,
        {
            msg.push(id[j]);
            assert(id@.take(j + 1) =~= id@.take(j as int).push(id@[j as int]));
            j = j + 1;
        }
        assert(protocol_name().take(19) =~= protocol_name());
        assert(self.info_hash@.take(20) =~= self.info_hash@);
        assert(id@.take(id@.len() as int) =~= id@);
        assert(msg@ =~= spec_handshake(self.info_hash@, encode_utf8(peer_id@)));
        msg
    }
}


/// For a positive length and piece length that fit in `u32`, the pieces cover the
/// length exactly: there is at least one piece, every piece length is defined, all
/// pieces but the last are full, and the last holds the rest, between 1 byte and a
/// full piece.
pub proof fn law_pieces_cover_length(length: isize, piece_length: isize)
    requires
        0 < length <= u32::MAX,
        0 < piece_length <= u32::MAX,
    ensures
        ({
            let c = spec_count_pieces(length as int, piece_length as int);
            let last = spec_piece_length(length, piece_length, c, c - 1);
            &&& 1 <= c <= length
            &&& (piece_length as u32) * (c - 1) <= (length as u32)
            &&& 1 <= last <= piece_length
            &&& (c - 1) * piece_length + last == length
            &&& forall|i: int|
                0 <= i < c - 1 ==> #[trigger] spec_piece_length(length, piece_length, c, i) == piece_length
        }),
{
    let a = length as int;
    let b = piece_length as int;
    lemma_ceil_div(a, b);
    let q = a / b;
    let r = a % b;
    vstd::arithmetic::div_mod::lemma_fundamental_div_mod(a, b);
    assert(q <= a) by {
        vstd::arithmetic::div_mod::lemma_div_is_ordered_by_denominator(a, 1, b);
    }
    if r == 0 {
        assert(q >= 1) by (nonlinear_arith)
            requires
                a == b * q + r,
                r == 0,
                a > 0,
                b > 0,
        ;
    }
    assert(q >= 0) by {
        vstd::arithmetic::div_mod::lemma_div_pos_is_pos(a, b);
    }
    assert(q <= q * b) by (nonlinear_arith)
        requires
            q >= 0,
            b >= 1,
    ;
    assert(a == b * q + r);
    assert(q * b == b * q) by (nonlinear_arith);
    if r != 0 {
        assert(q + 1 <= a);
    }
    assert(length as u32 == a);
    assert(piece_length as u32 == b);
    let c = spec_count_pieces(a, b);
    assert(c == q + (if r != 0 { 1int } else { 0int }));
    assert((c - 1) * b + (a - b * (c - 1)) == a) by (nonlinear_arith);
    if r == 0 {
        assert(b * (c - 1) == a - b) by (nonlinear_arith)
            requires
                c == q,
                a == b * q,
        ;
    } else {
        assert(b * (c - 1) == a - r) by (nonlinear_arith)
            requires
                c == q + 1,
                a == b * q + r,
        ;
    }
    assert((c - 1) * b == b * (c - 1)) by (nonlinear_arith);
}

/// The piece hashes read from a torrent are the bytes of the binary `pieces` value of
/// its `info` dictionary, as the decoder gives them.
pub proof fn law_torrent_pieces(data: Seq<u8>)
    requires
        spec_torrent(data) is Some,
    ensures
        match spec_decode(data) {
            Some((SpecValue::Dict(d), _)) => match dict_get(d, "info"@) {
                Some(info) => match info.value {
                    SpecValue::Dict(id) => match dict_get(id, "pieces"@) {
                        Some(p) => p.value == SpecValue::Bin(spec_torrent(data).unwrap().pieces),
                        None => false,
                    },
                    _ => false,
                },
                None => false,
            },
            _ => false,
        },
{
    let d = match spec_decode(data) {
        Some((SpecValue::Dict(d), _)) => d,
        _ => seq![],
    };
    law_dict_values_decode(data);
    law_dict_get_decodes(d, "info"@);
    let info = dict_get(d, "info"@).unwrap();
    let id = match info.value {
        SpecValue::Dict(id) => id,
        _ => seq![],
    };
    law_dict_values_decode(info.raw);
    law_dict_get_decodes(id, "pieces"@);
    let p = dict_get(id, "pieces"@).unwrap();
    let b = match p.value {
        SpecValue::Bin(b) => b,
        _ => seq![],
    };
    law_binary_raw(p.raw, b);
}

} // verus!
