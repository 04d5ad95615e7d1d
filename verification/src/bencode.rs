//! Bencode decoding.
use vstd::prelude::*;
use vstd::utf8::*;
use crate::bytes::{
    KeyOrder, lex_order, lemma_lex_order_equal, lemma_lex_order_antisym, lemma_lex_order_trans,
    compare_bytes,
};

verus! {

/// True when `b` is an ASCII decimal digit.
pub open spec fn is_digit(b: u8) -> bool {
    48 <= b <= 57
}

pub open spec fn all_digits(s: Seq<u8>) -> bool {
    forall|i: int| 0 <= i < s.len() ==> is_digit(#[trigger] s[i])
}

/// The number that a sequence of decimal digits spells.
pub open spec fn digits_value(s: Seq<u8>) -> nat
    decreases s.len(),
{
    if s.len() == 0 {
        0
    } else {
        digits_value(s.drop_last()) * 10 + (s.last() - 48) as nat
    }
}

/// What `usize::from_str` gives on these bytes: an optional `+`, then at least one
/// digit and nothing else, of a value that fits.
pub open spec fn spec_parse_usize(s: Seq<u8>) -> Option<nat> {
    let digits = if s.len() > 0 && s[0] == 43 { s.drop_first() } else { s };
    if digits.len() > 0 && all_digits(digits) && digits_value(digits) <= usize::MAX {
        Some(digits_value(digits))
    } else {
        None
    }
}

/// What `isize::from_str` gives on these bytes: an optional `+` or `-`, then at
/// least one digit and nothing else, of a value that fits.
pub open spec fn spec_parse_isize(s: Seq<u8>) -> Option<int> {
    let neg = s.len() > 0 && s[0] == 45;
    let digits = if s.len() > 0 && (s[0] == 45 || s[0] == 43) { s.drop_first() } else { s };
    if digits.len() > 0 && all_digits(digits) {
        let v: int = if neg { -digits_value(digits) } else { digits_value(digits) as int };
        if isize::MIN <= v <= isize::MAX { Some(v) } else { None }
    } else {
        None
    }
}

proof fn lemma_digits_value_prefix(s: Seq<u8>, i: int)
    requires
        0 <= i <= s.len(),
        all_digits(s),
    ensures
        digits_value(s) >= digits_value(s.take(i)),
    decreases s.len(),
{
    if i < s.len() {
        assert(s.drop_last().take(i) =~= s.take(i));
        lemma_digits_value_prefix(s.drop_last(), i);
    } else {
        assert(s.take(i) =~= s);
    }
}

/// The value of a run of decimal digits, or `None` when a byte is not a digit,
/// the run is empty, or the value does not fit in a `usize`.
fn parse_digits(d: &[u8]) -> (r: Option<usize>)
    ensures
        r == (if d@.len() > 0 && all_digits(d@) && digits_value(d@) <= usize::MAX {
            Some(digits_value(d@) as usize)
        } else {
            None::<usize>
        }),
{
    if d.len() == 0 {
        return None;
    }
    let mut acc: usize = 0;
    let mut i: usize = 0;
    while i < d.len()
        invariant
            0 <= i <= d@.len(),
            all_digits(d@.take(i as int)),
            acc == digits_value(d@.take(i as int)),
        decreases d@.len() - i,
    {
        let b = d[i];
        if !(48 <= b && b <= 57) {
            assert(!all_digits(d@));
            return None;
        }
        assert(d@.take(i + 1).drop_last() =~= d@.take(i as int));
        assert(all_digits(d@.take(i + 1)));
        match acc.checked_mul(10) {
            None => {
                proof {
                    if all_digits(d@) {
                        lemma_digits_value_prefix(d@, i + 1);
                    }
                }
                return None;
            },
            Some(m) => match m.checked_add((b - 48) as usize) {
                None => {
                    proof {
                        if all_digits(d@) {
                            lemma_digits_value_prefix(d@, i + 1);
                        }
                    }
                    return None;
                },
                Some(v) => {
                    acc = v;
                },
            },
        }
        i = i + 1;
    }
    assert(d@.take(d@.len() as int) =~= d@);
    Some(acc)
}

/// `usize::from_str` on the bytes.
fn parse_usize(s: &[u8]) -> (r: Option<usize>)
    ensures
        r == (match spec_parse_usize(s@) {
            Some(n) => Some(n as usize),
            None => None::<usize>,
        }),
{
    if s.len() > 0 && s[0] == 43 {
        let d = &s[1..s.len()];
        assert(d@ =~= s@.drop_first());
        parse_digits(d)
    } else {
        parse_digits(s)
    }
}

/// `isize::from_str` on the bytes.
fn parse_isize(s: &[u8]) -> (r: Option<isize>)
    ensures
        r == (match spec_parse_isize(s@) {
            Some(n) => Some(n as isize),
            None => None::<isize>,
        }),
{
    let neg = s.len() > 0 && s[0] == 45;
    let d = if s.len() > 0 && (s[0] == 45 || s[0] == 43) {
        &s[1..s.len()]
    } else {
        s
    };
    assert(d@ =~= (if s@.len() > 0 && (s@[0] == 45 || s@[0] == 43) { s@.drop_first() } else { s@ }));
    match parse_digits(d) {
        None => {
            None
        },
        Some(mag) => {
            if neg {
                if mag <= isize::MAX as usize {
                    Some(-(mag as isize))
                } else if mag - 1 == isize::MAX as usize {
                    Some(isize::MIN)
                } else {
                    None
                }
            } else {
                if mag <= isize::MAX as usize {
                    Some(mag as isize)
                } else {
                    None
                }
            }
        },
    }
}


/// The first position of byte `b` in `s`.
pub open spec fn spec_find_byte(s: Seq<u8>, b: u8) -> Option<int>
    decreases s.len(),
{
    if s.len() == 0 {
        None
    } else if s[0] == b {
        Some(0)
    } else {
        match spec_find_byte(s.drop_first(), b) {
            Some(i) => Some(i + 1),
            None => None,
        }
    }
}

pub proof fn lemma_find_byte(s: Seq<u8>, b: u8)
    ensures
        spec_find_byte(s, b) matches Some(i) ==> {
            &&& 0 <= i < s.len()
            &&& s[i] == b
            &&& forall|j: int| 0 <= j < i ==> s[j] != b
        },
        spec_find_byte(s, b) is None ==> forall|j: int| 0 <= j < s.len() ==> s[j] != b,
    decreases s.len(),
{
    if s.len() > 0 {
        lemma_find_byte(s.drop_first(), b);
        if s[0] != b {
            assert forall|j: int| 0 < j < s.len() implies s[j] == s.drop_first()[j - 1] by {}
        }
    }
}

proof fn lemma_find_byte_skip(s: Seq<u8>, b: u8, i: int)
    requires
        0 <= i <= s.len(),
        forall|j: int| 0 <= j < i ==> s[j] != b,
    ensures
        spec_find_byte(s, b) == (match spec_find_byte(s.skip(i), b) {
            Some(x) => Some(x + i),
            None => None,
        }),
    decreases i,
{
    if i == 0 {
        assert(s.skip(0) =~= s);
    } else {
        assert(s[0] != b);
        assert(s.drop_first().skip(i - 1) =~= s.skip(i));
        lemma_find_byte_skip(s.drop_first(), b, i - 1);
    }
}

/// The first position of byte `b` in `s`, as `Iterator::position` finds it.
pub(crate) fn find_byte(s: &[u8], b: u8) -> (r: Option<usize>)
    ensures
        r == (match spec_find_byte(s@, b) {
            Some(i) => Some(i as usize),
            None => None::<usize>,
        }),
{
    let mut i: usize = 0;
    while i < s.len()
        invariant
            0 <= i <= s@.len(),
            forall|j: int| 0 <= j < i ==> s@[j] != b,
        decreases s@.len() - i,
    {
        if s[i] == b {
            proof {
                lemma_find_byte_skip(s@, b, i as int);
            }
            return Some(i);
        }
        i = i + 1;
    }
    proof {
        lemma_find_byte_skip(s@, b, i as int);
    }
    None
}

/// Calls `String::from_utf8` (std): `Some` exactly when the bytes are valid UTF-8,
/// and then the string holds the characters that the bytes encode.
#[verifier::external_body]
pub(crate) fn utf8_string(bytes: &[u8]) -> (r: Option<String>)
    ensures
        r is Some <==> valid_utf8(bytes@),
        r matches Some(s) ==> s@ == decode_utf8(bytes@),
{
    String::from_utf8(bytes.to_vec()).ok()
}


/// The meaning of a decoded bencode value.
pub enum SpecValue {
    Str(Seq<char>),
    Bin(Seq<u8>),
    Int(int),
    List(Seq<SpecNode>),
    /// Entries with their keys in increasing byte order.
    Dict(Seq<(Seq<char>, SpecNode)>),
}

/// A decoded value together with the bytes it was decoded from.
pub struct SpecNode {
    pub value: SpecValue,
    pub raw: Seq<u8>,
}

/// A decoded bencode value together with the input bytes it spans.
#[derive(Debug, PartialEq)]
pub struct BencodeNode<'a> {
    pub value: BencodeValue<'a>,
    pub raw: &'a [u8],
}

/// A decoded bencode value. Byte strings that are valid UTF-8 become `String`,
/// the others `Binary`.
#[derive(Debug, PartialEq)]
pub enum BencodeValue<'a> {
    String(String),
    Binary(Vec<u8>),
    Integer(isize),
    List(Vec<BencodeNode<'a>>),
    Dict(BencodeDict<'a>),
}

/// A bencode dictionary: its entries, kept in increasing byte order of their keys,
/// each key once.
#[derive(Debug, PartialEq)]
pub struct BencodeDict<'a> {
    pub entries: Vec<(String, BencodeNode<'a>)>,
}

pub open spec fn node_view<'a>(n: BencodeNode<'a>) -> SpecNode
    decreases n,
{
    SpecNode { value: value_view(n.value), raw: n.raw@ }
}

pub open spec fn value_view<'a>(v: BencodeValue<'a>) -> SpecValue
    decreases v,
{
    match v {
        BencodeValue::String(s) => SpecValue::Str(s@),
        BencodeValue::Binary(b) => SpecValue::Bin(b@),
        BencodeValue::Integer(i) => SpecValue::Int(i as int),
        BencodeValue::List(l) => SpecValue::List(nodes_view(l@)),
        BencodeValue::Dict(d) => SpecValue::Dict(entries_view(d.entries@)),
    }
}

pub open spec fn nodes_view<'a>(s: Seq<BencodeNode<'a>>) -> Seq<SpecNode>
    decreases s,
{
    if s.len() == 0 {
        seq![]
    } else {
        nodes_view(s.drop_last()).push(node_view(s.last()))
    }
}

pub open spec fn entries_view<'a>(s: Seq<(String, BencodeNode<'a>)>) -> Seq<(Seq<char>, SpecNode)>
    decreases s,
{
    if s.len() == 0 {
        seq![]
    } else {
        entries_view(s.drop_last()).push((s.last().0@, node_view(s.last().1)))
    }
}

impl<'a> View for BencodeNode<'a> {
    type V = SpecNode;

    open spec fn view(&self) -> SpecNode {
        node_view(*self)
    }
}

impl<'a> View for BencodeValue<'a> {
    type V = SpecValue;

    open spec fn view(&self) -> SpecValue {
        value_view(*self)
    }
}

impl<'a> View for BencodeDict<'a> {
    type V = Seq<(Seq<char>, SpecNode)>;

    open spec fn view(&self) -> Seq<(Seq<char>, SpecNode)> {
        entries_view(self.entries@)
    }
}

pub proof fn lemma_entries_view<'a>(s: Seq<(String, BencodeNode<'a>)>)
    ensures
        entries_view(s).len() == s.len(),
        forall|i: int| 0 <= i < s.len() ==> #[trigger] entries_view(s)[i] == (s[i].0@, node_view(s[i].1)),
    decreases s.len(),
{
    if s.len() > 0 {
        lemma_entries_view(s.drop_last());
    }
}

/// How two dictionary keys compare: by the bytes of their UTF-8 encodings, as
/// `str` is ordered.
pub open spec fn key_order(a: Seq<char>, b: Seq<char>) -> KeyOrder {
    lex_order(encode_utf8(a), encode_utf8(b))
}

pub proof fn lemma_key_order_equal(a: Seq<char>, b: Seq<char>)
    ensures
        (key_order(a, b) == KeyOrder::Equal) <==> a == b,
{
    lemma_lex_order_equal(encode_utf8(a), encode_utf8(b));
    encode_utf8_decode_utf8(a);
    encode_utf8_decode_utf8(b);
}

/// The value stored under `k`.
pub open spec fn dict_get<V>(e: Seq<(Seq<char>, V)>, k: Seq<char>) -> Option<V>
    decreases e.len(),
{
    if e.len() == 0 {
        None
    } else if e[0].0 == k {
        Some(e[0].1)
    } else {
        dict_get(e.drop_first(), k)
    }
}

/// Storing `v` under `k`, as `BTreeMap::insert` does: the entry of an equal key
/// is replaced, otherwise a new entry goes before the first greater key.
pub open spec fn dict_insert<V>(e: Seq<(Seq<char>, V)>, k: Seq<char>, v: V) -> Seq<(Seq<char>, V)>
    decreases e.len(),
{
    if e.len() == 0 {
        seq![(k, v)]
    } else if key_order(e[0].0, k) == KeyOrder::Less {
        seq![e[0]] + dict_insert(e.drop_first(), k, v)
    } else if e[0].0 == k {
        seq![(k, v)] + e.drop_first()
    } else {
        seq![(k, v)] + e
    }
}

/// The dictionary that collecting these pairs in order into a `BTreeMap` gives.
pub open spec fn dict_from_pairs<V>(pairs: Seq<(Seq<char>, V)>) -> Seq<(Seq<char>, V)>
    decreases pairs.len(),
{
    if pairs.len() == 0 {
        seq![]
    } else {
        dict_insert(dict_from_pairs(pairs.drop_last()), pairs.last().0, pairs.last().1)
    }
}

/// Keys strictly increase.
pub open spec fn dict_sorted<V>(e: Seq<(Seq<char>, V)>) -> bool {
    forall|i: int, j: int|
        0 <= i < j < e.len() ==> key_order(#[trigger] e[i].0, #[trigger] e[j].0) == KeyOrder::Less
}

proof fn lemma_dict_insert_prefix<V>(e: Seq<(Seq<char>, V)>, k: Seq<char>, v: V, i: int)
    requires
        0 <= i <= e.len(),
        forall|j: int| 0 <= j < i ==> key_order(#[trigger] e[j].0, k) == KeyOrder::Less,
    ensures
        dict_insert(e, k, v) == e.take(i) + dict_insert(e.skip(i), k, v),
    decreases i,
{
    if i == 0 {
        assert(e.skip(0) =~= e);
        assert(e.take(0) + dict_insert(e, k, v) =~= dict_insert(e, k, v));
    } else {
        lemma_dict_insert_prefix(e.drop_first(), k, v, i - 1);
        assert(e.drop_first().skip(i - 1) =~= e.skip(i));
        assert(seq![e[0]] + e.drop_first().take(i - 1) =~= e.take(i));
        assert(dict_insert(e, k, v) == seq![e[0]] + dict_insert(e.drop_first(), k, v));
        assert(seq![e[0]] + (e.drop_first().take(i - 1) + dict_insert(e.skip(i), k, v))
            =~= e.take(i) + dict_insert(e.skip(i), k, v));
    }
}

proof fn lemma_dict_get_skip<V>(e: Seq<(Seq<char>, V)>, k: Seq<char>, i: int)
    requires
        0 <= i <= e.len(),
        forall|j: int| 0 <= j < i ==> #[trigger] e[j].0 != k,
    ensures
        dict_get(e, k) == dict_get(e.skip(i), k),
    decreases i,
{
    if i == 0 {
        assert(e.skip(0) =~= e);
    } else {
        assert(e[0].0 != k);
        assert(e.drop_first().skip(i - 1) =~= e.skip(i));
        lemma_dict_get_skip(e.drop_first(), k, i - 1);
    }
}

impl<'a> BencodeDict<'a> {
    /// An empty dictionary.
    pub fn new() -> (d: Self)
        ensures
            d@ == Seq::<(Seq<char>, SpecNode)>::empty(),
    {
        BencodeDict { entries: Vec::new() }
    }

    /// The number of entries.
    pub fn len(&self) -> (n: usize)
        ensures
            n == self@.len(),
    {
        proof {
            lemma_entries_view(self.entries@);
        }
        self.entries.len()
    }

    /// Stores `node` under `key`, replacing the entry of an equal key.
    pub fn insert(&mut self, key: String, node: BencodeNode<'a>)
        ensures
            final(self)@ == dict_insert(old(self)@, key@, node@),
    {
        proof {
            lemma_entries_view(self.entries@);
        }
        let ghost e = self@;
        let mut i: usize = 0;
        let mut found = false;
        let mut equal = false;
        while !found && i < self.entries.len()
            invariant
                e == entries_view(self.entries@),
                e.len() == self.entries@.len(),
                forall|j: int| 0 <= j < e.len() ==> #[trigger] e[j] == (self.entries@[j].0@, node_view(self.entries@[j].1)),
                0 <= i <= e.len(),
                forall|j: int| 0 <= j < i ==> key_order(#[trigger] e[j].0, key@) == KeyOrder::Less,
                found ==> i < e.len() && key_order(e[i as int].0, key@) != KeyOrder::Less,
                found ==> (equal <==> e[i as int].0 == key@),
            decreases e.len() - i + (if found { 0int } else { 1int }),
        {
            let o = compare_bytes(self.entries[i].0.as_str().as_bytes(), key.as_str().as_bytes());
            if o == KeyOrder::Less {
                i = i + 1;
            } else {
                proof {
                    lemma_key_order_equal(e[i as int].0, key@);
                }
                found = true;
                equal = o == KeyOrder::Equal;
            }
        }
        proof {
            lemma_dict_insert_prefix(e, key@, node@, i as int);
        }
        let ghost kv = (key@, node@);
        if found && equal {
            self.entries.set(i, (key, node));
            proof {
                lemma_entries_view(self.entries@);
                assert(e.skip(i as int).drop_first() =~= e.skip(i + 1));
                assert(self@ =~= e.take(i as int) + (seq![kv] + e.skip(i + 1)));
            }
        } else {
            self.entries.insert(i, (key, node));
            proof {
                lemma_entries_view(self.entries@);
                if i < e.len() {
                    lemma_key_order_equal(e[i as int].0, key@);
                }
                assert(self@ =~= e.take(i as int) + (seq![kv] + e.skip(i as int)));
            }
        }
    }

    /// The node stored under `key`.
    pub fn get(&self, key: &str) -> (r: Option<&BencodeNode<'a>>)
        ensures
            r is None <==> dict_get(self@, key@) is None,
            r matches Some(n) ==> dict_get(self@, key@) == Some(n@),
    {
        proof {
            lemma_entries_view(self.entries@);
        }
        let ghost e = self@;
        let mut i: usize = 0;
        while i < self.entries.len()
            invariant
                e == entries_view(self.entries@),
                e.len() == self.entries@.len(),
                forall|j: int| 0 <= j < e.len() ==> #[trigger] e[j] == (self.entries@[j].0@, node_view(self.entries@[j].1)),
                0 <= i <= e.len(),
                forall|j: int| 0 <= j < i ==> #[trigger] e[j].0 != key@,
            decreases e.len() - i,
        {
            let o = compare_bytes(self.entries[i].0.as_str().as_bytes(), key.as_bytes());
            proof {
                lemma_key_order_equal(e[i as int].0, key@);
            }
            if o == KeyOrder::Equal {
                proof {
                    lemma_dict_get_skip(e, key@, i as int);
                }
                return Some(&self.entries[i].1);
            }
            i = i + 1;
        }
        proof {
            lemma_dict_get_skip(e, key@, i as int);
        }
        None
    }
}


/// The value that `decode_bencoded_value` gives for the input `s`, and the number of
/// bytes it spans; `None` where the bytes do not start with a value that decodes.
pub open spec fn spec_decode(s: Seq<u8>) -> Option<(SpecValue, int)>
    decreases s.len(), 0int,
{
    if s.len() == 0 {
        None
    } else if s[0] == 108 {
        match spec_decode_list(s.drop_first()) {
            Some((items, n)) => Some((SpecValue::List(items), n + 1)),
            None => None,
        }
    } else if s[0] == 100 {
        match spec_decode_dict(s.drop_first()) {
            Some((pairs, n)) => Some((SpecValue::Dict(dict_from_pairs(pairs)), n + 1)),
            None => None,
        }
    } else if s[0] == 105 {
        match spec_find_byte(s, 101) {
            Some(pos) => match spec_parse_isize(s.subrange(1, pos)) {
                Some(v) => Some((SpecValue::Int(v), pos + 1)),
                None => None,
            },
            None => None,
        }
    } else if is_digit(s[0]) {
        match spec_find_byte(s, 58) {
            Some(pos) => match spec_parse_usize(s.take(pos)) {
                Some(n) => if pos + 1 + n <= s.len() {
                    let body = s.subrange(pos + 1, pos + 1 + n);
                    Some(
                        (
                            if valid_utf8(body) {
                                SpecValue::Str(decode_utf8(body))
                            } else {
                                SpecValue::Bin(body)
                            },
                            pos + 1 + n,
                        ),
                    )
                } else {
                    None
                },
                None => None,
            },
            None => None,
        }
    } else {
        None
    }
}

/// The items of a list whose opening `l` is already consumed, and the number of
/// bytes up to and including its closing byte.
pub open spec fn spec_decode_list(t: Seq<u8>) -> Option<(Seq<SpecNode>, int)>
    decreases t.len(), 1int,
{
    if t.len() == 0 {
        None
    } else if t[0] == 101 {
        Some((seq![], 1))
    } else {
        match spec_decode(t) {
            Some((v, n)) => if 0 < n <= t.len() {
                match spec_decode_list(t.skip(n)) {
                    Some((items, m)) => Some((seq![SpecNode { value: v, raw: t.take(n) }] + items, n + m)),
                    None => None,
                }
            } else {
                None
            },
            None => None,
        }
    }
}

/// The key and value pairs of a dictionary whose opening `d` is already consumed,
/// in input order, and the number of bytes up to and including the byte after the
/// last pair. A key that is not text ends the dictionary after its value.
pub open spec fn spec_decode_dict(t: Seq<u8>) -> Option<(Seq<(Seq<char>, SpecNode)>, int)>
    decreases t.len(), 1int,
{
    if t.len() == 0 {
        None
    } else if t[0] == 101 {
        Some((seq![], 1))
    } else {
        match spec_decode(t) {
            Some((kv, n)) => if 0 < n <= t.len() {
                let t2 = t.skip(n);
                match spec_decode(t2) {
                    Some((vv, m)) => if 0 < m <= t2.len() {
                        let t3 = t2.skip(m);
                        let val = SpecNode { value: vv, raw: t2.take(m) };
                        match kv {
                            SpecValue::Str(k) => match spec_decode_dict(t3) {
                                Some((pairs, r)) => Some((seq![(k, val)] + pairs, n + m + r)),
                                None => None,
                            },
                            _ => if t3.len() >= 1 {
                                Some((seq![], n + m + 1))
                            } else {
                                None
                            },
                        }
                    } else {
                        None
                    },
                    None => None,
                }
            } else {
                None
            },
            None => None,
        }
    }
}

/// A decoded value spans at least one byte of its input.
pub proof fn lemma_decode_len(s: Seq<u8>)
    ensures
        spec_decode(s) matches Some((_, n)) ==> 0 < n <= s.len(),
    decreases s.len(), 0int,
{
    if s.len() > 0 {
        if s[0] == 108 {
            lemma_decode_list_len(s.drop_first());
        } else if s[0] == 100 {
            lemma_decode_dict_len(s.drop_first());
        } else if s[0] == 105 {
            lemma_find_byte(s, 101);
        } else if is_digit(s[0]) {
            lemma_find_byte(s, 58);
        }
    }
}

proof fn lemma_decode_list_len(t: Seq<u8>)
    ensures
        spec_decode_list(t) matches Some((_, m)) ==> 0 < m <= t.len(),
    decreases t.len(), 1int,
{
    if t.len() > 0 && t[0] != 101 {
        lemma_decode_len(t);
        if let Some((_, n)) = spec_decode(t) {
            if 0 < n <= t.len() {
                lemma_decode_list_len(t.skip(n));
            }
        }
    }
}

proof fn lemma_decode_dict_len(t: Seq<u8>)
    ensures
        spec_decode_dict(t) matches Some((_, m)) ==> 0 < m <= t.len(),
    decreases t.len(), 1int,
{
    if t.len() > 0 && t[0] != 101 {
        lemma_decode_len(t);
        if let Some((_, n)) = spec_decode(t) {
            if 0 < n <= t.len() {
                let t2 = t.skip(n);
                lemma_decode_len(t2);
                if let Some((_, m)) = spec_decode(t2) {
                    if 0 < m <= t2.len() {
                        lemma_decode_dict_len(t2.skip(m));
                    }
                }
            }
        }
    }
}


/// Decodes the bencoded value at the start of `encoded_value`, giving the node and the
/// bytes after it; `None` exactly on the inputs that `decode_bencoded_value` does not
/// accept.
pub fn try_decode_bencoded_value<'a>(encoded_value: &'a [u8]) -> (r: Option<(BencodeNode<'a>, &'a [u8])>)
    ensures
        match spec_decode(encoded_value@) {
            None => r is None,
            Some((v, n)) => r matches Some((node, rest)) && node@ == (SpecNode {
                value: v,
                raw: encoded_value@.take(n),
            }) && rest@ == encoded_value@.skip(n),
        },
    decreases encoded_value@.len(),
{
    let s = encoded_value;
    proof {
        lemma_decode_len(s@);
    }
    if s.len() == 0 {
        return None;
    }
    let first = s[0];
    if first == 108 {
        let ghost t0 = s@.drop_first();
        let mut rest: &'a [u8] = &s[1..s.len()];
        let mut items: Vec<BencodeNode<'a>> = Vec::new();
        let ghost mut k: int = 0;
        assert(t0.skip(0) =~= t0);
        while !(rest.len() == 0 || rest[0] == 101)
            invariant
                s == encoded_value,
                s@.len() > 0,
                s@[0] == 108,
                t0 == s@.drop_first(),
                0 <= k <= t0.len(),
                rest@ == t0.skip(k),
                rest@.len() == t0.len() - k,
                spec_decode_list(t0) is None <==> spec_decode_list(rest@) is None,
                spec_decode_list(rest@) matches Some((its, m)) ==> spec_decode_list(t0) == Some(
                    (nodes_view(items@) + its, k + m),
                ),
            decreases rest@.len(),
        {
            proof {
                lemma_decode_len(rest@);
            }
            match try_decode_bencoded_value(rest) {
                None => {
                    return None;
                },
                Some((node, r)) => {
                    let ghost n = spec_decode(rest@).unwrap().1;
                    let ghost old_items = items@;
                    let ghost old_rest = rest@;
                    proof {
                        assert(old_rest.skip(n) =~= t0.skip(k + n));
                        if let Some((its2, m2)) = spec_decode_list(old_rest.skip(n)) {
                            assert(spec_decode_list(old_rest) == Some((seq![node@] + its2, n + m2)));
                            assert(nodes_view(old_items.push(node)) == nodes_view(old_items).push(node@)) by {
                                assert(old_items.push(node).drop_last() =~= old_items);
                            }
                            assert(nodes_view(old_items).push(node@) + its2 =~= nodes_view(old_items) + (seq![node@] + its2));
                        }
                    }
                    items.push(node);
                    rest = r;
                    proof {
                        k = k + n;
                    }
                },
            }
        }
        if rest.len() == 0 {
            return None;
        }
        proof {
            assert(spec_decode_list(rest@) == Some((Seq::<SpecNode>::empty(), 1int)));
            assert(nodes_view(items@) + Seq::<SpecNode>::empty() =~= nodes_view(items@));
            assert(rest@.skip(1) =~= s@.skip(k + 2));
        }
        let consumed = s.len() - rest.len() + 1;
        let tail = &rest[1..rest.len()];
        let node = BencodeNode { value: BencodeValue::List(items), raw: &s[0..consumed] };
        return Some((node, tail));
    } else if first == 100 {
        let ghost t0 = s@.drop_first();
        let mut rest: &'a [u8] = &s[1..s.len()];
        let mut dict = BencodeDict::new();
        let ghost mut pairs: Seq<(Seq<char>, SpecNode)> = seq![];
        let ghost mut k: int = 0;
        let mut stop = false;
        assert(t0.skip(0) =~= t0);
        while !stop && !(rest.len() == 0 || rest[0] == 101)
            invariant
                s == encoded_value,
                s@.len() > 0,
                s@[0] == 100,
                t0 == s@.drop_first(),
                0 <= k <= t0.len(),
                rest@ == t0.skip(k),
                rest@.len() == t0.len() - k,
                dict@ == dict_from_pairs(pairs),
                stop ==> spec_decode_dict(t0) == (if rest@.len() >= 1 {
                    Some((pairs, k + 1))
                } else {
                    None
                }),
                !stop ==> (spec_decode_dict(t0) is None <==> spec_decode_dict(rest@) is None),
                !stop ==> (spec_decode_dict(rest@) matches Some((ps, m)) ==> spec_decode_dict(t0)
                    == Some((pairs + ps, k + m))),
            decreases rest@.len() + (if stop { 0int } else { 1int }),
        {
            proof {
                lemma_decode_len(rest@);
            }
            match try_decode_bencoded_value(rest) {
                None => {
                    return None;
                },
                Some((key, r1)) => {
                    proof {
                        lemma_decode_len(r1@);
                    }
                    match try_decode_bencoded_value(r1) {
                        None => {
                            return None;
                        },
                        Some((val, r2)) => {
                            let ghost n = spec_decode(rest@).unwrap().1;
                            let ghost m = spec_decode(r1@).unwrap().1;
                            let ghost old_rest = rest@;
                            proof {
                                assert(r1@.skip(m) =~= t0.skip(k + n + m));
                            }
                            rest = r2;
                            proof {
                                k = k + n + m;
                            }
                            match key.value {
                                BencodeValue::String(kstr) => {
                                    let ghost kv = (kstr@, val@);
                                    proof {
                                        if let Some((ps, q)) = spec_decode_dict(rest@) {
                                            assert(spec_decode_dict(old_rest) == Some((seq![kv] + ps, n + m + q)));
                                            assert(pairs.push(kv) + ps =~= pairs + (seq![kv] + ps));
                                        }
                                        assert(pairs.push(kv).drop_last() =~= pairs);
                                    }
                                    dict.insert(kstr, val);
                                    proof {
                                        pairs = pairs.push(kv);
                                    }
                                },
                                _ => {
                                    stop = true;
                                },
                            }
                        },
                    }
                },
            }
        }
        if rest.len() == 0 {
            return None;
        }
        proof {
            if !stop {
                assert(spec_decode_dict(rest@) == Some((Seq::<(Seq<char>, SpecNode)>::empty(), 1int)));
                assert(pairs + Seq::<(Seq<char>, SpecNode)>::empty() =~= pairs);
            }
            assert(rest@.skip(1) =~= s@.skip(k + 2));
        }
        let consumed = s.len() - rest.len() + 1;
        let tail = &rest[1..rest.len()];
        let node = BencodeNode { value: BencodeValue::Dict(dict), raw: &s[0..consumed] };
        return Some((node, tail));
    } else if first == 105 {
        proof {
            lemma_find_byte(s@, 101);
        }
        match find_byte(s, 101) {
            None => None,
            Some(pos) => match parse_isize(&s[1..pos]) {
                None => None,
                Some(v) => {
                    let node = BencodeNode { value: BencodeValue::Integer(v), raw: &s[0..pos + 1] };
                    Some((node, &s[pos + 1..s.len()]))
                },
            },
        }
    } else if 48 <= first && first <= 57 {
        proof {
            lemma_find_byte(s@, 58);
        }
        match find_byte(s, 58) {
            None => None,
            Some(pos) => match parse_usize(&s[0..pos]) {
                None => None,
                Some(n) => {
                    if n <= s.len() - pos - 1 {
                        let body = &s[pos + 1..pos + 1 + n];
                        let value = match utf8_string(body) {
                            Some(text) => BencodeValue::String(text),
                            None => BencodeValue::Binary(vstd::slice::slice_to_vec(body)),
                        };
                        let node = BencodeNode { value, raw: &s[0..pos + 1 + n] };
                        Some((node, &s[pos + 1 + n..s.len()]))
                    } else {
                        None
                    }
                },
            },
        }
    } else {
        None
    }
}

/// Decodes the bencoded value at the start of `encoded_value`, giving the node and the
/// bytes after it.
pub fn decode_bencoded_value<'a>(encoded_value: &'a [u8]) -> (r: (BencodeNode<'a>, &'a [u8]))
    requires
        spec_decode(encoded_value@) is Some,
    ensures
        r.0@ == (SpecNode {
            value: spec_decode(encoded_value@).unwrap().0,
            raw: encoded_value@.take(spec_decode(encoded_value@).unwrap().1),
        }),
        r.1@ == encoded_value@.skip(spec_decode(encoded_value@).unwrap().1),
        r.0.raw@ + r.1@ == encoded_value@,
{
    proof {
        lemma_decode_len(encoded_value@);
    }
    let r = try_decode_bencoded_value(encoded_value);
    let r = r.unwrap();
    assert(r.0.raw@ + r.1@ =~= encoded_value@);
    r
}


proof fn lemma_find_byte_extend(s: Seq<u8>, t: Seq<u8>, b: u8)
    requires
        spec_find_byte(s, b) is Some,
    ensures
        spec_find_byte(s + t, b) == spec_find_byte(s, b),
    decreases s.len(),
{
    if s[0] != b {
        assert((s + t).drop_first() =~= s.drop_first() + t);
        lemma_find_byte_extend(s.drop_first(), t, b);
    }
}

/// Decoding looks at no byte past the value it decodes: bytes appended to the input
/// change neither the value nor its length.
pub proof fn law_decode_ignores_following_bytes(s: Seq<u8>, t: Seq<u8>)
    requires
        spec_decode(s) is Some,
    ensures
        spec_decode(s + t) == spec_decode(s),
    decreases s.len(), 0int,
{
    let st = s + t;
    assert(st[0] == s[0]);
    if s[0] == 108 {
        assert(st.drop_first() =~= s.drop_first() + t);
        lemma_list_ignores_following_bytes(s.drop_first(), t);
    } else if s[0] == 100 {
        assert(st.drop_first() =~= s.drop_first() + t);
        lemma_dict_ignores_following_bytes(s.drop_first(), t);
    } else if s[0] == 105 {
        lemma_find_byte_extend(s, t, 101);
        lemma_find_byte(s, 101);
        let pos = spec_find_byte(s, 101).unwrap();
        assert(st.subrange(1, pos) =~= s.subrange(1, pos));
    } else {
        lemma_find_byte_extend(s, t, 58);
        lemma_find_byte(s, 58);
        let pos = spec_find_byte(s, 58).unwrap();
        assert(st.take(pos) =~= s.take(pos));
        let n = spec_parse_usize(s.take(pos)).unwrap();
        assert(st.subrange(pos + 1, pos + 1 + n) =~= s.subrange(pos + 1, pos + 1 + n));
    }
}

proof fn lemma_list_ignores_following_bytes(t0: Seq<u8>, u: Seq<u8>)
    requires
        spec_decode_list(t0) is Some,
    ensures
        spec_decode_list(t0 + u) == spec_decode_list(t0),
    decreases t0.len(), 1int,
{
    let tu = t0 + u;
    assert(tu[0] == t0[0]);
    if t0[0] != 101 {
        law_decode_ignores_following_bytes(t0, u);
        lemma_decode_len(t0);
        let (v, n) = spec_decode(t0).unwrap();
        assert(tu.skip(n) =~= t0.skip(n) + u);
        assert(tu.take(n) =~= t0.take(n));
        lemma_list_ignores_following_bytes(t0.skip(n), u);
    }
}

proof fn lemma_dict_ignores_following_bytes(t0: Seq<u8>, u: Seq<u8>)
    requires
        spec_decode_dict(t0) is Some,
    ensures
        spec_decode_dict(t0 + u) == spec_decode_dict(t0),
    decreases t0.len(), 1int,
{
    let tu = t0 + u;
    assert(tu[0] == t0[0]);
    if t0[0] != 101 {
        law_decode_ignores_following_bytes(t0, u);
        lemma_decode_len(t0);
        let (kv, n) = spec_decode(t0).unwrap();
        let t2 = t0.skip(n);
        assert(tu.skip(n) =~= t2 + u);
        law_decode_ignores_following_bytes(t2, u);
        lemma_decode_len(t2);
        let (vv, m) = spec_decode(t2).unwrap();
        assert((t2 + u).skip(m) =~= t2.skip(m) + u);
        assert((t2 + u).take(m) =~= t2.take(m));
        if kv is Str {
            lemma_dict_ignores_following_bytes(t2.skip(m), u);
        }
    }
}


/// After `k` is stored with `v`, looking `k` up gives `v`, and every other key gives
/// what it gave before.
pub proof fn law_dict_get_insert<V>(e: Seq<(Seq<char>, V)>, k: Seq<char>, v: V, k2: Seq<char>)
    ensures
        dict_get(dict_insert(e, k, v), k2) == (if k2 == k {
            Some(v)
        } else {
            dict_get(e, k2)
        }),
    decreases e.len(),
{
    let r = dict_insert(e, k, v);
    if e.len() > 0 {
        lemma_key_order_equal(e[0].0, k);
        if key_order(e[0].0, k) == KeyOrder::Less {
            law_dict_get_insert(e.drop_first(), k, v, k2);
            let r2 = dict_insert(e.drop_first(), k, v);
            assert(r == seq![e[0]] + r2);
            assert(r[0] == e[0]);
            assert(r.drop_first() =~= r2);
            assert(dict_get(r, k2) == (if k2 == k { Some(v) } else { dict_get(e, k2) })) by {
                if e[0].0 == k2 {
                } else {
                    assert(dict_get(r, k2) == dict_get(r2, k2));
                }
            }
        } else if e[0].0 == k {
            assert(r == seq![(k, v)] + e.drop_first());
            assert(r[0] == (k, v));
            assert(r.drop_first() =~= e.drop_first());
            assert(dict_get(r, k2) == (if k2 == k { Some(v) } else { dict_get(e, k2) }));
        } else {
            assert(r == seq![(k, v)] + e);
            assert(r[0] == (k, v));
            assert(r.drop_first() =~= e);
            assert(dict_get(r, k2) == (if k2 == k { Some(v) } else { dict_get(e, k2) }));
        }
    } else {
        assert(r =~= seq![(k, v)]);
        assert(r[0] == (k, v));
        assert(r.drop_first() =~= Seq::<(Seq<char>, V)>::empty());
        assert(dict_get(r.drop_first(), k2) is None);
        assert(dict_get(r, k2) == (if k2 == k { Some(v) } else { dict_get(e, k2) }));
    }
}

/// The keys of a dictionary after an insertion are the keys before it and the new one.
proof fn lemma_dict_insert_keys<V>(e: Seq<(Seq<char>, V)>, k: Seq<char>, v: V)
    ensures
        forall|i: int|
            0 <= i < dict_insert(e, k, v).len() ==> (#[trigger] dict_insert(e, k, v)[i]).0 == k || exists|
                j: int,
            | 0 <= j < e.len() && dict_insert(e, k, v)[i].0 == #[trigger] e[j].0,
    decreases e.len(),
{
    let r = dict_insert(e, k, v);
    if e.len() > 0 {
        if key_order(e[0].0, k) == KeyOrder::Less {
            lemma_dict_insert_keys(e.drop_first(), k, v);
            let r2 = dict_insert(e.drop_first(), k, v);
            assert forall|i: int| 0 <= i < r.len() implies (#[trigger] r[i]).0 == k || exists|j: int|
                0 <= j < e.len() && r[i].0 == #[trigger] e[j].0 by {
                if i == 0 {
                    assert(r[0].0 == e[0].0);
                } else {
                    assert(r[i] == r2[i - 1]);
                    if r2[i - 1].0 != k {
                        let j = choose|j: int| 0 <= j < e.drop_first().len() && r2[i - 1].0 == #[trigger] e.drop_first()[j].0;
                        assert(r[i].0 == e[j + 1].0);
                    }
                }
            }
        } else if e[0].0 == k {
            assert forall|i: int| 0 <= i < r.len() implies (#[trigger] r[i]).0 == k || exists|j: int|
                0 <= j < e.len() && r[i].0 == #[trigger] e[j].0 by {
                if i > 0 {
                    assert(r[i].0 == e[i].0);
                }
            }
        } else {
            assert forall|i: int| 0 <= i < r.len() implies (#[trigger] r[i]).0 == k || exists|j: int|
                0 <= j < e.len() && r[i].0 == #[trigger] e[j].0 by {
                if i > 0 {
                    assert(r[i].0 == e[i - 1].0);
                }
            }
        }
    }
}

proof fn lemma_key_order_trans(a: Seq<char>, b: Seq<char>, c: Seq<char>)
    requires
        key_order(a, b) == KeyOrder::Less,
        key_order(b, c) == KeyOrder::Less,
    ensures
        key_order(a, c) == KeyOrder::Less,
{
    lemma_lex_order_trans(encode_utf8(a), encode_utf8(b), encode_utf8(c));
}

/// Storing into a dictionary whose keys increase leaves its keys increasing.
pub proof fn law_dict_insert_sorted<V>(e: Seq<(Seq<char>, V)>, k: Seq<char>, v: V)
    requires
        dict_sorted(e),
    ensures
        dict_sorted(dict_insert(e, k, v)),
    decreases e.len(),
{
    let r = dict_insert(e, k, v);
    if e.len() > 0 {
        lemma_key_order_equal(e[0].0, k);
        lemma_lex_order_antisym(encode_utf8(e[0].0), encode_utf8(k));
        lemma_lex_order_antisym(encode_utf8(k), encode_utf8(e[0].0));
        if key_order(e[0].0, k) == KeyOrder::Less {
            let rest = e.drop_first();
            assert(dict_sorted(rest)) by {
                assert forall|i: int, j: int| 0 <= i < j < rest.len() implies key_order(
                    #[trigger] rest[i].0,
                    #[trigger] rest[j].0,
                ) == KeyOrder::Less by {
                    assert(rest[i] == e[i + 1] && rest[j] == e[j + 1]);
                }
            }
            law_dict_insert_sorted(rest, k, v);
            lemma_dict_insert_keys(rest, k, v);
            let r2 = dict_insert(rest, k, v);
            assert forall|i: int, j: int| 0 <= i < j < r.len() implies key_order(
                #[trigger] r[i].0,
                #[trigger] r[j].0,
            ) == KeyOrder::Less by {
                assert(r[j] == r2[j - 1]);
                if i == 0 {
                    if r2[j - 1].0 != k {
                        let q = choose|q: int| 0 <= q < rest.len() && r2[j - 1].0 == #[trigger] rest[q].0;
                        assert(rest[q] == e[q + 1]);
                    }
                } else {
                    assert(r[i] == r2[i - 1]);
                }
            }
        } else if e[0].0 == k {
            assert forall|i: int, j: int| 0 <= i < j < r.len() implies key_order(
                #[trigger] r[i].0,
                #[trigger] r[j].0,
            ) == KeyOrder::Less by {
                assert(r[j].0 == e[j].0);
                assert(r[i].0 == e[i].0);
            }
        } else {
            assert forall|i: int, j: int| 0 <= i < j < r.len() implies key_order(
                #[trigger] r[i].0,
                #[trigger] r[j].0,
            ) == KeyOrder::Less by {
                assert(r[j] == e[j - 1]);
                if i == 0 {
                    if j - 1 > 0 {
                        assert(key_order(e[0].0, e[j - 1].0) == KeyOrder::Less);
                        lemma_key_order_trans(k, e[0].0, e[j - 1].0);
                    }
                } else {
                    assert(r[i] == e[i - 1]);
                }
            }
        }
    }
}

/// A decoded dictionary has each key once, in increasing order, whatever order and
/// repetitions its keys had in the input.
pub proof fn law_dict_from_pairs_sorted<V>(pairs: Seq<(Seq<char>, V)>)
    ensures
        dict_sorted(dict_from_pairs(pairs)),
    decreases pairs.len(),
{
    if pairs.len() > 0 {
        law_dict_from_pairs_sorted(pairs.drop_last());
        law_dict_insert_sorted(dict_from_pairs(pairs.drop_last()), pairs.last().0, pairs.last().1);
    }
}


proof fn lemma_find_byte_prefix(s: Seq<u8>, b: u8, m: int)
    requires
        spec_find_byte(s, b) matches Some(p) && p < m <= s.len(),
    ensures
        spec_find_byte(s.take(m), b) == spec_find_byte(s, b),
    decreases s.len(),
{
    lemma_find_byte(s, b);
    assert(s.take(m)[0] == s[0]);
    if s[0] != b {
        assert(s.take(m).drop_first() =~= s.drop_first().take(m - 1));
        lemma_find_byte_prefix(s.drop_first(), b, m - 1);
    }
}

/// Decoding looks at no byte past the value it decodes: cutting the input anywhere
/// after the value changes neither the value nor its length. In particular the raw
/// bytes of a node decode on their own to the node's value.
pub proof fn law_decode_prefix(s: Seq<u8>, m: int)
    requires
        spec_decode(s) matches Some((_, n)) && n <= m <= s.len(),
    ensures
        spec_decode(s.take(m)) == spec_decode(s),
    decreases s.len(), 0int,
{
    let sm = s.take(m);
    lemma_decode_len(s);
    assert(sm[0] == s[0]);
    if s[0] == 108 {
        assert(sm.drop_first() =~= s.drop_first().take(m - 1));
        lemma_list_prefix(s.drop_first(), m - 1);
    } else if s[0] == 100 {
        assert(sm.drop_first() =~= s.drop_first().take(m - 1));
        lemma_dict_prefix(s.drop_first(), m - 1);
    } else if s[0] == 105 {
        lemma_find_byte(s, 101);
        lemma_find_byte_prefix(s, 101, m);
        let pos = spec_find_byte(s, 101).unwrap();
        assert(sm.subrange(1, pos) =~= s.subrange(1, pos));
    } else {
        lemma_find_byte(s, 58);
        lemma_find_byte_prefix(s, 58, m);
        let pos = spec_find_byte(s, 58).unwrap();
        assert(sm.take(pos) =~= s.take(pos));
        let n = spec_parse_usize(s.take(pos)).unwrap();
        assert(sm.subrange(pos + 1, pos + 1 + n) =~= s.subrange(pos + 1, pos + 1 + n));
    }
}

proof fn lemma_list_prefix(t: Seq<u8>, m: int)
    requires
        spec_decode_list(t) matches Some((_, r)) && r <= m <= t.len(),
    ensures
        spec_decode_list(t.take(m)) == spec_decode_list(t),
    decreases t.len(), 1int,
{
    let tm = t.take(m);
    lemma_decode_list_len(t);
    assert(tm[0] == t[0]);
    if t[0] != 101 {
        lemma_decode_len(t);
        let (v, n) = spec_decode(t).unwrap();
        lemma_decode_list_len(t.skip(n));
        law_decode_prefix(t, m);
        assert(tm.skip(n) =~= t.skip(n).take(m - n));
        assert(tm.take(n) =~= t.take(n));
        lemma_list_prefix(t.skip(n), m - n);
    }
}

proof fn lemma_dict_prefix(t: Seq<u8>, m: int)
    requires
        spec_decode_dict(t) matches Some((_, r)) && r <= m <= t.len(),
    ensures
        spec_decode_dict(t.take(m)) == spec_decode_dict(t),
    decreases t.len(), 1int,
{
    let tm = t.take(m);
    lemma_decode_dict_len(t);
    assert(tm[0] == t[0]);
    if t[0] != 101 {
        lemma_decode_len(t);
        let (kv, n) = spec_decode(t).unwrap();
        let t2 = t.skip(n);
        lemma_decode_len(t2);
        let (vv, q) = spec_decode(t2).unwrap();
        let t3 = t2.skip(q);
        if kv is Str {
            lemma_decode_dict_len(t3);
        }
        law_decode_prefix(t, m);
        assert(tm.skip(n) =~= t2.take(m - n));
        law_decode_prefix(t2, m - n);
        assert(t2.take(m - n).skip(q) =~= t3.take(m - n - q));
        assert(t2.take(m - n).take(q) =~= t2.take(q));
        if kv is Str {
            lemma_dict_prefix(t3, m - n - q);
        }
    }
}


/// The raw bytes of the nodes, one after another.
pub open spec fn raws_concat(items: Seq<SpecNode>) -> Seq<u8>
    decreases items.len(),
{
    if items.len() == 0 {
        seq![]
    } else {
        items[0].raw + raws_concat(items.drop_first())
    }
}

proof fn lemma_list_raw(t: Seq<u8>)
    requires
        spec_decode_list(t) is Some,
    ensures
        ({
            let (items, m) = spec_decode_list(t).unwrap();
            &&& t.take(m) == raws_concat(items) + seq![101u8]
            &&& forall|k: int|
                0 <= k < items.len() ==> spec_decode(#[trigger] items[k].raw) == Some(
                    (items[k].value, items[k].raw.len() as int),
                )
        }),
    decreases t.len(),
{
    let (items, m) = spec_decode_list(t).unwrap();
    if t[0] == 101 {
        assert(t.take(m) =~= raws_concat(items) + seq![101u8]);
    } else {
        lemma_decode_len(t);
        let (v, n) = spec_decode(t).unwrap();
        let rest = t.skip(n);
        lemma_list_raw(rest);
        let (tail, q) = spec_decode_list(rest).unwrap();
        lemma_decode_list_len(rest);
        law_decode_prefix(t, n);
        assert(items.drop_first() =~= tail);
        assert(t.take(m) =~= t.take(n) + rest.take(q));
        assert(t.take(m) =~= raws_concat(items) + seq![101u8]);
        assert forall|k: int| 0 <= k < items.len() implies spec_decode(#[trigger] items[k].raw) == Some(
            (items[k].value, items[k].raw.len() as int),
        ) by {
            if k > 0 {
                assert(items[k] == tail[k - 1]);
            }
        }
    }
}

/// A list node's raw bytes are `l`, the raw bytes of its items in input order, and
/// `e`; the raw bytes of each item decode on their own to that item's value and span
/// all of them.
pub proof fn law_list_raw(s: Seq<u8>)
    requires
        spec_decode(s) matches Some((SpecValue::List(_), _)),
    ensures
        match spec_decode(s) {
            Some((SpecValue::List(items), n)) => {
                &&& s.take(n) == seq![108u8] + raws_concat(items) + seq![101u8]
                &&& forall|k: int|
                    0 <= k < items.len() ==> spec_decode(#[trigger] items[k].raw) == Some(
                        (items[k].value, items[k].raw.len() as int),
                    )
            },
            _ => true,
        },
{
    let t = s.drop_first();
    lemma_list_raw(t);
    let (items, m) = spec_decode_list(t).unwrap();
    lemma_decode_list_len(t);
    assert(s.take(m + 1) =~= seq![108u8] + t.take(m));
}


/// Decimal digits spell numbers positionally: the value of `s` followed by `t` is the
/// value of `s` times ten to the number of digits in `t`, plus the value of `t`.
pub proof fn law_digits_positional(s: Seq<u8>, t: Seq<u8>)
    ensures
        digits_value(s + t) == digits_value(s) * vstd::arithmetic::power::pow(10, t.len()) + digits_value(t),
    decreases t.len(),
{
    let p = vstd::arithmetic::power::pow(10, t.len());
    reveal(vstd::arithmetic::power::pow);
    if t.len() == 0 {
        assert(s + t =~= s);
        assert(p == 1);
    } else {
        let u = t.drop_last();
        law_digits_positional(s, u);
        assert((s + t).drop_last() =~= s + u);
        assert((s + t).last() == t.last());
        let q = vstd::arithmetic::power::pow(10, u.len());
        assert(p == 10 * q);
        let a = digits_value(s);
        let c = digits_value(u);
        assert((a * q + c) * 10 == a * (10 * q) + c * 10) by (nonlinear_arith);
    }
}

/// A single digit `d` spells the number `d - 48` (`'0'` is 48).
pub proof fn law_digit_value(d: u8)
    requires
        is_digit(d),
    ensures
        digits_value(seq![d]) == d - 48,
{
    assert(seq![d].drop_last() =~= Seq::<u8>::empty());
    assert(seq![d].last() == d);
    assert(digits_value(Seq::<u8>::empty()) == 0);
}

/// Every decimal numeral of at least one digit, with or without a leading `+`, reads
/// as the number it spells whenever that number fits in a `usize`, as
/// `usize::from_str` reads it.
pub proof fn law_parse_usize_decimal(s: Seq<u8>)
    requires
        s.len() > 0,
        all_digits(s),
        digits_value(s) <= usize::MAX,
    ensures
        spec_parse_usize(s) == Some(digits_value(s)),
        spec_parse_usize(seq![43u8] + s) == Some(digits_value(s)),
{
    assert(is_digit(s[0]));
    assert((seq![43u8] + s).drop_first() =~= s);
}

/// A string of `n` bytes, written as the decimal digits of `n`, a colon and the bytes,
/// decodes to exactly those bytes (as text when they are UTF-8) and spans exactly
/// them, whatever follows.
pub proof fn law_decode_string(digits: Seq<u8>, b: Seq<u8>, rest: Seq<u8>)
    requires
        digits.len() > 0,
        all_digits(digits),
        digits_value(digits) == b.len(),
        b.len() <= usize::MAX,
    ensures
        spec_decode(digits + seq![58u8] + b + rest) == Some(
            (
                if valid_utf8(b) {
                    SpecValue::Str(decode_utf8(b))
                } else {
                    SpecValue::Bin(b)
                },
                (digits.len() + 1 + b.len()) as int,
            ),
        ),
{
    let x = digits + seq![58u8] + b + rest;
    let n = digits.len() as int;
    assert(x[0] == digits[0]);
    assert(is_digit(digits[0]));
    assert forall|j: int| 0 <= j < n implies x[j] != 58u8 by {
        assert(x[j] == digits[j]);
        assert(is_digit(digits[j]));
    }
    lemma_find_byte_skip(x, 58, n);
    assert(x.skip(n)[0] == 58u8);
    assert(spec_find_byte(x.skip(n), 58) == Some(0int));
    assert(x.take(n) =~= digits);
    law_parse_usize_decimal(digits);
    assert(x.subrange(n + 1, n + 1 + b.len()) =~= b);
}

/// A node decodes on its own: its raw bytes decode to its value and span all of them.
pub open spec fn node_decodes(n: SpecNode) -> bool {
    spec_decode(n.raw) == Some((n.value, n.raw.len() as int))
}

/// Every value of the entries decodes on its own.
pub open spec fn entries_decode(e: Seq<(Seq<char>, SpecNode)>) -> bool {
    forall|k: int| 0 <= k < e.len() ==> node_decodes(#[trigger] e[k].1)
}

proof fn lemma_dict_entries_decode(t: Seq<u8>)
    requires
        spec_decode_dict(t) is Some,
    ensures
        entries_decode(spec_decode_dict(t).unwrap().0),
    decreases t.len(),
{
    if t[0] != 101 {
        lemma_decode_len(t);
        let (kv, n) = spec_decode(t).unwrap();
        let t2 = t.skip(n);
        lemma_decode_len(t2);
        let (vv, m) = spec_decode(t2).unwrap();
        law_decode_prefix(t2, m);
        let val = SpecNode { value: vv, raw: t2.take(m) };
        assert(node_decodes(val));
        if kv is Str {
            let t3 = t2.skip(m);
            lemma_dict_entries_decode(t3);
            let rest = spec_decode_dict(t3).unwrap().0;
            let pairs = spec_decode_dict(t).unwrap().0;
            assert forall|k: int| 0 <= k < pairs.len() implies node_decodes(#[trigger] pairs[k].1) by {
                if k > 0 {
                    assert(pairs[k] == rest[k - 1]);
                }
            }
        }
    }
}

proof fn lemma_insert_entries_decode(e: Seq<(Seq<char>, SpecNode)>, k: Seq<char>, v: SpecNode)
    requires
        entries_decode(e),
        node_decodes(v),
    ensures
        entries_decode(dict_insert(e, k, v)),
    decreases e.len(),
{
    let r = dict_insert(e, k, v);
    if e.len() > 0 {
        let tail = e.drop_first();
        assert forall|j: int| 0 <= j < tail.len() implies node_decodes(#[trigger] tail[j].1) by {
            assert(tail[j] == e[j + 1]);
        }
        if key_order(e[0].0, k) == KeyOrder::Less {
            lemma_insert_entries_decode(tail, k, v);
            let ins = dict_insert(tail, k, v);
            assert forall|j: int| 0 <= j < r.len() implies node_decodes(#[trigger] r[j].1) by {
                if j > 0 {
                    assert(r[j] == ins[j - 1]);
                } else {
                    assert(node_decodes(e[0].1));
                }
            }
        } else if e[0].0 == k {
            assert forall|j: int| 0 <= j < r.len() implies node_decodes(#[trigger] r[j].1) by {
                if j > 0 {
                    assert(r[j] == tail[j - 1]);
                }
            }
        } else {
            assert forall|j: int| 0 <= j < r.len() implies node_decodes(#[trigger] r[j].1) by {
                if j > 0 {
                    assert(r[j] == e[j - 1]);
                }
            }
        }
    }
}

proof fn lemma_from_pairs_entries_decode(pairs: Seq<(Seq<char>, SpecNode)>)
    requires
        entries_decode(pairs),
    ensures
        entries_decode(dict_from_pairs(pairs)),
    decreases pairs.len(),
{
    if pairs.len() > 0 {
        let init = pairs.drop_last();
        assert forall|j: int| 0 <= j < init.len() implies node_decodes(#[trigger] init[j].1) by {
            assert(init[j] == pairs[j]);
        }
        lemma_from_pairs_entries_decode(init);
        assert(node_decodes(pairs[pairs.len() - 1].1));
        lemma_insert_entries_decode(dict_from_pairs(init), pairs.last().0, pairs.last().1);
    }
}

/// Every value of a decoded dictionary decodes on its own: its raw bytes decode to it.
pub proof fn law_dict_values_decode(s: Seq<u8>)
    requires
        spec_decode(s) matches Some((SpecValue::Dict(_), _)),
    ensures
        match spec_decode(s) {
            Some((SpecValue::Dict(d), _)) => entries_decode(d),
            _ => true,
        },
{
    lemma_dict_entries_decode(s.drop_first());
    lemma_from_pairs_entries_decode(spec_decode_dict(s.drop_first()).unwrap().0);
}

/// What a dictionary gives for a key is one of its values.
pub proof fn law_dict_get_decodes(e: Seq<(Seq<char>, SpecNode)>, k: Seq<char>)
    requires
        entries_decode(e),
    ensures
        dict_get(e, k) matches Some(n) ==> node_decodes(n),
    decreases e.len(),
{
    if e.len() > 0 {
        assert(node_decodes(e[0].1));
        let tail = e.drop_first();
        assert forall|j: int| 0 <= j < tail.len() implies node_decodes(#[trigger] tail[j].1) by {
            assert(tail[j] == e[j + 1]);
        }
        law_dict_get_decodes(tail, k);
    }
}

/// The raw bytes of a binary string node are its decimal length, a colon, and the
/// bytes themselves: the bytes after the first colon are the string.
pub proof fn law_binary_raw(raw: Seq<u8>, b: Seq<u8>)
    requires
        spec_decode(raw) == Some((SpecValue::Bin(b), raw.len() as int)),
    ensures
        spec_find_byte(raw, 58) matches Some(c) && raw.skip(c + 1) == b,
{
    lemma_find_byte(raw, 58);
    let c = spec_find_byte(raw, 58).unwrap();
    assert(raw.skip(c + 1) =~= raw.subrange(c + 1, raw.len() as int));
}

} // verus!
