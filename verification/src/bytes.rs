//! Byte-string order.
use vstd::prelude::*;

verus! {

/// The outcome of comparing two byte strings.
#[derive(Clone, Copy, PartialEq, Eq, Structural, Debug)]
pub enum KeyOrder {
    Less,
    Equal,
    Greater,
}

/// Lexicographic comparison of byte strings, the order of `[u8]` and of `str`.
pub open spec fn lex_order(a: Seq<u8>, b: Seq<u8>) -> KeyOrder
    decreases a.len(),
{
    if a.len() == 0 && b.len() == 0 {
        KeyOrder::Equal
    } else if a.len() == 0 {
        KeyOrder::Less
    } else if b.len() == 0 {
        KeyOrder::Greater
    } else if a[0] < b[0] {
        KeyOrder::Less
    } else if a[0] > b[0] {
        KeyOrder::Greater
    } else {
        lex_order(a.drop_first(), b.drop_first())
    }
}

pub proof fn lemma_lex_order_equal(a: Seq<u8>, b: Seq<u8>)
    ensures
        (lex_order(a, b) == KeyOrder::Equal) <==> a == b,
    decreases a.len(),
{
    if a.len() > 0 && b.len() > 0 && a[0] == b[0] {
        lemma_lex_order_equal(a.drop_first(), b.drop_first());
        if a.drop_first() == b.drop_first() {
            assert(a =~= seq![a[0]] + a.drop_first());
            assert(b =~= seq![b[0]] + b.drop_first());
        }
    } else if a.len() == 0 && b.len() == 0 {
        assert(a =~= b);
    }
}

pub proof fn lemma_lex_order_antisym(a: Seq<u8>, b: Seq<u8>)
    ensures
        (lex_order(a, b) == KeyOrder::Less) <==> (lex_order(b, a) == KeyOrder::Greater),
    decreases a.len(),
{
    if a.len() > 0 && b.len() > 0 && a[0] == b[0] {
        lemma_lex_order_antisym(a.drop_first(), b.drop_first());
    }
}

pub proof fn lemma_lex_order_trans(a: Seq<u8>, b: Seq<u8>, c: Seq<u8>)
    requires
        lex_order(a, b) == KeyOrder::Less,
        lex_order(b, c) == KeyOrder::Less,
    ensures
        lex_order(a, c) == KeyOrder::Less,
    decreases a.len(),
{
    if a.len() > 0 && b.len() > 0 && c.len() > 0 && a[0] == b[0] && b[0] == c[0] {
        lemma_lex_order_trans(a.drop_first(), b.drop_first(), c.drop_first());
    }
}

proof fn lemma_lex_order_skip(a: Seq<u8>, b: Seq<u8>, i: int)
    requires
        0 <= i <= a.len(),
        i <= b.len(),
        forall|j: int| 0 <= j < i ==> a[j] == b[j],
    ensures
        lex_order(a, b) == lex_order(a.skip(i), b.skip(i)),
    decreases i,
{
    if i == 0 {
        assert(a.skip(0) =~= a);
        assert(b.skip(0) =~= b);
    } else {
        assert(a.drop_first().skip(i - 1) =~= a.skip(i));
        assert(b.drop_first().skip(i - 1) =~= b.skip(i));
        lemma_lex_order_skip(a.drop_first(), b.drop_first(), i - 1);
    }
}

/// Compares two byte strings lexicographically.
pub fn compare_bytes(a: &[u8], b: &[u8]) -> (r: KeyOrder)
    ensures
        r == lex_order(a@, b@),
{
    let mut i: usize = 0;
    while i < a.len() && i < b.len()
        invariant
            0 <= i <= a@.len(),
            i <= b@.len(),
            forall|j: int| 0 <= j < i ==> a@[j] == b@[j],
        decreases a@.len() - i,
    {
        if a[i] != b[i] {
            proof {
                lemma_lex_order_skip(a@, b@, i as int);
            }
            if a[i] < b[i] {
                return KeyOrder::Less;
            } else {
                return KeyOrder::Greater;
            }
        }
        i = i + 1;
    }
    proof {
        lemma_lex_order_skip(a@, b@, i as int);
    }
    if a.len() == b.len() {
        KeyOrder::Equal
    } else if i == a.len() {
        KeyOrder::Less
    } else {
        KeyOrder::Greater
    }
}


/// The four bytes of `x`, most significant first (`u32::to_be_bytes`).
pub open spec fn be_u32_bytes(x: u32) -> Seq<u8> {
    seq![
        (x / 0x1000000) as u8,
        ((x / 0x10000) % 256) as u8,
        ((x / 0x100) % 256) as u8,
        (x % 256) as u8,
    ]
}

/// The eight bytes of `x`, most significant first (`u64::to_be_bytes`).
pub open spec fn be_u64_bytes(x: u64) -> Seq<u8> {
    be_u32_bytes((x / 0x100000000) as u32) + be_u32_bytes((x % 0x100000000) as u32)
}

/// The number that four bytes spell, most significant first (`u32::from_be_bytes`).
pub open spec fn be_u32_value(b: Seq<u8>) -> int {
    b[0] * 0x1000000 + b[1] * 0x10000 + b[2] * 0x100 + b[3]
}

/// The number that eight bytes spell, most significant first (`u64::from_be_bytes`).
pub open spec fn be_u64_value(b: Seq<u8>) -> int {
    be_u32_value(b.subrange(0, 4)) * 0x100000000 + be_u32_value(b.subrange(4, 8))
}

/// Appends the big-endian bytes of `x`.
pub fn push_be_u32(out: &mut Vec<u8>, x: u32)
    ensures
        final(out)@ == old(out)@ + be_u32_bytes(x),
{
    out.push((x / 0x1000000) as u8);
    out.push(((x / 0x10000) % 256) as u8);
    out.push(((x / 0x100) % 256) as u8);
    out.push((x % 256) as u8);
    assert(final(out)@ =~= old(out)@ + be_u32_bytes(x));
}

/// Appends the big-endian bytes of `x`.
pub fn push_be_u64(out: &mut Vec<u8>, x: u64)
    ensures
        final(out)@ == old(out)@ + be_u64_bytes(x),
{
    let ghost start = out@;
    push_be_u32(out, (x / 0x100000000) as u32);
    push_be_u32(out, (x % 0x100000000) as u32);
    assert(out@ =~= start + be_u64_bytes(x));
}

/// The big-endian number in `b[at..at + 4]`.
pub fn read_be_u32(b: &[u8], at: usize) -> (r: u32)
    requires
        at + 4 <= b@.len(),
    ensures
        r as int == be_u32_value(b@.subrange(at as int, at + 4)),
{
    let r = (b[at] as u32) * 0x1000000 + (b[at + 1] as u32) * 0x10000 + (b[at + 2] as u32) * 0x100
        + (b[at + 3] as u32);
    r
}

/// The big-endian number in `b[at..at + 8]`.
pub fn read_be_u64(b: &[u8], at: usize) -> (r: u64)
    requires
        at + 8 <= b@.len(),
    ensures
        r as int == be_u64_value(b@.subrange(at as int, at + 8)),
{
    let len = b.len();
    assert(at + 8 <= len);
    let hi = read_be_u32(b, at) as u64;
    let lo = read_be_u32(b, at + 4) as u64;
    assert(b@.subrange(at as int, at + 8).subrange(0, 4) =~= b@.subrange(at as int, at + 4));
    assert(b@.subrange(at as int, at + 8).subrange(4, 8) =~= b@.subrange(at + 4, at + 8));
    hi * 0x100000000 + lo
}


/// Reading back the big-endian bytes of a number gives the number.
pub proof fn law_be_u32_roundtrip(x: u32)
    ensures
        be_u32_value(be_u32_bytes(x)) == x,
{
    let b = be_u32_bytes(x);
    assert(b[0] == x / 0x1000000);
    assert(b[1] == (x / 0x10000) % 256);
    assert(b[2] == (x / 0x100) % 256);
    assert(b[3] == x % 256);
}

/// Reading back the big-endian bytes of a number gives the number.
pub proof fn law_be_u64_roundtrip(x: u64)
    ensures
        be_u64_value(be_u64_bytes(x)) == x,
{
    let hi = (x / 0x100000000) as u32;
    let lo = (x % 0x100000000) as u32;
    law_be_u32_roundtrip(hi);
    law_be_u32_roundtrip(lo);
    let b = be_u64_bytes(x);
    assert(b.subrange(0, 4) =~= be_u32_bytes(hi));
    assert(b.subrange(4, 8) =~= be_u32_bytes(lo));
}

} // verus!
