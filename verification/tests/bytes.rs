use rbittorrent::bytes::{compare_bytes, push_be_u32, push_be_u64, read_be_u32, read_be_u64, KeyOrder};

#[test]
fn byte_order() {
    assert_eq!(compare_bytes(b"abc", b"abd"), KeyOrder::Less);
    assert_eq!(compare_bytes(b"abc", b"ab"), KeyOrder::Greater);
    assert_eq!(compare_bytes(b"", b"a"), KeyOrder::Less);
    assert_eq!(compare_bytes(b"same", b"same"), KeyOrder::Equal);
    assert_eq!(compare_bytes(&[0xff], b"z"), KeyOrder::Greater);
}

#[test]
fn big_endian_roundtrip() {
    let mut v = Vec::new();
    push_be_u32(&mut v, 0xDEADBEEF);
    push_be_u64(&mut v, 0x0102030405060708);
    assert_eq!(v, vec![0xDE, 0xAD, 0xBE, 0xEF, 1, 2, 3, 4, 5, 6, 7, 8]);
    assert_eq!(read_be_u32(&v, 0), 0xDEADBEEF);
    assert_eq!(read_be_u64(&v, 4), 0x0102030405060708);
    assert_eq!(read_be_u32(&v, 8), 0x05060708);
}
