use rbittorrent::bencode::{
    decode_bencoded_value, try_decode_bencoded_value, BencodeDict, BencodeNode, BencodeValue,
};

#[test]
fn handle_strings() {
    assert_eq!(
        decode_bencoded_value("3:abc".as_bytes()),
        (
            BencodeNode { value: BencodeValue::String("abc".to_string()), raw: "3:abc".as_bytes() },
            "".as_bytes()
        )
    );
}

#[test]
fn handle_integers() {
    assert_eq!(
        decode_bencoded_value("i467e".as_bytes()),
        (BencodeNode { value: BencodeValue::Integer(467), raw: "i467e".as_bytes() }, "".as_bytes())
    );
    assert_eq!(
        decode_bencoded_value("i-467e".as_bytes()),
        (BencodeNode { value: BencodeValue::Integer(-467), raw: "i-467e".as_bytes() }, "".as_bytes())
    );
}

#[test]
fn decode_lists() {
    assert_eq!(
        decode_bencoded_value("l3:abci467ee".as_bytes()),
        (
            BencodeNode {
                value: BencodeValue::List(vec![
                    (BencodeNode { value: BencodeValue::String("abc".to_string()), raw: "3:abc".as_bytes() }),
                    (BencodeNode { value: BencodeValue::Integer(467), raw: "i467e".as_bytes() })
                ]),
                raw: "l3:abci467ee".as_bytes()
            },
            "".as_bytes(),
        )
    );
}

#[test]
fn decode_dicts() {
    let mut expected = BencodeDict::new();
    expected.insert(
        "abc".to_string(),
        BencodeNode { value: BencodeValue::Integer(467), raw: "i467e".as_bytes() },
    );
    assert_eq!(
        decode_bencoded_value("d3:abci467ee".as_bytes()),
        (
            BencodeNode { value: BencodeValue::Dict(expected), raw: "d3:abci467ee".as_bytes() },
            "".as_bytes(),
        )
    );
}

#[test]
fn rest_follows_the_value() {
    let (node, rest) = decode_bencoded_value(b"i1ei2e");
    assert_eq!(node.value, BencodeValue::Integer(1));
    assert_eq!(node.raw, b"i1e");
    assert_eq!(rest, b"i2e");
}

#[test]
fn appended_bytes_change_nothing() {
    let (a, _) = decode_bencoded_value(b"l4:spami-3ee");
    let (b, rest) = decode_bencoded_value(b"l4:spami-3eeXYZ");
    assert_eq!(a, b);
    assert_eq!(rest, b"XYZ");
}

#[test]
fn binary_strings_stay_bytes() {
    let (node, rest) = decode_bencoded_value(&[b'2', b':', 0xff, 0xfe, b'x']);
    assert_eq!(node.value, BencodeValue::Binary(vec![0xff, 0xfe]));
    assert_eq!(rest, b"x");
}

#[test]
fn utf8_strings_become_text() {
    let (node, _) = decode_bencoded_value("2:é".as_bytes());
    assert_eq!(node.value, BencodeValue::String("é".to_string()));
}

#[test]
fn integer_forms() {
    assert_eq!(decode_bencoded_value(b"i+5e").0.value, BencodeValue::Integer(5));
    assert_eq!(decode_bencoded_value(b"i007e").0.value, BencodeValue::Integer(7));
    assert_eq!(decode_bencoded_value(b"i-0e").0.value, BencodeValue::Integer(0));
    assert_eq!(
        decode_bencoded_value(format!("i{}e", isize::MIN).as_bytes()).0.value,
        BencodeValue::Integer(isize::MIN)
    );
    assert!(try_decode_bencoded_value(b"ie").is_none());
    assert!(try_decode_bencoded_value(b"i-e").is_none());
    assert!(try_decode_bencoded_value(b"i1-2e").is_none());
    assert!(try_decode_bencoded_value(b"i99999999999999999999999e").is_none());
    assert!(try_decode_bencoded_value(b"i12").is_none());
}

#[test]
fn malformed_inputs_are_refused() {
    assert!(try_decode_bencoded_value(b"").is_none());
    assert!(try_decode_bencoded_value(b"x").is_none());
    assert!(try_decode_bencoded_value(b"l").is_none());
    assert!(try_decode_bencoded_value(b"li1e").is_none());
    assert!(try_decode_bencoded_value(b"d3:abc").is_none());
    assert!(try_decode_bencoded_value(b"5:abc").is_none());
    assert!(try_decode_bencoded_value(b"3abc").is_none());
    assert!(try_decode_bencoded_value(b"1a:b").is_none());
}

#[test]
fn dict_keys_sorted_and_last_wins() {
    let (node, _) = decode_bencoded_value(b"d1:bi1e1:ai2e1:bi3ee");
    match node.value {
        BencodeValue::Dict(d) => {
            assert_eq!(d.len(), 2);
            let keys: Vec<&str> = d.entries.iter().map(|(k, _)| k.as_str()).collect();
            assert_eq!(keys, vec!["a", "b"]);
            assert_eq!(d.get("a").unwrap().value, BencodeValue::Integer(2));
            assert_eq!(d.get("b").unwrap().value, BencodeValue::Integer(3));
            assert_eq!(d.get("b").unwrap().raw, b"i3e");
            assert!(d.get("c").is_none());
        }
        other => panic!("expected a dictionary, got {:?}", other),
    }
}

#[test]
fn non_text_key_ends_dict() {
    // The integer key ends the dictionary after its value; one more byte is skipped.
    let (node, rest) = decode_bencoded_value(b"d1:ai1ei5ei6eXi7e");
    match &node.value {
        BencodeValue::Dict(d) => {
            assert_eq!(d.len(), 1);
            assert_eq!(d.get("a").unwrap().value, BencodeValue::Integer(1));
        }
        other => panic!("expected a dictionary, got {:?}", other),
    }
    assert_eq!(node.raw, b"d1:ai1ei5ei6eX");
    assert_eq!(rest, b"i7e");
}

#[test]
fn dict_get_after_insert() {
    let mut d = BencodeDict::new();
    d.insert("b".to_string(), BencodeNode { value: BencodeValue::Integer(1), raw: b"i1e" });
    d.insert("a".to_string(), BencodeNode { value: BencodeValue::Integer(2), raw: b"i2e" });
    d.insert("b".to_string(), BencodeNode { value: BencodeValue::Integer(3), raw: b"i3e" });
    assert_eq!(d.len(), 2);
    assert_eq!(d.entries[0].0, "a");
    assert_eq!(d.entries[1].0, "b");
    assert_eq!(d.get("b").unwrap().value, BencodeValue::Integer(3));
    assert_eq!(d.get("a").unwrap().value, BencodeValue::Integer(2));
}

#[test]
fn raw_bytes_decode_alone() {
    let input = b"d4:infod6:lengthi7ee3:zzzl1:xee";
    let (node, _) = decode_bencoded_value(input);
    if let BencodeValue::Dict(d) = &node.value {
        let info = d.get("info").unwrap();
        let (again, rest) = decode_bencoded_value(info.raw);
        assert_eq!(&again, info);
        assert!(rest.is_empty());
    } else {
        panic!("expected a dictionary");
    }
    let cut = &input[..node.raw.len()];
    assert_eq!(decode_bencoded_value(cut).0, node);
}

#[test]
fn list_raw_is_its_items_between_l_and_e() {
    let input = "l4:spami42eli-1eeee".as_bytes();
    let (node, rest) = decode_bencoded_value(input);
    assert_eq!(rest, "e".as_bytes());
    let items = match &node.value {
        BencodeValue::List(items) => items,
        _ => panic!("not a list"),
    };
    let mut joined = b"l".to_vec();
    for item in items {
        joined.extend_from_slice(item.raw);
        let (alone, after) = decode_bencoded_value(item.raw);
        assert_eq!(&alone, item);
        assert_eq!(after, "".as_bytes());
    }
    joined.push(b'e');
    assert_eq!(node.raw, joined.as_slice());
    assert_eq!(items.len(), 3);
}
