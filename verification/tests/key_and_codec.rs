use kademlia::codec::{decode, encode};
use kademlia::key::{Distance, Key};
use kademlia::message::{FindValueResult, Message, Reply, Request, RpcMessage};
use kademlia::routing::{NodeAndDistance, NodeInfo};
use kademlia::KEY_LEN;

fn kb(prefix: &[u8]) -> Key {
    let mut bytes = prefix.to_vec();
    while bytes.len() < KEY_LEN {
        bytes.push(0);
    }
    Key::from_bytes(bytes).unwrap()
}

fn db(prefix: &[u8]) -> Distance {
    let mut bytes = prefix.to_vec();
    while bytes.len() < KEY_LEN {
        bytes.push(0);
    }
    Distance::from_bytes(bytes).unwrap()
}

fn ni(id: Key, addr: &str, net: &str) -> NodeInfo {
    NodeInfo::new(id, addr.to_string(), net.to_string())
}

#[test]
fn xor_is_symmetric_and_zero_on_self() {
    let a = kb(&[0x13, 0x37, 0xff]);
    let b = kb(&[0x0f, 0xf0, 0x55, 0xaa]);
    assert_eq!(a.dist(&b).as_bytes(), b.dist(&a).as_bytes());
    let z = a.dist(&a);
    assert!(z.as_bytes().iter().all(|&x| x == 0));
}

#[test]
fn xor_concrete_value() {
    let a = kb(&[0b1010_1010]);
    let b = kb(&[0b0101_0101]);
    assert_eq!(a.dist(&b).as_bytes()[0], 0xff);
    let c = kb(&[0x12, 0x34]);
    let d = kb(&[0x10, 0x30]);
    let e = c.dist(&d);
    assert_eq!(e.as_bytes()[0], 0x02);
    assert_eq!(e.as_bytes()[1], 0x04);
}

#[test]
fn prefix_counts_leading_zero_bits() {
    assert_eq!(db(&[0x80]).zeroes_in_prefix(), 0);
    assert_eq!(db(&[0x40]).zeroes_in_prefix(), 1);
    assert_eq!(db(&[0x01]).zeroes_in_prefix(), 7);
    assert_eq!(db(&[0x00, 0x80]).zeroes_in_prefix(), 8);
    assert_eq!(db(&[0x00, 0x02]).zeroes_in_prefix(), 14);
    // the all-zero distance falls in the terminal bucket
    assert_eq!(db(&[]).zeroes_in_prefix(), KEY_LEN * 8 - 1);
    // a distance with a single trailing one bit
    let mut last = vec![0u8; KEY_LEN - 1];
    last.push(1);
    let d = Distance::from_bytes(last).unwrap();
    assert_eq!(d.zeroes_in_prefix(), KEY_LEN * 8 - 1);
}

#[test]
fn prefix_is_deterministic() {
    let a = kb(&[9, 9, 9]);
    let b = kb(&[1, 2, 3]);
    assert_eq!(
        a.dist(&b).zeroes_in_prefix(),
        a.dist(&b).zeroes_in_prefix()
    );
}

#[test]
fn distance_order_is_bytewise_big_endian() {
    assert!(db(&[0x01]).le(&db(&[0x02])));
    assert!(!db(&[0x02]).le(&db(&[0x01])));
    assert!(db(&[0x01, 0xff]).le(&db(&[0x02, 0x00])));
    assert!(db(&[0x03]).le(&db(&[0x03])));
}

#[test]
fn from_hex_parses_pairs_and_pads() {
    let k = Key::from_hex("0100").unwrap();
    assert_eq!(k.as_bytes()[0], 0x01);
    assert_eq!(k.as_bytes()[1], 0x00);
    assert!(k.as_bytes()[2..].iter().all(|&b| b == 0));
    let full = Key::from_hex("ffeeddccbbaa99887766554433221100a5A5a5A5").unwrap();
    assert_eq!(full.as_bytes()[0], 0xff);
    assert_eq!(full.as_bytes()[19], 0xa5);
    assert!(Key::from_hex("0").is_none(), "odd length");
    assert!(Key::from_hex("zz").is_none(), "not hexadecimal");
    assert!(
        Key::from_hex("ffeeddccbbaa99887766554433221100a5a5a5a500").is_none(),
        "too long"
    );
    assert!(Key::from_hex("").is_some(), "empty string is all zeros");
}

#[test]
fn hash_is_the_hex_form_of_the_digest() {
    // SHA-1("abc") = a9993e364706816aba3e25717850c26c9cd0d89d; the key holds
    // the first twenty characters of its lowercase hexadecimal form.
    let k = Key::hash("abc");
    assert_eq!(k.as_bytes().as_slice(), b"a9993e364706816aba3e");
    let k2 = Key::hash("abc");
    assert!(k.equals(&k2));
    assert_eq!(Key::hash("").as_bytes().len(), KEY_LEN);
}

#[test]
fn random_keys_are_full_width() {
    let a = Key::random();
    let b = Key::random();
    assert_eq!(a.as_bytes().len(), KEY_LEN);
    assert_eq!(b.as_bytes().len(), KEY_LEN);
    assert!(!a.equals(&b), "two fresh identifiers should differ");
}

fn roundtrip(msg: RpcMessage) {
    let bytes = encode(&msg);
    let back = decode(&bytes).expect("an encoded envelope must decode");
    assert!(back.token.equals(&msg.token));
    assert!(back.src.id.equals(&msg.src.id));
    assert_eq!(back.src.addr, msg.src.addr);
    assert_eq!(back.src.net_id, msg.src.net_id);
    assert!(back.dst.id.equals(&msg.dst.id));
    match (&back.msg, &msg.msg) {
        (Message::Kill, Message::Kill) => {}
        (Message::Request(a), Message::Request(b)) => match (a, b) {
            (Request::Ping, Request::Ping) => {}
            (Request::Store(k1, v1), Request::Store(k2, v2)) => {
                assert_eq!(k1, k2);
                assert_eq!(v1, v2);
            }
            (Request::FindNode(i1), Request::FindNode(i2)) => assert!(i1.equals(i2)),
            (Request::FindValue(k1), Request::FindValue(k2)) => assert_eq!(k1, k2),
            _ => panic!("request variant changed in transit"),
        },
        (Message::Reply(a), Message::Reply(b)) => match (a, b) {
            (Reply::Ping, Reply::Ping) => {}
            (Reply::FindNode(n1), Reply::FindNode(n2)) => {
                assert_eq!(n1.len(), n2.len());
                for (x, y) in n1.iter().zip(n2.iter()) {
                    assert!(x.0.id.equals(&y.0.id));
                    assert_eq!(x.0.addr, y.0.addr);
                    assert_eq!(x.1.as_bytes(), y.1.as_bytes());
                }
            }
            (Reply::FindValue(f1), Reply::FindValue(f2)) => match (f1, f2) {
                (FindValueResult::Value(v1), FindValueResult::Value(v2)) => {
                    assert_eq!(v1, v2)
                }
                (FindValueResult::Nodes(n1), FindValueResult::Nodes(n2)) => {
                    assert_eq!(n1.len(), n2.len())
                }
                _ => panic!("lookup result variant changed in transit"),
            },
            _ => panic!("reply variant changed in transit"),
        },
        _ => panic!("body variant changed in transit"),
    }
}

fn kb2(prefix: &[u8]) -> Key {
    let mut bytes = prefix.to_vec();
    while bytes.len() < KEY_LEN {
        bytes.push(7);
    }
    Key::from_bytes(bytes).unwrap()
}

fn sample_envelope(body: Message) -> RpcMessage {
    RpcMessage {
        token: kb2(&[0xaa, 0xbb]),
        src: ni(kb(&[1]), "127.0.0.1:4000", "net"),
        dst: ni(kb(&[2]), "127.0.0.1:4001", "net"),
        msg: body,
    }
}

#[test]
fn codec_roundtrips_every_variant() {
    roundtrip(sample_envelope(Message::Kill));
    roundtrip(sample_envelope(Message::Request(Request::Ping)));
    roundtrip(sample_envelope(Message::Request(Request::Store(
        "hello".to_string(),
        "world".to_string(),
    ))));
    roundtrip(sample_envelope(Message::Request(Request::FindNode(kb(&[
        9, 8, 7,
    ])))));
    roundtrip(sample_envelope(Message::Request(Request::FindValue(
        "hello".to_string(),
    ))));
    roundtrip(sample_envelope(Message::Reply(Reply::Ping)));
    let a = kb(&[5]);
    let b = kb(&[6]);
    let pairs = vec![
        NodeAndDistance(ni(a.dup(), "h1:1", "net"), a.dist(&b)),
        NodeAndDistance(ni(b.dup(), "h2:2", "net"), b.dist(&b)),
    ];
    roundtrip(sample_envelope(Message::Reply(Reply::FindNode(pairs))));
    roundtrip(sample_envelope(Message::Reply(Reply::FindValue(
        FindValueResult::Value("v".to_string()),
    ))));
    let pairs2 = vec![NodeAndDistance(ni(a.dup(), "h1:1", "net"), a.dist(&b))];
    roundtrip(sample_envelope(Message::Reply(Reply::FindValue(
        FindValueResult::Nodes(pairs2),
    ))));
}

#[test]
fn codec_roundtrips_multibyte_text() {
    roundtrip(sample_envelope(Message::Request(Request::Store(
        "clé".to_string(),
        "växjö — 東京".to_string(),
    ))));
}

#[test]
fn decode_rejects_garbage_and_trailing_bytes() {
    assert!(decode(&vec![]).is_none());
    assert!(decode(&vec![0u8; 10]).is_none());
    assert!(decode(&vec![0xffu8; 200]).is_none());
    let mut bytes = encode(&sample_envelope(Message::Request(Request::Ping)));
    bytes.push(0);
    assert!(decode(&bytes).is_none(), "trailing bytes must be rejected");
    let bytes2 = encode(&sample_envelope(Message::Request(Request::Ping)));
    let truncated = bytes2[..bytes2.len() - 1].to_vec();
    assert!(decode(&truncated).is_none(), "truncation must be rejected");
}

#[test]
fn decode_rejects_invalid_text() {
    let mut bytes = encode(&sample_envelope(Message::Request(Request::Store(
        "é".to_string(),
        "x".to_string(),
    ))));
    // break the two-byte encoding of the accented character
    let pos = bytes.iter().position(|&b| b == 0xc3).unwrap();
    bytes[pos] = 0xff;
    assert!(decode(&bytes).is_none(), "invalid text must be rejected");
}

#[test]
fn decode_rejects_unknown_tags() {
    let good = encode(&sample_envelope(Message::Kill));
    // the body tag is the last byte of a kill envelope
    let mut bad = good.clone();
    let last = bad.len() - 1;
    bad[last] = 9;
    assert!(decode(&bad).is_none());
    assert!(decode(&good).is_some());
}
