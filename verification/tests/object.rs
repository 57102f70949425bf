use git_pack::hash::Hasher;
use git_pack::incremental::Parsed;
use git_pack::object::{ObjectHasher, ObjectHeader, ObjectId, ObjectIdParser, ObjectKind};

#[test]
fn hello_world() {
    let mut h = Hasher::new();
    h.update(b"hello, world");
    let d = [0xb7, 0xe2, 0x3e, 0xc2, 0x9a, 0xf2, 0x2b, 0x0b, 0x4e, 0x41, 0xda, 0x31, 0xe8, 0x68,
        0xd5, 0x72, 0x26, 0x12, 0x1c, 0x84];
    assert_eq!(d, h.digest());
}

#[test]
fn kind_names() {
    assert_eq!(ObjectKind::Commit.name(), "commit");
    assert_eq!(ObjectKind::Tree.name(), "tree");
    assert_eq!(ObjectKind::Blob.name(), "blob");
    assert_eq!(ObjectKind::Tag.name(), "tag");
    assert_eq!(ObjectKind::Blob.name_bytes(), b"blob".to_vec());
}

#[test]
fn object_hasher_uses_canonical_preimage() {
    // the object id equals the primitive digest of "<kind> <size>\0content"
    let content = b"hello, world";
    let mut oh = ObjectHasher::new(ObjectHeader { kind: ObjectKind::Blob, size: content.len() as u64 });
    oh.update(content);
    let id = oh.digest();

    let mut raw = Hasher::new();
    raw.update(b"blob 12\x00");
    raw.update(content);
    assert_eq!(id.0, raw.digest());
}

#[test]
fn object_hasher_decimal_size() {
    // a multi-digit size is rendered in decimal with no padding
    let mut oh = ObjectHasher::new(ObjectHeader { kind: ObjectKind::Tree, size: 1040 });
    oh.update(&[7u8; 4]);
    let id = oh.digest();

    let mut raw = Hasher::new();
    raw.update(b"tree 1040\x00");
    raw.update(&[7u8; 4]);
    assert_eq!(id.0, raw.digest());
}

#[test]
fn hex_round_trip() {
    let mut bytes = [0u8; 20];
    for (i, b) in bytes.iter_mut().enumerate() {
        *b = (i as u8) * 13;
    }
    let id = ObjectId(bytes);
    let hex = id.to_hex();
    assert_eq!(hex.len(), 40);
    let back = ObjectId::from_hex(&hex).expect("hex must round trip");
    assert_eq!(back, id);
}

#[test]
fn hex_rendering_is_lowercase() {
    let mut bytes = [0u8; 20];
    bytes[0] = 0xb7;
    bytes[1] = 0x0a;
    bytes[19] = 0xff;
    let id = ObjectId(bytes);
    let hex = id.to_hex();
    assert_eq!(&hex[..4], b"b70a");
    assert_eq!(&hex[38..], b"ff");
}

#[test]
fn from_hex_rejects_bad_input() {
    assert_eq!(ObjectId::from_hex(b"ab"), None);
    let mut ok = [0x61u8; 40];
    assert!(ObjectId::from_hex(&ok).is_some());
    ok[7] = b'G';
    assert_eq!(ObjectId::from_hex(&ok), None);
    let upper = [0x41u8; 40];
    assert_eq!(ObjectId::from_hex(&upper), None);
}

#[test]
fn id_order_is_bytewise() {
    let a = ObjectId([0u8; 20]);
    let mut bb = [0u8; 20];
    bb[19] = 1;
    let b = ObjectId(bb);
    assert!(a.lt(&b));
    assert!(!b.lt(&a));
    assert!(!a.lt(&a));
    assert!(a.same(&a));
    assert!(!a.same(&b));
}

#[test]
fn object_id_parser_takes_twenty_bytes() {
    let mut input = Vec::new();
    for i in 0..22u8 {
        input.push(i);
    }
    let p = ObjectIdParser::default();
    match p.parse(&input) {
        Parsed::Done(id, tail) => {
            assert_eq!(id.0[0], 0);
            assert_eq!(id.0[19], 19);
            assert_eq!(tail, &[20, 21]);
        }
        _ => panic!("expected completion"),
    }
}
