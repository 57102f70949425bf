use git_pack::delta::DeltaError;
use git_pack::driver::{ObjectReader, WalkError};
use git_pack::hash::Hasher;
use git_pack::object::{ObjectHasher, ObjectHeader, ObjectKind};

fn zlib(data: &[u8]) -> Vec<u8> {
    let mut e = flate2::write::ZlibEncoder::new(Vec::new(), flate2::Compression::default());
    std::io::Write::write_all(&mut e, data).unwrap();
    e.finish().unwrap()
}

fn pack_header(count: u32) -> Vec<u8> {
    let mut p = b"PACK\x00\x00\x00\x02".to_vec();
    p.extend_from_slice(&count.to_be_bytes());
    p
}

#[test]
fn walk_single_blob() {
    let mut pack = pack_header(1);
    pack.push(0x35);  // blob, size 5
    pack.extend_from_slice(&zlib(b"hello"));

    let (mut rd, fh) = ObjectReader::new(&pack).expect("file header");
    assert_eq!(fh.count, 1);
    let out = rd.next(&pack).expect("first entry");
    assert_eq!(out, b"hello".to_vec());

    let idx = rd.into_index();
    assert_eq!(idx.len(), 1);
    let e = *idx.get(0);
    assert_eq!(e.offset, 12);
    assert_eq!(e.header_len, 1);
    assert_eq!(e.kind, ObjectKind::Blob);
    assert_eq!(e.base_index, None);

    // the recorded id is the primitive digest of "blob 5\0hello"
    let mut oh = ObjectHasher::new(ObjectHeader { kind: ObjectKind::Blob, size: 5 });
    oh.update(b"hello");
    assert_eq!(e.object, oh.digest());
}

#[test]
fn walk_offset_delta_chain() {
    // entry one: blob "hello"; entry two: an offset delta producing "abc"
    let mut pack = pack_header(2);
    let first_off = pack.len() as u64;
    pack.push(0x35);
    pack.extend_from_slice(&zlib(b"hello"));

    let second_off = pack.len() as u64;
    let delta = [0x05u8, 0x03, 0x03, b'a', b'b', b'c'];  // base 5, result 3, insert "abc"
    pack.push(0x66);  // offset delta, delta stream length 6
    let distance = (second_off - first_off) as u8;
    assert!(distance < 0x80);
    pack.push(distance);
    pack.extend_from_slice(&zlib(&delta));

    let (mut rd, fh) = ObjectReader::new(&pack).expect("file header");
    assert_eq!(fh.count, 2);
    assert_eq!(rd.next(&pack).expect("first entry"), b"hello".to_vec());
    assert_eq!(rd.next(&pack).expect("second entry"), b"abc".to_vec());

    let idx = rd.into_index();
    assert_eq!(idx.len(), 2);
    let e = *idx.get(1);
    assert_eq!(e.offset, second_off);
    assert_eq!(e.header_len, 2);
    assert_eq!(e.kind, ObjectKind::Blob);  // inherited from the chain root
    assert_eq!(e.base_index, Some(0));

    let mut oh = ObjectHasher::new(ObjectHeader { kind: ObjectKind::Blob, size: 3 });
    oh.update(b"abc");
    assert_eq!(e.object, oh.digest());
}

#[test]
fn walk_reference_delta() {
    // the second entry names its base by the first entry's id
    let mut oh = ObjectHasher::new(ObjectHeader { kind: ObjectKind::Blob, size: 5 });
    oh.update(b"hello");
    let base_id = oh.digest();

    let mut pack = pack_header(2);
    pack.push(0x35);
    pack.extend_from_slice(&zlib(b"hello"));

    // copy four base bytes from offset one
    let delta = [0x05u8, 0x04, 0x91, 0x01, 0x04];
    pack.push(0x75);  // reference delta, delta stream length 5
    pack.extend_from_slice(&base_id.0);
    pack.extend_from_slice(&zlib(&delta));

    let (mut rd, _) = ObjectReader::new(&pack).expect("file header");
    assert_eq!(rd.next(&pack).expect("first entry"), b"hello".to_vec());
    assert_eq!(rd.next(&pack).expect("second entry"), b"ello".to_vec());

    let idx = rd.index();
    assert_eq!(idx.get(1).header_len, 21);
    assert_eq!(idx.get(1).base_index, Some(0));
}

#[test]
fn walk_two_level_chain() {
    // a delta whose base is itself a delta
    let mut pack = pack_header(3);
    let first_off = pack.len() as u64;
    pack.push(0x34);  // blob, size 4
    pack.extend_from_slice(&zlib(b"wxyz"));

    let second_off = pack.len() as u64;
    let delta1 = [0x04u8, 0x05, 0x91, 0x00, 0x04, 0x01, b'!'];  // copy "wxyz", insert "!"
    pack.push(0x67);
    pack.push((second_off - first_off) as u8);
    pack.extend_from_slice(&zlib(&delta1));

    let third_off = pack.len() as u64;
    let delta2 = [0x05u8, 0x03, 0x91, 0x02, 0x03];  // copy three bytes from offset two of "wxyz!"
    pack.push(0x65);
    pack.push((third_off - second_off) as u8);
    pack.extend_from_slice(&zlib(&delta2));

    let (mut rd, _) = ObjectReader::new(&pack).expect("file header");
    assert_eq!(rd.next(&pack).expect("first"), b"wxyz".to_vec());
    assert_eq!(rd.next(&pack).expect("second"), b"wxyz!".to_vec());
    assert_eq!(rd.next(&pack).expect("third"), b"yz!".to_vec());

    let idx = rd.into_index();
    assert_eq!(idx.get(2).base_index, Some(1));
    assert_eq!(idx.get(1).base_index, Some(0));
}

#[test]
fn walk_rejects_bad_file_header() {
    let pack = b"JUNK\x00\x00\x00\x02\x00\x00\x00\x01".to_vec();
    assert!(matches!(ObjectReader::new(&pack), Err(WalkError::InvalidFileHeader)));
}

#[test]
fn walk_rejects_truncated_file_header() {
    let pack = b"PACK\x00\x00".to_vec();
    assert!(matches!(ObjectReader::new(&pack), Err(WalkError::UnexpectedEof)));
}

#[test]
fn walk_rejects_reserved_entry_kind() {
    let mut pack = pack_header(1);
    pack.push(0x50);
    let (mut rd, _) = ObjectReader::new(&pack).expect("file header");
    assert_eq!(rd.next(&pack), Err(WalkError::InvalidEntryHeader));
}

#[test]
fn walk_rejects_missing_base() {
    let mut pack = pack_header(1);
    pack.push(0x66);
    pack.push(0x01);  // back-reference to offset 13 - 1 = 12: nothing indexed there
    pack.extend_from_slice(&zlib(&[0x00, 0x00]));
    let (mut rd, _) = ObjectReader::new(&pack).expect("file header");
    assert_eq!(rd.next(&pack), Err(WalkError::BaseNotFound));
}

#[test]
fn walk_rejects_bad_zlib_body() {
    let mut pack = pack_header(1);
    pack.push(0x35);
    pack.extend_from_slice(b"this is not compressed");
    let (mut rd, _) = ObjectReader::new(&pack).expect("file header");
    assert_eq!(rd.next(&pack), Err(WalkError::BadZlibStream));
}

#[test]
fn walk_rejects_duplicate_object() {
    // the same blob stored twice collides in the index
    let mut pack = pack_header(2);
    pack.push(0x35);
    pack.extend_from_slice(&zlib(b"hello"));
    pack.push(0x35);
    pack.extend_from_slice(&zlib(b"hello"));
    let (mut rd, _) = ObjectReader::new(&pack).expect("file header");
    assert!(rd.next(&pack).is_ok());
    assert_eq!(rd.next(&pack), Err(WalkError::DuplicateObject));
}

#[test]
fn walk_reports_clean_eof() {
    let pack = pack_header(1);
    let (mut rd, _) = ObjectReader::new(&pack).expect("file header");
    assert_eq!(rd.next(&pack), Err(WalkError::UnexpectedEof));
}

#[test]
fn decompression_is_not_a_copy() {
    // the walked bytes differ from the stored (compressed) bytes
    let content = vec![b'r'; 300];
    let mut pack = pack_header(1);
    pack.push(0xb0 | 0x0c);  // blob, size 300 = 0x12c: low nibble 0xc, continuation 0x12
    pack.push(0x12);
    let body = zlib(&content);
    assert!(body.len() < content.len());
    pack.extend_from_slice(&body);
    let (mut rd, _) = ObjectReader::new(&pack).expect("file header");
    assert_eq!(rd.next(&pack).expect("entry"), content);
}

#[test]
fn walk_reports_delta_errors() {
    // the delta stream's instruction byte zero is reserved
    let mut pack = pack_header(2);
    let first_off = pack.len() as u64;
    pack.push(0x35);
    pack.extend_from_slice(&zlib(b"hello"));
    let second_off = pack.len() as u64;
    pack.push(0x63);
    pack.push((second_off - first_off) as u8);
    pack.extend_from_slice(&zlib(&[0x05, 0x01, 0x00]));
    let (mut rd, _) = ObjectReader::new(&pack).expect("file header");
    assert!(rd.next(&pack).is_ok());
    assert_eq!(rd.next(&pack), Err(WalkError::Delta(DeltaError::InvalidCommand)));
}

#[test]
fn raw_hasher_matches_known_digest() {
    let mut h = Hasher::new();
    h.update(b"abc");
    let d = [0xa9, 0x99, 0x3e, 0x36, 0x47, 0x06, 0x81, 0x6a, 0xba, 0x3e, 0x25, 0x71, 0x78, 0x50,
        0xc2, 0x6c, 0x9c, 0xd0, 0xd8, 0x9d];
    assert_eq!(h.digest(), d);
}
