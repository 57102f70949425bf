use git_pack::incremental::Parsed;
use git_pack::object::{ObjectHeader, ObjectKind};
use git_pack::pack::{
    DeltaHeader, DeltaKind, DeltaOffsetParser, EntryHeader, EntryHeaderParser, EntryKind,
    FileHeader, FileHeaderParser, InvalidDeltaHeader, InvalidEntryHeader, InvalidFileHeader,
};

#[test]
fn file_header_golden() {
    let input = [0x50, 0x41, 0x43, 0x4b, 0x00, 0x00, 0x00, 0x02, 0x00, 0x00, 0x00, 0x2a];
    match FileHeaderParser::default().parse(&input) {
        Parsed::Done(h, tail) => {
            assert_eq!(h, FileHeader { count: 42 });
            assert!(tail.is_empty());
        }
        _ => panic!("expected completion"),
    }
}

#[test]
fn file_header_split_everywhere() {
    let input = [0x50, 0x41, 0x43, 0x4b, 0x00, 0x00, 0x00, 0x02, 0x01, 0x02, 0x03, 0x04, 0xaa];
    let expect = FileHeader { count: 0x01020304 };
    for n in 0..=input.len() {
        let outcome = match FileHeaderParser::default().parse(&input[..n]) {
            Parsed::Incomplete(p) => p.parse(&input[n..]),
            Parsed::Done(h, tail) => {
                assert_eq!(h, expect);
                assert_eq!(tail, &input[n - tail.len()..n]);
                continue;
            }
            Parsed::Failed(_) => panic!("unexpected failure"),
        };
        match outcome {
            Parsed::Done(h, tail) => {
                assert_eq!(h, expect);
                assert_eq!(tail, &[0xaa]);
            }
            _ => panic!("expected completion"),
        }
    }
}

#[test]
fn file_header_bad_tag() {
    let input = [0x50, 0x41, 0x43, 0x4b, 0x00, 0x00, 0x00, 0x03];
    match FileHeaderParser::default().parse(&input) {
        Parsed::Failed(InvalidFileHeader) => {}
        _ => panic!("expected rejection"),
    }
}

#[test]
fn entry_header_object() {
    match EntryHeaderParser::default().parse(&[0x30]) {
        Parsed::Done(h, tail) => {
            assert_eq!(h, EntryHeader::Object(ObjectHeader { kind: ObjectKind::Blob, size: 0 }));
            assert!(tail.is_empty());
        }
        _ => panic!("expected completion"),
    }
}

#[test]
fn entry_header_object_with_continuation() {
    match EntryHeaderParser::default().parse(&[0xb0, 0x01]) {
        Parsed::Done(h, tail) => {
            assert_eq!(h, EntryHeader::Object(ObjectHeader { kind: ObjectKind::Blob, size: 0x10 }));
            assert!(tail.is_empty());
        }
        _ => panic!("expected completion"),
    }
}

#[test]
fn entry_header_all_kinds() {
    let cases = [
        (0x10u8, ObjectKind::Commit),
        (0x20, ObjectKind::Tree),
        (0x30, ObjectKind::Blob),
        (0x40, ObjectKind::Tag),
    ];
    for (byte, kind) in cases {
        match EntryHeaderParser::default().parse(&[byte | 0x05]) {
            Parsed::Done(h, _) => {
                assert_eq!(h, EntryHeader::Object(ObjectHeader { kind, size: 5 }));
                assert_eq!(h.kind(), EntryKind::Object(kind));
            }
            _ => panic!("expected completion"),
        }
    }
}

#[test]
fn entry_header_reserved_kind() {
    for byte in [0x00u8, 0x50] {
        match EntryHeaderParser::default().parse(&[byte]) {
            Parsed::Failed(InvalidEntryHeader) => {}
            _ => panic!("expected rejection"),
        }
    }
}

#[test]
fn entry_header_offset_delta() {
    match EntryHeaderParser::default().parse(&[0x66, 0x01]) {
        Parsed::Done(h, tail) => {
            assert_eq!(h, EntryHeader::Delta(DeltaHeader::Offset { delta_len: 6, base: 1 }));
            assert!(tail.is_empty());
            match h {
                EntryHeader::Delta(d) => {
                    assert_eq!(d.kind(), DeltaKind::Offset);
                    assert_eq!(d.delta_len(), 6);
                }
                _ => unreachable!(),
            }
        }
        _ => panic!("expected completion"),
    }
}

#[test]
fn entry_header_reference_delta() {
    let mut input = vec![0x73];
    for i in 0..20u8 {
        input.push(i);
    }
    match EntryHeaderParser::default().parse(&input) {
        Parsed::Done(EntryHeader::Delta(DeltaHeader::Reference { delta_len, base }), tail) => {
            assert_eq!(delta_len, 3);
            assert_eq!(base.0[0], 0);
            assert_eq!(base.0[19], 19);
            assert!(tail.is_empty());
        }
        _ => panic!("expected a reference delta"),
    }
}

#[test]
fn offset_delta_single_byte() {
    match DeltaOffsetParser::Fresh.parse(&[0x01]) {
        Parsed::Done(off, tail) => {
            assert_eq!(off, 1);
            assert!(tail.is_empty());
        }
        _ => panic!("expected completion"),
    }
}

#[test]
fn offset_delta_continuation() {
    // ((1 + 1) << 7) | 0 = 256
    match DeltaOffsetParser::Fresh.parse(&[0x81, 0x00]) {
        Parsed::Done(off, tail) => {
            assert_eq!(off, 256);
            assert!(tail.is_empty());
        }
        _ => panic!("expected completion"),
    }
}

#[test]
fn offset_delta_overflow() {
    let input = [0xff, 0xff, 0xff, 0xff, 0xff, 0xff, 0xff, 0xff, 0xff, 0x7f];
    match DeltaOffsetParser::Fresh.parse(&input) {
        Parsed::Failed(InvalidDeltaHeader) => {}
        _ => panic!("expected rejection"),
    }
}

#[test]
fn entry_header_split_everywhere() {
    let mut input = vec![0xe6, 0x01, 0x81, 0x00, 0x99];
    // kind 6 (offset delta), size 6 | (1 << 4) = 0x16, base ((1+1)<<7)|0
    let expect = EntryHeader::Delta(DeltaHeader::Offset { delta_len: 0x16, base: 256 });
    input.push(0x77);
    for n in 0..=input.len() {
        let outcome = match EntryHeaderParser::default().parse(&input[..n]) {
            Parsed::Incomplete(p) => p.parse(&input[n..]),
            Parsed::Done(h, tail) => {
                assert_eq!(h, expect);
                assert_eq!(tail, &input[4..n]);
                continue;
            }
            Parsed::Failed(_) => panic!("unexpected failure"),
        };
        match outcome {
            Parsed::Done(h, tail) => {
                assert_eq!(h, expect);
                assert_eq!(tail, &[0x99, 0x77]);
            }
            _ => panic!("expected completion"),
        }
    }
}
