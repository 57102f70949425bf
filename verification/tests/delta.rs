use git_pack::delta::{
    Command, CommandParser, DeltaError, Header, HeaderParser, InvalidCommand, Reader,
};
use git_pack::incremental::Parsed;

#[test]
fn header_two_varints() {
    match HeaderParser::default().parse(&[0x85, 0x01, 0x03, 0xee]) {
        Parsed::Done(h, tail) => {
            assert_eq!(h, Header { base_len: 0x85, result_len: 3 });
            assert_eq!(tail, &[0xee]);
        }
        _ => panic!("expected completion"),
    }
}

#[test]
fn header_split_everywhere() {
    let input = [0x85, 0x01, 0x83, 0x02, 0x55];
    let expect = Header { base_len: 0x85, result_len: 0x103 };
    for n in 0..=input.len() {
        let outcome = match HeaderParser::default().parse(&input[..n]) {
            Parsed::Incomplete(p) => p.parse(&input[n..]),
            Parsed::Done(h, tail) => {
                assert_eq!(h, expect);
                assert_eq!(tail, &input[4..n]);
                continue;
            }
            Parsed::Failed(_) => panic!("unexpected failure"),
        };
        match outcome {
            Parsed::Done(h, tail) => {
                assert_eq!(h, expect);
                assert_eq!(tail, &[0x55]);
            }
            _ => panic!("expected completion"),
        }
    }
}

#[test]
fn command_insert() {
    match CommandParser::default().parse(&[0x05, 0xaa]) {
        Parsed::Done(c, tail) => {
            assert_eq!(c, Command::Insert { len: 5 });
            assert_eq!(c.len(), 5);
            assert_eq!(tail, &[0xaa]);
        }
        _ => panic!("expected completion"),
    }
}

#[test]
fn command_copy_with_operands() {
    // bit 0 selects one offset byte, bit 4 one length byte
    match CommandParser::default().parse(&[0x91, 0x02, 0x03]) {
        Parsed::Done(c, tail) => {
            assert_eq!(c, Command::Copy { off: 2, len: 3 });
            assert_eq!(c.len(), 3);
            assert!(tail.is_empty());
        }
        _ => panic!("expected completion"),
    }
}

#[test]
fn command_copy_multi_byte_operands() {
    // offset bytes 0 and 1, length byte 0
    match CommandParser::default().parse(&[0x93, 0x34, 0x12, 0x07]) {
        Parsed::Done(c, _) => {
            assert_eq!(c, Command::Copy { off: 0x1234, len: 7 });
        }
        _ => panic!("expected completion"),
    }
}

#[test]
fn command_zero_length_copy_means_64k() {
    match CommandParser::default().parse(&[0x90, 0x00]) {
        Parsed::Done(c, _) => {
            assert_eq!(c, Command::Copy { off: 0, len: 0x10000 });
        }
        _ => panic!("expected completion"),
    }
}

#[test]
fn command_reserved_zero_op() {
    match CommandParser::default().parse(&[0x00]) {
        Parsed::Failed(InvalidCommand) => {}
        _ => panic!("expected rejection"),
    }
}

#[test]
fn command_bare_copy_marker() {
    // a copy opcode selecting no operand bytes at all is invalid
    match CommandParser::default().parse(&[0x80]) {
        Parsed::Failed(InvalidCommand) => {}
        _ => panic!("expected rejection"),
    }
}

#[test]
fn command_split_everywhere() {
    let input = [0x93, 0x34, 0x12, 0x07, 0x44];
    let expect = Command::Copy { off: 0x1234, len: 7 };
    for n in 0..=input.len() {
        let outcome = match CommandParser::default().parse(&input[..n]) {
            Parsed::Incomplete(p) => p.parse(&input[n..]),
            Parsed::Done(c, tail) => {
                assert_eq!(c, expect);
                assert_eq!(tail, &input[4..n]);
                continue;
            }
            Parsed::Failed(_) => panic!("unexpected failure"),
        };
        match outcome {
            Parsed::Done(c, tail) => {
                assert_eq!(c, expect);
                assert_eq!(tail, &[0x44]);
            }
            _ => panic!("expected completion"),
        }
    }
}

#[test]
fn reader_copy_from_base() {
    // base ABCDEFGH, one copy of three bytes from offset two
    let base = b"ABCDEFGH".to_vec();
    let delta = vec![0x08, 0x03, 0x91, 0x02, 0x03];
    let r = Reader::new(base, delta).expect("header must parse");
    assert_eq!(r.header(), Header { base_len: 8, result_len: 3 });
    let out = r.read_to_end().expect("replay must succeed");
    assert_eq!(out, b"CDE".to_vec());
}

#[test]
fn reader_insert() {
    let base = Vec::new();
    let delta = vec![0x00, 0x03, 0x03, b'x', b'y', b'z'];
    let r = Reader::new(base, delta).expect("header must parse");
    let out = r.read_to_end().expect("replay must succeed");
    assert_eq!(out, b"xyz".to_vec());
}

#[test]
fn reader_mixed_instructions() {
    let base = b"ABCDEFGH".to_vec();
    let delta = vec![0x08, 0x07, 0x02, b'-', b'-', 0x91, 0x03, 0x04, 0x01, b'!'];
    let r = Reader::new(base, delta).expect("header must parse");
    let out = r.read_to_end().expect("replay must succeed");
    assert_eq!(out, b"--DEFG!".to_vec());
}

#[test]
fn reader_oversized_copy_truncates() {
    // a 64 KiB copy against an 8-byte base yields what is there, then ends
    let base = b"ABCDEFGH".to_vec();
    let delta = vec![0x08, 0x08, 0x90, 0x00];
    let r = Reader::new(base, delta).expect("header must parse");
    let out = r.read_to_end().expect("replay must succeed");
    assert_eq!(out, b"ABCDEFGH".to_vec());
}

#[test]
fn reader_invalid_command() {
    let base = Vec::new();
    let delta = vec![0x00, 0x00, 0x00];
    let r = Reader::new(base, delta).expect("header must parse");
    assert_eq!(r.read_to_end(), Err(DeltaError::InvalidCommand));
}

#[test]
fn reader_truncated_command() {
    let base = Vec::new();
    let delta = vec![0x00, 0x00, 0x91, 0x02];
    let r = Reader::new(base, delta).expect("header must parse");
    assert_eq!(r.read_to_end(), Err(DeltaError::UnexpectedEof));
}

#[test]
fn reader_header_overflow() {
    let delta = vec![0xff, 0xff, 0xff, 0xff, 0xff, 0xff, 0xff, 0xff, 0xff, 0x7f];
    assert_eq!(Reader::new(Vec::new(), delta).err(), Some(DeltaError::InvalidHeader));
}

#[test]
fn reader_truncated_header() {
    let delta = vec![0x80];
    assert_eq!(Reader::new(Vec::new(), delta).err(), Some(DeltaError::UnexpectedEof));
}
