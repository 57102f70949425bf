use git_pack::incremental::Parsed;
use git_pack::parsers::{Bytes, Leb128, Overflow, leb128_encode};
use git_pack::safe_shl_u64;

#[test]
fn safe_shl_basics() {
    assert_eq!(safe_shl_u64(1, 3), Some(8));
    assert_eq!(safe_shl_u64(0, 63), Some(0));
    assert_eq!(safe_shl_u64(0, 64), None);
    assert_eq!(safe_shl_u64(1, 63), Some(1u64 << 63));
    assert_eq!(safe_shl_u64(2, 63), None);
    assert_eq!(safe_shl_u64(u64::MAX, 0), Some(u64::MAX));
    assert_eq!(safe_shl_u64(u64::MAX, 1), None);
}

#[test]
fn leb128_single_byte() {
    let p = Leb128::default();
    match p.parse(&[0x2a, 0xff]) {
        Parsed::Done(v, tail) => {
            assert_eq!(v, 42);
            assert_eq!(tail, &[0xff]);
        }
        _ => panic!("expected completion"),
    }
}

#[test]
fn leb128_multi_byte() {
    // 300 = 0b1_0010_1100 -> 0xac 0x02
    let p = Leb128::default();
    match p.parse(&[0xac, 0x02]) {
        Parsed::Done(v, tail) => {
            assert_eq!(v, 300);
            assert!(tail.is_empty());
        }
        _ => panic!("expected completion"),
    }
}

#[test]
fn leb128_incomplete_then_resume() {
    // parse split invariance, observed on a concrete split
    let bytes = [0xac, 0x02];
    let p = Leb128::default();
    let p = match p.parse(&bytes[..1]) {
        Parsed::Incomplete(p) => p,
        _ => panic!("expected to wait for more input"),
    };
    match p.parse(&bytes[1..]) {
        Parsed::Done(v, tail) => {
            assert_eq!(v, 300);
            assert!(tail.is_empty());
        }
        _ => panic!("expected completion"),
    }
}

#[test]
fn leb128_split_everywhere_matches_one_shot() {
    let bytes = [0xe5, 0x8e, 0x26, 0x07, 0x09];
    let one_shot = match Leb128::default().parse(&bytes) {
        Parsed::Done(v, tail) => (v, tail.to_vec()),
        _ => panic!("expected completion"),
    };
    for n in 0..=bytes.len() {
        let split = match Leb128::default().parse(&bytes[..n]) {
            Parsed::Incomplete(p) => match p.parse(&bytes[n..]) {
                Parsed::Done(v, tail) => (v, tail.to_vec()),
                _ => panic!("expected completion after resume"),
            },
            Parsed::Done(v, tail) => (v, [tail, &bytes[n..]].concat()),
            Parsed::Failed(_) => panic!("unexpected failure"),
        };
        assert_eq!(one_shot, split);
    }
}

#[test]
fn leb128_round_trip_values() {
    for v in [0u64, 1, 127, 128, 129, 300, 16383, 16384, u32::MAX as u64, u64::MAX - 1, u64::MAX] {
        let enc = leb128_encode(v);
        match Leb128::default().parse(&enc) {
            Parsed::Done(got, tail) => {
                assert_eq!(got, v);
                assert!(tail.is_empty());
            }
            _ => panic!("expected completion"),
        }
    }
}

#[test]
fn leb128_encode_shapes() {
    assert_eq!(leb128_encode(0), vec![0x00]);
    assert_eq!(leb128_encode(127), vec![0x7f]);
    assert_eq!(leb128_encode(128), vec![0x80, 0x01]);
    assert_eq!(leb128_encode(300), vec![0xac, 0x02]);
}

#[test]
fn leb128_overflow_is_reported() {
    // ten continuation bytes push a set payload bit past the accumulator
    let bytes = [0xff, 0xff, 0xff, 0xff, 0xff, 0xff, 0xff, 0xff, 0xff, 0x7f];
    match Leb128::default().parse(&bytes) {
        Parsed::Failed(Overflow) => {}
        _ => panic!("expected overflow"),
    }
}

#[test]
fn leb128_seeded_state() {
    // a parser seeded at shift 4 with a low nibble, as the entry header uses
    let p = Leb128::new(4, 0x0);
    match p.parse(&[0x01]) {
        Parsed::Done(v, _) => assert_eq!(v, 0x10),
        _ => panic!("expected completion"),
    }
}

#[test]
fn bytes_accumulator() {
    let p: Bytes<4> = Bytes::default();
    let p = match p.parse(&[1, 2]) {
        Parsed::Incomplete(p) => p,
        _ => panic!("expected to wait for more input"),
    };
    match p.parse(&[3, 4, 5]) {
        Parsed::Done(v, tail) => {
            assert_eq!(v, [1, 2, 3, 4]);
            assert_eq!(tail, &[5]);
        }
        _ => panic!("expected completion"),
    }
}
