//! Error reporting of the two decoders.

use rzcobs::{decode, decode_to_slice, encode, DecodeError, MalformedError};

#[test]
fn zero_control_byte_is_malformed() {
    assert_eq!(decode(&[0x00]), Err(MalformedError));
    // a separator byte left in front of a valid message spoils the whole input
    let mut data = vec![0x00];
    data.extend_from_slice(&encode(&[0x01, 0x02, 0x03]));
    assert_eq!(decode(&data), Err(MalformedError));
    let mut buf = [0u8; 64];
    assert_eq!(
        decode_to_slice(&data, &mut buf),
        Err(DecodeError::MalformedError)
    );
}

#[test]
fn truncated_input_is_malformed() {
    // a bitmask control byte missing its literals
    assert_eq!(decode(&[0x01]), Err(MalformedError));
    // a long-run control byte missing its literals
    assert_eq!(decode(&[0x80]), Err(MalformedError));
    assert_eq!(decode(&[0x11, 0x22, 0x81]), Err(MalformedError));
    // the sentinel missing its 134 literals
    assert_eq!(decode(&[0x42, 0xff]), Err(MalformedError));
    let mut buf = [0u8; 256];
    assert_eq!(
        decode_to_slice(&[0x01], &mut buf),
        Err(DecodeError::MalformedError)
    );
    assert_eq!(
        decode_to_slice(&[0x42, 0xff], &mut buf),
        Err(DecodeError::MalformedError)
    );
}

#[test]
fn bounded_decode_matches_unbounded() {
    let messages: &[&[u8]] = &[
        &[],
        &[0x00],
        &[0x01, 0x02],
        &[0x11, 0x22, 0x33, 0x44, 0x55, 0x66, 0x77, 0x88],
        &[0x01, 0x00, 0x02, 0x00, 0x03, 0x00, 0x04, 0x00, 0x05],
    ];
    for m in messages {
        let enc = encode(m);
        let full = decode(&enc).unwrap();
        let mut buf = [0u8; 64];
        let n = decode_to_slice(&enc, &mut buf).unwrap();
        assert_eq!(&buf[..n], &full[..]);
    }
}

#[test]
fn bounded_decode_reports_overflow() {
    let m = [0x11, 0x22, 0x33, 0x44, 0x55, 0x66, 0x77, 0x88];
    let enc = encode(&m);
    let needed = decode(&enc).unwrap().len();
    // every strictly smaller destination fails, and never truncates silently
    for cap in 0..needed {
        let mut buf = vec![0u8; cap];
        assert_eq!(
            decode_to_slice(&enc, &mut buf),
            Err(DecodeError::BufferOverflow)
        );
    }
    let mut buf = vec![0u8; needed];
    let n = decode_to_slice(&enc, &mut buf).unwrap();
    assert_eq!(n, needed);
    assert_eq!(&buf[..m.len()], &m[..]);
}

#[test]
fn bounded_decode_leaves_tail_untouched() {
    let enc = encode(&[0x01, 0x02]);
    let mut buf = [0xaau8; 16];
    let n = decode_to_slice(&enc, &mut buf).unwrap();
    assert_eq!(n, 7);
    assert!(buf[n..].iter().all(|&x| x == 0xaa));
}
