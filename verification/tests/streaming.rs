//! The streaming encoder driven directly, including reuse across messages.

use rzcobs::{encode, Encoder, Write};

struct VecSink {
    out: Vec<u8>,
}

impl Write for VecSink {
    type Error = ();

    // ghost items of the trait; never called at run time
    fn bytes(&self) -> vstd::seq::Seq<u8> {
        unreachable!()
    }

    fn infallible(&self) -> bool {
        unreachable!()
    }

    fn write(&mut self, byte: u8) -> Result<(), ()> {
        self.out.push(byte);
        Ok(())
    }
}

#[test]
fn streaming_matches_convenience_encode() {
    let m = [0x01u8, 0x00, 0x02, 0x11, 0x22, 0x33, 0x44, 0x55, 0x66, 0x77, 0x88];
    let mut enc = Encoder::new(VecSink { out: Vec::new() });
    for &b in &m {
        enc.write(b).unwrap();
    }
    enc.end().unwrap();
    assert_eq!(enc.writer().out, encode(&m));
}

#[test]
fn encoder_reuse_matches_independent_encodings() {
    let m1 = [0x11u8, 0x00, 0x22, 0x33];
    let m2 = [0x01u8, 0x02, 0x03, 0x04, 0x05, 0x06, 0x07, 0x08, 0x09];
    let mut enc = Encoder::new(VecSink { out: Vec::new() });
    for &b in &m1 {
        enc.write(b).unwrap();
    }
    enc.end().unwrap();
    for &b in &m2 {
        enc.write(b).unwrap();
    }
    enc.end().unwrap();
    let mut expected = encode(&m1);
    expected.extend_from_slice(&encode(&m2));
    assert_eq!(enc.writer().out, expected);
}

#[test]
fn separator_written_through_writer() {
    let m1 = [0xaau8, 0xbb];
    let m2 = [0xccu8];
    let mut enc = Encoder::new(VecSink { out: Vec::new() });
    for &b in &m1 {
        enc.write(b).unwrap();
    }
    enc.end().unwrap();
    enc.writer().write(0).unwrap();
    for &b in &m2 {
        enc.write(b).unwrap();
    }
    enc.end().unwrap();
    let mut expected = encode(&m1);
    expected.push(0x00);
    expected.extend_from_slice(&encode(&m2));
    assert_eq!(enc.writer().out, expected);
}
