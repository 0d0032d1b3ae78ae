//! Round-trip checks over the reference vectors.

use rzcobs::{decode, encode};

fn check_pair(dec: &[u8], enc: &[u8]) {
    assert_eq!(&encode(dec)[..], enc);

    let got = decode(enc).unwrap();
    assert_eq!(&got[..dec.len()], dec);
    assert!(got[dec.len()..].iter().all(|&x| x == 0));
}

#[test]
fn it_works() {
    let tests: &[(&[u8], &[u8])] = &[
        (&[], &[]),
        (&[0x00], &[0x7f]),
        (&[0x00, 0x00], &[0x7f]),
        (&[0x00, 0x00, 0x00, 0x00, 0x00, 0x00, 0x00], &[0x7f]),
        (&[0x00, 0x00, 0x00, 0x00, 0x00, 0x00, 0x00, 0x00], &[0x7f, 0x7f]),
        (&[0x01], &[0x01, 0x7e]),
        (&[0x01, 0x00], &[0x01, 0x7e]),
        (&[0x00, 0x01], &[0x01, 0x7d]),
        (&[0x01, 0x02], &[0x01, 0x02, 0x7c]),
        (
            &[0x11, 0x22, 0x33, 0x44, 0x55, 0x66, 0x00],
            &[0x11, 0x22, 0x33, 0x44, 0x55, 0x66, 0x40],
        ),
        (
            &[0x11, 0x22, 0x33, 0x44, 0x55, 0x66, 0x77],
            &[0x11, 0x22, 0x33, 0x44, 0x55, 0x66, 0x77, 0x80],
        ),
        (
            &[0x11, 0x22, 0x33, 0x44, 0x55, 0x66, 0x77, 0x00],
            &[0x11, 0x22, 0x33, 0x44, 0x55, 0x66, 0x77, 0x80],
        ),
        (
            &[0x11, 0x22, 0x33, 0x44, 0x55, 0x66, 0x77, 0x88],
            &[0x11, 0x22, 0x33, 0x44, 0x55, 0x66, 0x77, 0x88, 0x81],
        ),
        (
            &[
                0x00, 0x00, 0x00, 0x00, 0x00, 0x00, 0x00, 0x00, 0x00, 0x00, 0x00, 0x00, 0x00,
                0xff,
            ],
            &[0x7f, 0xff, 0x3f],
        ),
        (
            &[
                0x00, 0x00, 0x00, 0x00, 0x00, 0x44, 0x00, 0x00, 0x00, 0x00, 0x00, 0x00, 0x00,
                0xff,
            ],
            &[0x44, 0x5f, 0xff, 0x3f],
        ),
    ];

    for (dec, enc) in tests {
        check_pair(dec, enc);
    }

    // a run of 133 non-zero bytes closes with control byte 0xfe
    let mut long133: Vec<u8> = Vec::new();
    for i in 1..=0x85u8 {
        long133.push(i);
    }
    let mut long133_enc = long133.clone();
    long133_enc.push(0xfe);
    check_pair(&long133, &long133_enc);

    // a trailing zero after it is absorbed by the same control byte
    let mut long133z = long133.clone();
    long133z.push(0x00);
    check_pair(&long133z, &long133_enc);

    // a run of 134 non-zero bytes flushes with the sentinel 0xff
    let mut long134: Vec<u8> = Vec::new();
    for i in 1..=0x86u8 {
        long134.push(i);
    }
    let mut long134_enc = long134.clone();
    long134_enc.push(0xff);
    check_pair(&long134, &long134_enc);

    // a zero after the sentinel opens a fresh short run
    let mut long134z = long134.clone();
    long134z.push(0x00);
    let mut long134z_enc = long134_enc.clone();
    long134z_enc.push(0x7f);
    check_pair(&long134z, &long134z_enc);
}

#[test]
fn round_trip_many_lengths() {
    // messages of every length up to a few runs, mixing zeros and non-zeros
    for len in 0..=300usize {
        let m: Vec<u8> = (0..len).map(|i| (i % 5) as u8).collect();
        check_pair_free(&m);
        let nz: Vec<u8> = (0..len).map(|i| (i % 250 + 1) as u8).collect();
        check_pair_free(&nz);
    }
}

fn check_pair_free(dec: &[u8]) {
    let enc = encode(dec);
    let got = decode(&enc).unwrap();
    assert!(got.len() >= dec.len());
    assert_eq!(&got[..dec.len()], dec);
    assert!(got[dec.len()..].iter().all(|&x| x == 0));
}

#[test]
fn encoding_never_contains_zero() {
    let samples: &[&[u8]] = &[
        &[],
        &[0x00],
        &[0x00, 0x00, 0x00, 0x00, 0x00, 0x00, 0x00, 0x00],
        &[0x01, 0x00, 0x02, 0x00, 0x03, 0x00, 0x04, 0x00],
        &[0xff; 200],
    ];
    for m in samples {
        assert!(encode(m).iter().all(|&x| x != 0));
    }
}
