use splitkb_core::codec::decode_scan;
use splitkb_core::codec::encode_scan;
use splitkb_core::crc8::crc8_range;
use splitkb_core::link::LinkReceiver;
use splitkb_core::scan::ScanSnapshot;
use splitkb_core::RX_BUF_LEN;
use splitkb_core::SCAN_LEN;
use splitkb_core::SOF;
use splitkb_core::TX_BUF_LEN;

fn empty_scan() -> ScanSnapshot {
    ScanSnapshot::new()
}

#[test]
fn test_encode() {
    let mut scan = empty_scan();
    assert_eq!(vec![128, 0, 0, 0, 0, 0], encode_scan(&scan));
    scan.set(0, 0, true);
    assert_eq!(vec![128, 0b001, 0b00, 0, 0, 143], encode_scan(&scan));
    scan.set(0, 1, true);
    assert_eq!(vec![128, 0b011, 0b00, 0, 0, 136], encode_scan(&scan));
    scan.set(0, 2, true);
    assert_eq!(vec![128, 0b111, 0b00, 0, 0, 134], encode_scan(&scan));
    scan.set(0, 6, true);
    assert_eq!(vec![128, 0b1000111, 0b00, 0, 0, 102], encode_scan(&scan));
    scan.set(1, 0, true);
    assert_eq!(vec![128, 0b1000111, 0b01, 0, 0, 205], encode_scan(&scan));
}

#[test]
fn test_decode() {}

#[test]
fn codec_test_encode() {
    let mut scan = empty_scan();
    assert_eq!(vec![128, 0, 0, 0, 0, 0], encode_scan(&scan));
    scan.set(0, 0, true);
    assert_eq!(vec![128, 0b001, 0b00, 0, 0, 143], encode_scan(&scan));
    scan.set(0, 1, true);
    assert_eq!(vec![128, 0b011, 0b00, 0, 0, 136], encode_scan(&scan));
    scan.set(0, 2, true);
    assert_eq!(vec![128, 0b111, 0b00, 0, 0, 134], encode_scan(&scan));
    scan.set(0, 6, true);
    assert_eq!(vec![128, 0b1000111, 0b00, 0, 0, 102], encode_scan(&scan));
    scan.set(1, 0, true);
    assert_eq!(vec![128, 0b1000111, 0b01, 0, 0, 205], encode_scan(&scan));
}

#[test]
fn codec_test_decode() {}

#[test]
fn round_trip_reproduces_snapshot() {
    let mut scan = empty_scan();
    scan.set(0, 3, true);
    scan.set(1, 6, true);
    scan.set(2, 0, true);
    scan.set(3, 5, true);
    let frame = encode_scan(&scan);
    assert_eq!(frame.len(), TX_BUF_LEN);
    assert_eq!(frame[0], SOF);
    let wire: Vec<u8> = frame[1..].to_vec();
    assert_eq!(wire.len(), RX_BUF_LEN);
    let decoded = decode_scan(&wire).expect("a clean frame decodes");
    for i in 0..SCAN_LEN {
        assert_eq!(decoded.get_flat(i), scan.get_flat(i));
    }
}

#[test]
fn crc8_known_values() {
    // The checksum of the all-zero payload is zero; a known payload has
    // its known checksum.
    let zero: Vec<u8> = vec![0, 0, 0, 0];
    assert_eq!(crc8_range(&zero, 0, 4), 0);
    let one: Vec<u8> = vec![0b001, 0, 0, 0];
    assert_eq!(crc8_range(&one, 0, 4), 143);
    let two: Vec<u8> = vec![0b1000111, 0b01, 0, 0];
    assert_eq!(crc8_range(&two, 0, 4), 205);
}

#[test]
fn payload_bytes_never_carry_the_marker_bit() {
    let mut scan = empty_scan();
    for i in 0..SCAN_LEN {
        scan.set(i / 7, i % 7, true);
    }
    let frame = encode_scan(&scan);
    for b in 1..TX_BUF_LEN - 1 {
        assert!(frame[b] < 128);
    }
    assert_eq!(frame[1], 0x7F);
}

#[test]
fn decode_rejects_wrong_length() {
    let short: Vec<u8> = vec![1, 2, 3];
    assert!(decode_scan(&short).is_none());
    let long: Vec<u8> = vec![0; 7];
    assert!(decode_scan(&long).is_none());
}

#[test]
fn decode_rejects_checksum_mismatch() {
    let mut scan = empty_scan();
    scan.set(2, 2, true);
    let frame = encode_scan(&scan);
    let mut wire: Vec<u8> = frame[1..].to_vec();
    wire[RX_BUF_LEN - 1] ^= 1;
    assert!(decode_scan(&wire).is_none());
}

#[test]
fn any_single_bit_flip_is_rejected() {
    let mut scan = empty_scan();
    scan.set(0, 0, true);
    scan.set(1, 2, true);
    scan.set(3, 6, true);
    let frame = encode_scan(&scan);
    let wire: Vec<u8> = frame[1..].to_vec();
    assert!(decode_scan(&wire).is_some());
    for p in 0..8 * RX_BUF_LEN {
        let mut bad = wire.clone();
        bad[p / 8] ^= 1 << (p % 8);
        assert!(
            decode_scan(&bad).is_none(),
            "bit {} slipped through the checksum",
            p
        );
    }
}

#[test]
fn receiver_assembles_a_frame() {
    let mut rx = LinkReceiver::new();
    let mut scan = empty_scan();
    scan.set(1, 1, true);
    let frame = encode_scan(&scan);
    let mut got = None;
    for &b in frame.iter() {
        if let Some(group) = rx.push_byte(b) {
            got = Some(group);
        }
    }
    let group = got.expect("five bytes after the marker complete a group");
    assert_eq!(&group[..], &frame[1..]);
    assert!(decode_scan(&group).is_some());
}

#[test]
fn marker_resynchronises_mid_frame() {
    // Noise, then a partial frame cut short by a fresh marker: the bytes
    // after that marker form the delivered group, whatever came before.
    let mut rx = LinkReceiver::new();
    for b in [0x01u8, 0x02, 0x03] {
        assert!(rx.push_byte(b).is_none());
    }
    assert!(rx.push_byte(SOF).is_none());
    let mut scan = empty_scan();
    scan.set(0, 4, true);
    let frame = encode_scan(&scan);
    // Two payload bytes of an interrupted frame...
    assert!(rx.push_byte(frame[1]).is_none());
    assert!(rx.push_byte(frame[2]).is_none());
    // ...then a new marker and a complete frame.
    let frames = rx.push_bytes(&frame);
    assert_eq!(frames.len(), 1);
    assert_eq!(&frames[0][..], &frame[1..]);
}

#[test]
fn corrupt_frame_dropped_next_frame_recovers() {
    let mut rx = LinkReceiver::new();
    let mut scan = empty_scan();
    scan.set(2, 5, true);
    let frame = encode_scan(&scan);
    let mut corrupted = frame.clone();
    corrupted[2] ^= 0x04;
    let mut decoded_count = 0;
    for group in rx.push_bytes(&corrupted) {
        if decode_scan(&group).is_some() {
            decoded_count += 1;
        }
    }
    assert_eq!(decoded_count, 0);
    for group in rx.push_bytes(&frame) {
        if decode_scan(&group).is_some() {
            decoded_count += 1;
        }
    }
    assert_eq!(decoded_count, 1);
}
