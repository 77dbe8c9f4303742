use softusb::bits::{bits_to_bytes, bytes_to_bits, stuff_bits, unstuff_bits};
use softusb::crc::{check_data_crc, check_token_crc, crc16_checksum};
use softusb::line::{nrzi_encode_bits, Line};

#[test]
fn crc16_catalogue_check_value() {
    assert_eq!(crc16_checksum(b"123456789"), [0xc8, 0xb4]);
}

#[test]
fn crc16_of_empty_payload_is_zero() {
    assert_eq!(crc16_checksum(&[]), [0x00, 0x00]);
}

#[test]
fn crc16_residual_accepts_sound_frame() {
    let mut frame = b"123456789".to_vec();
    frame.extend_from_slice(&crc16_checksum(b"123456789"));
    assert!(check_data_crc(&frame));
}

#[test]
fn crc16_rejects_every_single_bit_flip() {
    let payload = [0x80u8, 0x06, 0x00, 0x01, 0x00, 0x00, 0x40, 0x00];
    let mut frame = payload.to_vec();
    frame.extend_from_slice(&crc16_checksum(&payload));
    assert!(check_data_crc(&frame));
    for i in 0..frame.len() * 8 {
        let mut bad = frame.clone();
        bad[i / 8] ^= 1 << (i % 8);
        assert!(!check_data_crc(&bad), "bit {} not detected", i);
    }
}

#[test]
fn crc5_accepts_known_tokens() {
    assert!(check_token_crc(0x00, 0x10));
    assert!(check_token_crc(0x15, 0xef));
    assert!(check_token_crc(0x3a, 0x3d));
    assert!(!check_token_crc(0x00, 0x11));
}

#[test]
fn crc5_rejects_every_single_bit_flip() {
    for (b1, b2) in [(0x00u8, 0x10u8), (0x15, 0xef), (0x3a, 0x3d), (0x85, 0x60)] {
        assert!(check_token_crc(b1, b2));
        for i in 0..16 {
            let w = (b1 as u16 | (b2 as u16) << 8) ^ (1 << i);
            assert!(!check_token_crc(w as u8, (w >> 8) as u8), "bit {} not detected", i);
        }
    }
}

#[test]
fn bits_are_least_significant_first() {
    let bits = bytes_to_bits(&[0x01, 0x80]);
    let mut expected = vec![false; 16];
    expected[0] = true;
    expected[15] = true;
    assert_eq!(bits, expected);
    assert_eq!(bits_to_bytes(&bits), vec![0x01, 0x80]);
}

#[test]
fn stuffing_inserts_zero_after_six_ones() {
    let bits = vec![true; 7];
    let stuffed = stuff_bits(&bits);
    assert_eq!(stuffed, vec![true, true, true, true, true, true, false, true]);
    assert_eq!(unstuff_bits(&stuffed), Some(bits));
}

#[test]
fn stuffing_after_sixth_one_at_end() {
    let bits = vec![false, true, true, true, true, true, true];
    let stuffed = stuff_bits(&bits);
    assert_eq!(stuffed.len(), 8);
    assert_eq!(stuffed[7], false);
    assert_eq!(unstuff_bits(&stuffed), Some(bits));
}

#[test]
fn unstuffing_rejects_seventh_one() {
    assert_eq!(unstuff_bits(&vec![true; 7]), None);
}

#[test]
fn nrzi_zero_toggles_one_holds() {
    let coded = nrzi_encode_bits(Line::K, &vec![true, false, false, true]);
    assert_eq!(coded, vec![Line::K, Line::J, Line::K, Line::K]);
}
