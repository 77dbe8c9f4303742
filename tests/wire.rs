use softusb::line::Line;
use softusb::rx::receive;
use softusb::tx::{usb_send_data, usb_send_empty, Checksum};

#[test]
fn transmit_then_receive_data_packet() {
    let payload = [1u8, 2, 3, 4, 5, 6, 7, 8];
    let wire = usb_send_data(&payload, Checksum::Crc16, 0xc3);
    let mut expected = vec![0xc3u8];
    expected.extend_from_slice(&payload);
    expected.extend_from_slice(&softusb::crc::crc16_checksum(&payload));
    assert_eq!(receive(&wire), Some(expected));
}

#[test]
fn transmit_then_receive_with_stuffing() {
    let payload = [0xffu8, 0xff, 0x3f, 0x7e];
    let wire = usb_send_data(&payload, Checksum::Plain, 0x4b);
    assert_eq!(receive(&wire), Some(vec![0x4b, 0xff, 0xff, 0x3f, 0x7e]));
    // 32 payload bits plus 8 PID bits, with stuffed zeros in between.
    assert!(wire.len() > 8 + 40 + 3);
}

#[test]
fn handshake_is_sync_pid_and_end_of_packet() {
    let wire = usb_send_data(&[], Checksum::Plain, 0xd2);
    assert_eq!(wire.len(), 8 + 8 + 3);
    assert_eq!(&wire[..8], &[Line::K, Line::J, Line::K, Line::J, Line::K, Line::J, Line::K, Line::K]);
    assert_eq!(&wire[16..], &[Line::Se0, Line::Se0, Line::J]);
    assert_eq!(receive(&wire), Some(vec![0xd2]));
}

#[test]
fn empty_send_is_two_zero_bytes() {
    assert_eq!(usb_send_empty(0x4b), usb_send_data(&[0, 0], Checksum::Plain, 0x4b));
    assert_eq!(usb_send_empty(0x4b), usb_send_data(&[], Checksum::Crc16, 0x4b));
    assert_eq!(receive(&usb_send_empty(0x4b)), Some(vec![0x4b, 0, 0]));
}

#[test]
fn receive_rejects_bad_sync() {
    let mut wire = usb_send_data(&[], Checksum::Plain, 0xd2);
    wire[3] = wire[2];
    assert_eq!(receive(&wire), None);
}

#[test]
fn receive_rejects_missing_end_of_packet() {
    let wire = usb_send_data(&[0x12], Checksum::Plain, 0xc3);
    let cut: Vec<Line> = wire[..wire.len() - 3].to_vec();
    assert_eq!(receive(&cut), None);
}

#[test]
fn receive_rejects_partial_byte() {
    let wire = usb_send_data(&[0x00], Checksum::Plain, 0xc3);
    let mut cut: Vec<Line> = wire[..wire.len() - 6].to_vec();
    cut.push(Line::Se0);
    assert_eq!(receive(&cut), None);
}

#[test]
fn receive_rejects_stuffing_violation() {
    // sync, then seven bit times without a transition: seven ones.
    let mut wire = vec![Line::K, Line::J, Line::K, Line::J, Line::K, Line::J, Line::K, Line::K];
    wire.extend_from_slice(&[Line::K; 7]);
    wire.push(Line::J);
    wire.push(Line::Se0);
    assert_eq!(receive(&wire), None);
}

#[test]
fn receive_rejects_overlong_packet() {
    let wire = usb_send_data(&[0u8; 12], Checksum::Plain, 0xc3);
    assert_eq!(receive(&wire), None);
    let wire = usb_send_data(&[0u8; 11], Checksum::Plain, 0xc3);
    assert_eq!(receive(&wire).map(|p| p.len()), Some(12));
}

#[test]
fn receive_rejects_early_single_ended_zero() {
    let mut wire = usb_send_data(&[], Checksum::Plain, 0xd2);
    wire[4] = Line::Se0;
    assert_eq!(receive(&wire), None);
}
