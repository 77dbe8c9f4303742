use softusb::crc::crc16_checksum;
use softusb::demo::DemoReports;
use softusb::descriptors::{get_descriptor_info, DescriptorTable, KBD_DESC_LEN, MOUSE_DESC_LEN};
use softusb::line::Line;
use softusb::tx::{usb_send_data, Checksum};
use softusb::usb::{Action, UsbEndpoint, UsbIf, PID_ACK, PID_DATA0, PID_DATA1, PID_IN, PID_OUT, PID_SETUP};

fn utf16(s: &str) -> Vec<u16> {
    s.encode_utf16().collect()
}

fn device_with(mouse_len: usize) -> UsbIf<3> {
    UsbIf::<3>::new(DescriptorTable::new(
        &vec![0x05; mouse_len],
        &vec![0x05; KBD_DESC_LEN],
        &utf16("CNLohr"),
        &utf16("RV003USB"),
        &utf16("000"),
    ))
}

fn device() -> UsbIf<3> {
    device_with(MOUSE_DESC_LEN)
}

/// The two bytes after a token's PID: address, endpoint and a sound CRC5.
fn token_bytes(addr: u8, endp: u8) -> (u8, u8) {
    for crc5 in 0u16..32 {
        let w = addr as u16 | (endp as u16) << 7 | crc5 << 11;
        if softusb::crc::check_token_crc(w as u8, (w >> 8) as u8) {
            return (w as u8, (w >> 8) as u8);
        }
    }
    panic!("no CRC5 found");
}

fn token(dev: &mut UsbIf<3>, pid: u8, addr: u8, endp: u8) -> Action {
    let (b1, b2) = token_bytes(addr, endp);
    dev.usb_interrupt_handler(&usb_send_data(&[b1, b2], Checksum::Plain, pid), 0, 0)
}

fn data(dev: &mut UsbIf<3>, pid: u8, payload: &[u8]) -> Action {
    dev.usb_interrupt_handler(&usb_send_data(payload, Checksum::Crc16, pid), 0, 0)
}

fn ack(dev: &mut UsbIf<3>) -> Action {
    dev.usb_interrupt_handler(&usb_send_data(&[], Checksum::Plain, PID_ACK), 0, 0)
}

fn handshake() -> Action {
    Action::Send { pid: PID_ACK, data: vec![], checksum: Checksum::Plain }
}

fn empty(pid: u8) -> Action {
    Action::Send { pid, data: vec![0, 0], checksum: Checksum::Plain }
}

fn chunk(pid: u8, bytes: &[u8]) -> Action {
    Action::Send { pid, data: bytes.to_vec(), checksum: Checksum::Crc16 }
}

fn setup(dev: &mut UsbIf<3>, addr: u8, urb: [u8; 8]) {
    assert_eq!(token(dev, PID_SETUP, addr, 0), Action::Idle);
    assert_eq!(data(dev, PID_DATA0, &urb), handshake());
}

#[test]
fn get_product_string_end_to_end() {
    let mut dev = device();
    setup(&mut dev, 0, [0x80, 0x06, 0x02, 0x03, 0x09, 0x04, 0xff, 0x00]);
    let product = get_descriptor_info(
        &DescriptorTable::new(&[0; 57], &[0; 69], &[], &utf16("RV003USB"), &[]),
        0x0409_0302,
    );
    assert_eq!(product.len(), 18);
    assert_eq!(token(&mut dev, PID_IN, 0, 0), chunk(PID_DATA1, &product[0..8]));
    assert_eq!(ack(&mut dev), Action::Idle);
    assert_eq!(token(&mut dev, PID_IN, 0, 0), chunk(PID_DATA0, &product[8..16]));
    assert_eq!(ack(&mut dev), Action::Idle);
    assert_eq!(token(&mut dev, PID_IN, 0, 0), chunk(PID_DATA1, &product[16..18]));
    assert_eq!(ack(&mut dev), Action::Idle);
    assert_eq!(token(&mut dev, PID_IN, 0, 0), empty(PID_DATA0));
}

#[test]
fn get_product_string_reports_err_on_bad_report_length() {
    let mut dev = device_with(56);
    setup(&mut dev, 0, [0x80, 0x06, 0x02, 0x03, 0x09, 0x04, 0xff, 0x00]);
    assert_eq!(
        token(&mut dev, PID_IN, 0, 0),
        chunk(PID_DATA1, &[8, 3, b'E', 0, b'R', 0, b'R', 0])
    );
    assert_eq!(ack(&mut dev), Action::Idle);
    assert_eq!(token(&mut dev, PID_IN, 0, 0), empty(PID_DATA0));
}

#[test]
fn device_descriptor_arms_eighteen_bytes() {
    for w_length in [18u8, 64, 255] {
        let mut dev = device();
        setup(&mut dev, 0, [0x80, 0x06, 0x00, 0x01, 0x00, 0x00, w_length, 0x00]);
        let mut total = 0;
        loop {
            match token(&mut dev, PID_IN, 0, 0) {
                Action::Send { data, checksum: Checksum::Crc16, .. } => {
                    assert!(data.len() <= 8);
                    total += data.len();
                }
                Action::Send { data, checksum: Checksum::Plain, .. } => {
                    assert_eq!(data, vec![0, 0]);
                    break;
                }
                other => panic!("unexpected {:?}", other),
            }
            ack(&mut dev);
        }
        assert_eq!(total, 18);
    }
}

#[test]
fn short_w_length_truncates() {
    let mut dev = device();
    setup(&mut dev, 0, [0x80, 0x06, 0x00, 0x01, 0x00, 0x00, 4, 0x00]);
    assert_eq!(token(&mut dev, PID_IN, 0, 0), chunk(PID_DATA1, &[18, 1, 0x10, 0x01]));
    ack(&mut dev);
    assert_eq!(token(&mut dev, PID_IN, 0, 0), empty(PID_DATA0));
}

#[test]
fn unknown_request_answers_empty() {
    let mut dev = device();
    setup(&mut dev, 0, [0x80, 0x00, 0x00, 0x00, 0x00, 0x00, 2, 0x00]);
    assert_eq!(token(&mut dev, PID_IN, 0, 0), empty(PID_DATA1));
}

#[test]
fn set_address_filters_tokens() {
    let mut dev = device();
    setup(&mut dev, 0, [0x00, 0x05, 0x05, 0x00, 0x00, 0x00, 0x00, 0x00]);
    assert_eq!(token(&mut dev, PID_IN, 0, 0), empty(PID_DATA1));
    ack(&mut dev);
    // A token for the new address is taken: it answers from the transfer
    // state (exhausted, so a zero-length packet).
    assert_eq!(token(&mut dev, PID_IN, 5, 0), empty(PID_DATA0));
    // A token for another address is ignored.
    assert_eq!(token(&mut dev, PID_IN, 9, 0), Action::Idle);
    assert_eq!(token(&mut dev, PID_IN, 9, 1), Action::Idle);
    // Address 0 is still taken (the status stage of SET_ADDRESS runs there).
    assert_eq!(token(&mut dev, PID_IN, 0, 0), empty(PID_DATA0));
    // With the new address, a full transfer works.
    setup(&mut dev, 5, [0x80, 0x06, 0x00, 0x01, 0x00, 0x00, 0x12, 0x00]);
    assert_eq!(token(&mut dev, PID_IN, 5, 0), chunk(PID_DATA1, &[18, 1, 0x10, 0x01, 0, 0, 0, 8]));
}

#[test]
fn replayed_data_is_acknowledged_without_effect() {
    let mut dev = device();
    let urb = [0x80, 0x06, 0x00, 0x01, 0x00, 0x00, 0x12, 0x00];
    setup(&mut dev, 0, urb);
    assert_eq!(token(&mut dev, PID_IN, 0, 0), chunk(PID_DATA1, &[18, 1, 0x10, 0x01, 0, 0, 0, 8]));
    ack(&mut dev);
    // The same DATA0 again: acknowledged, the transfer is not re-armed.
    assert_eq!(data(&mut dev, PID_DATA0, &urb), handshake());
    assert_eq!(data(&mut dev, PID_DATA0, &urb), handshake());
    assert_eq!(
        token(&mut dev, PID_IN, 0, 0),
        chunk(PID_DATA0, &[0x09, 0x12, 0x03, 0xc0, 0x02, 0x00, 1, 2])
    );
}

#[test]
fn corrupted_data_is_not_acknowledged() {
    let mut dev = device();
    assert_eq!(token(&mut dev, PID_SETUP, 0, 0), Action::Idle);
    let urb = [0x80u8, 0x06, 0x00, 0x01, 0x00, 0x00, 0x12, 0x00];
    let mut body = urb.to_vec();
    body.extend_from_slice(&crc16_checksum(&urb));
    body[3] ^= 0x10;
    let wire = usb_send_data(&body, Checksum::Plain, PID_DATA0);
    assert_eq!(dev.usb_interrupt_handler(&wire, 0, 0), Action::Idle);
    // The uncorrupted packet is still expected.
    assert_eq!(data(&mut dev, PID_DATA0, &urb), handshake());
}

#[test]
fn corrupted_token_is_dropped() {
    let mut dev = device();
    let (b1, b2) = token_bytes(0, 0);
    let wire = usb_send_data(&[b1 ^ 0x02, b2], Checksum::Plain, PID_IN);
    assert_eq!(dev.usb_interrupt_handler(&wire, 0, 0), Action::Idle);
}

#[test]
fn endpoint_out_of_range_is_ignored() {
    let mut dev = device();
    assert_eq!(token(&mut dev, PID_IN, 0, 3), Action::Idle);
    assert_eq!(token(&mut dev, PID_IN, 0, 15), Action::Idle);
}

#[test]
fn application_endpoints_go_to_the_application() {
    let mut dev = device();
    assert_eq!(token(&mut dev, PID_IN, 0, 1), Action::UserIn { endpoint: 1, pid: PID_DATA0 });
    assert_eq!(ack(&mut dev), Action::Idle);
    assert_eq!(token(&mut dev, PID_IN, 0, 1), Action::UserIn { endpoint: 1, pid: PID_DATA1 });
    assert_eq!(token(&mut dev, PID_IN, 0, 2), Action::UserIn { endpoint: 2, pid: PID_DATA0 });
}

#[test]
fn bootloader_latch_arms_in_two_stages() {
    let mut dev = device();
    setup(&mut dev, 0, [0x21, 0x09, 0xfd, 0x03, 0x00, 0x00, 0x08, 0x00]);
    assert_eq!(token(&mut dev, PID_OUT, 0, 0), Action::Idle);
    assert_eq!(data(&mut dev, PID_DATA1, &[0xfd, 0x12, 0x34, 0xaa, 0xbb, 0xcc, 0xdd, 0x00]), handshake());
    assert_eq!(token(&mut dev, PID_IN, 0, 0), Action::Bootloader { pid: PID_DATA1 });
}

#[test]
fn bootloader_latch_resets_on_unrelated_out() {
    let mut dev = device();
    setup(&mut dev, 0, [0x21, 0x09, 0xfd, 0x03, 0x00, 0x00, 0x08, 0x00]);
    assert_eq!(token(&mut dev, PID_OUT, 0, 0), Action::Idle);
    assert_eq!(data(&mut dev, PID_DATA1, &[1, 2, 3, 4, 5, 6, 7, 8]), handshake());
    assert_eq!(token(&mut dev, PID_OUT, 0, 0), Action::Idle);
    assert_eq!(data(&mut dev, PID_DATA0, &[0xfd, 0x12, 0x34, 0xaa, 0xbb, 0xcc, 0xdd, 0x00]), handshake());
    assert_eq!(token(&mut dev, PID_IN, 0, 0), empty(PID_DATA1));
}

#[test]
fn bootloader_cookie_alone_does_nothing() {
    let mut dev = device();
    assert_eq!(token(&mut dev, PID_OUT, 0, 0), Action::Idle);
    assert_eq!(data(&mut dev, PID_DATA0, &[0xfd, 0x12, 0x34, 0xaa, 0xbb, 0xcc, 0xdd, 0x00]), handshake());
    assert_eq!(token(&mut dev, PID_IN, 0, 0), empty(PID_DATA0));
}

#[test]
fn wrong_feature_value_does_not_arm() {
    let mut dev = device();
    setup(&mut dev, 0, [0x21, 0x09, 0xfe, 0x03, 0x00, 0x00, 0x08, 0x00]);
    assert_eq!(token(&mut dev, PID_OUT, 0, 0), Action::Idle);
    assert_eq!(data(&mut dev, PID_DATA1, &[0xfd, 0x12, 0x34, 0xaa, 0xbb, 0xcc, 0xdd, 0x00]), handshake());
    assert_eq!(token(&mut dev, PID_IN, 0, 0), empty(PID_DATA1));
}

#[test]
fn keepalive_trims_the_oscillator() {
    let mut dev = device();
    let se0 = [Line::Se0, Line::Se0];
    assert_eq!(dev.usb_interrupt_handler(&se0, 48_000, 16 << 3), Action::Idle);
    // 600 cycles slow: one trim step down, from 16 to 15.
    assert_eq!(
        dev.usb_interrupt_handler(&se0, 96_600, (16 << 3) | 0x1),
        Action::Trim { rcc_ctlr: (15 << 3) | 0x1 }
    );
    // 88 cycles of windup remain; 400 more make no step yet.
    assert_eq!(dev.usb_interrupt_handler(&se0, 145_000, 15 << 3), Action::Idle);
    // Out of the band: ignored.
    assert_eq!(dev.usb_interrupt_handler(&se0, 245_000, 15 << 3), Action::Idle);
    // 48 000 - 600 = 47 400 cycles: windup 488 - 600 = -112, no step.
    assert_eq!(dev.usb_interrupt_handler(&se0, 292_400, 15 << 3), Action::Idle);
}

#[test]
fn keepalive_step_is_clamped_to_trim_field() {
    let mut dev = device();
    let se0 = [Line::Se0];
    assert_eq!(dev.handle_se0_keepalive(48_000, 0), Action::Idle);
    // 3 500 cycles fast: six steps up from 31, held at 31.
    assert_eq!(dev.handle_se0_keepalive(92_500, 0xffff_ffff), Action::Trim { rcc_ctlr: 0xffff_ffff });
    // 3 500 cycles slow, with 428 cycles of windup left: six steps down from 0, held at 0.
    assert_eq!(dev.usb_interrupt_handler(&se0, 144_000, 0), Action::Trim { rcc_ctlr: 0 });
    // Other bits of the register are kept.
    assert_eq!(dev.handle_se0_keepalive(144_000 + 51_500, 0x8000_0000 | (10 << 3)), Action::Trim {
        rcc_ctlr: 0x8000_0000 | (4 << 3),
    });
}

#[test]
fn keepalive_counter_wraps() {
    let mut dev = device();
    dev.handle_se0_keepalive(u32::MAX - 1000, 16 << 3);
    assert_eq!(dev.handle_se0_keepalive(47_000 + 600, 16 << 3), Action::Trim { rcc_ctlr: 15 << 3 });
}

#[test]
fn handle_packet_ignores_unknown_pid() {
    let mut dev = device();
    assert_eq!(dev.handle_packet(&[0x5a]), Action::Idle);
    assert_eq!(dev.handle_packet(&[]), Action::Idle);
}

#[test]
fn custom_control_endpoint_goes_to_the_application() {
    let mut dev = device();
    dev.set_custom(0, true);
    assert_eq!(token(&mut dev, PID_IN, 0, 0), Action::UserIn { endpoint: 0, pid: PID_DATA0 });
    dev.set_custom(0, false);
    assert_eq!(token(&mut dev, PID_IN, 0, 0), empty(PID_DATA0));
}

#[test]
fn endpoint_new_is_empty() {
    let _e = UsbEndpoint::new();
}

#[test]
fn demo_mouse_traces_a_square() {
    let mut demo = DemoReports::new();
    let mut moves = Vec::new();
    for _ in 0..16 {
        let r = demo.mouse_report();
        assert_eq!(r[0], 0);
        assert_eq!(r[3], 0);
        if r[1] != 0 || r[2] != 0 {
            moves.push((r[1], r[2]));
        }
    }
    assert_eq!(moves, vec![(0, 1), (0xff, 0), (0, 0xff), (1, 0)]);
}

#[test]
fn demo_keyboard_taps_b() {
    let mut demo = DemoReports::new();
    assert_eq!(demo.keyboard_report(), [0; 8]);
    assert_eq!(demo.keyboard_report(), [0, 0, 0, 0, 0x05, 0, 0, 0]);
    for _ in 0..127 {
        assert_eq!(demo.keyboard_report()[4], 0);
    }
    assert_eq!(demo.keyboard_report()[4], 0x05);
}

#[test]
fn se0_during_sync_is_the_keepalive() {
    let mut dev = device();
    // SE0 at the second sample, before the sync pattern completes.
    let samples = [Line::K, Line::Se0, Line::Se0, Line::J];
    assert_eq!(dev.usb_interrupt_handler(&samples, 48_000, 16 << 3), Action::Idle);
    // The measurement was taken: 48 600 cycles later one trim step follows.
    assert_eq!(dev.usb_interrupt_handler(&samples, 96_600, 16 << 3), Action::Trim { rcc_ctlr: 15 << 3 });
    // SE0 at the eighth sample still counts; the device state is untouched.
    let late = [Line::K, Line::J, Line::K, Line::J, Line::K, Line::J, Line::K, Line::Se0];
    assert_eq!(dev.usb_interrupt_handler(&late, 145_000, 15 << 3), Action::Idle);
    assert_eq!(token(&mut dev, PID_IN, 0, 0), empty(PID_DATA0));
}

#[test]
fn se0_after_sync_is_not_the_keepalive() {
    let mut dev = device();
    let mut samples = vec![Line::K, Line::J, Line::K, Line::J, Line::K, Line::J, Line::K, Line::K];
    samples.push(Line::Se0);
    // A sync with no packet behind it: nothing happens, no measurement.
    assert_eq!(dev.usb_interrupt_handler(&samples, 48_000, 16 << 3), Action::Idle);
    assert_eq!(dev.handle_se0_keepalive(48_000 + 48_600, 16 << 3), Action::Idle);
}

#[test]
fn bootloader_cookie_needs_its_last_byte() {
    let mut dev = device();
    setup(&mut dev, 0, [0x21, 0x09, 0xfd, 0x03, 0x00, 0x00, 0x08, 0x00]);
    assert_eq!(token(&mut dev, PID_OUT, 0, 0), Action::Idle);
    assert_eq!(data(&mut dev, PID_DATA1, &[0xfd, 0x12, 0x34, 0xaa, 0xbb, 0xcc, 0xdd, 0x55]), handshake());
    assert_eq!(token(&mut dev, PID_IN, 0, 0), empty(PID_DATA1));
}
