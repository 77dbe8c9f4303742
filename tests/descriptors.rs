use softusb::descriptors::{
    get_descriptor_info, make_string, DescriptorTable, KBD_DESC_LEN, MOUSE_DESC_LEN,
};

fn utf16(s: &str) -> Vec<u16> {
    s.encode_utf16().collect()
}

fn table(mouse_len: usize, keyboard_len: usize) -> DescriptorTable {
    DescriptorTable::new(
        &vec![0x05; mouse_len],
        &vec![0x05; keyboard_len],
        &utf16("CNLohr"),
        &utf16("RV003USB"),
        &utf16("000"),
    )
}

#[test]
fn device_descriptor_is_eighteen_bytes() {
    let d = get_descriptor_info(&table(MOUSE_DESC_LEN, KBD_DESC_LEN), 0x0000_0100);
    assert_eq!(d.len(), 18);
    assert_eq!(&d[..2], &[18, 1]);
    assert_eq!(&d[8..12], &[0x09, 0x12, 0x03, 0xc0]);
}

#[test]
fn config_descriptor_announces_report_lengths() {
    let d = get_descriptor_info(&table(MOUSE_DESC_LEN, KBD_DESC_LEN), 0x0000_0200);
    assert_eq!(d.len(), 59);
    assert_eq!(d[2], 0x3b);
    assert_eq!(d[25], 57);
    assert_eq!(d[50], 69);
}

#[test]
fn report_descriptors_come_from_the_table() {
    let t = table(MOUSE_DESC_LEN, KBD_DESC_LEN);
    assert_eq!(get_descriptor_info(&t, 0x0000_2200).len(), 57);
    assert_eq!(get_descriptor_info(&t, 0x0001_2200).len(), 69);
}

#[test]
fn string_descriptors_are_utf16le() {
    let t = table(MOUSE_DESC_LEN, KBD_DESC_LEN);
    assert_eq!(get_descriptor_info(&t, 0x0000_0300), vec![4, 3, 0x09, 0x04]);
    assert_eq!(
        get_descriptor_info(&t, 0x0409_0301),
        vec![14, 3, b'C', 0, b'N', 0, b'L', 0, b'o', 0, b'h', 0, b'r', 0]
    );
    assert_eq!(get_descriptor_info(&t, 0x0409_0303), vec![8, 3, b'0', 0, b'0', 0, b'0', 0]);
    let product = get_descriptor_info(&t, 0x0409_0302);
    assert_eq!(product.len(), 18);
    assert_eq!(&product[..4], &[18, 3, b'R', 0]);
}

#[test]
fn product_string_becomes_err_on_length_mismatch() {
    let err = vec![8, 3, b'E', 0, b'R', 0, b'R', 0];
    assert_eq!(get_descriptor_info(&table(56, KBD_DESC_LEN), 0x0409_0302), err);
    assert_eq!(get_descriptor_info(&table(MOUSE_DESC_LEN, 70), 0x0409_0302), err);
}

#[test]
fn unknown_selector_is_empty() {
    let t = table(MOUSE_DESC_LEN, KBD_DESC_LEN);
    assert!(get_descriptor_info(&t, 0x0000_0400).is_empty());
    assert!(get_descriptor_info(&t, 0x0409_0304).is_empty());
}

#[test]
fn make_string_of_non_ascii_unit() {
    assert_eq!(make_string(&[0x20ac]), vec![4, 3, 0xac, 0x20]);
    assert_eq!(make_string(&[]), vec![2, 3]);
}
