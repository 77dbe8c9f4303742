//! The device's descriptor table, looked up by the GET_DESCRIPTOR selector
//! (`wValue` in the low half, `wIndex` in the high half).
use vstd::prelude::*;

verus! {

/// Length of the mouse HID report descriptor that the configuration
/// descriptor announces.
pub const MOUSE_DESC_LEN: usize = 57;

/// Length of the keyboard HID report descriptor that the configuration
/// descriptor announces.
pub const KBD_DESC_LEN: usize = 69;

/// Longest string (in UTF-16 code units) whose descriptor length fits a byte.
pub const MAX_STRING_UNITS: usize = 126;

pub const SEL_DEVICE: u32 = 0x0000_0100;

pub const SEL_CONFIG: u32 = 0x0000_0200;

pub const SEL_MOUSE_REPORT: u32 = 0x0000_2200;

pub const SEL_KEYBOARD_REPORT: u32 = 0x0001_2200;

pub const SEL_LANGUAGES: u32 = 0x0000_0300;

pub const SEL_MANUFACTURER: u32 = 0x0409_0301;

pub const SEL_PRODUCT: u32 = 0x0409_0302;

pub const SEL_SERIAL: u32 = 0x0409_0303;

/// The keyboard's input/output report: modifier keys, a reserved byte, the
/// LED output bits and six key codes.
pub struct KeyboardReport {
    pub modifier: u8,
    pub reserved: u8,
    pub leds: u8,
    pub keycodes: [u8; 6],
}

/// The device descriptor: USB 1.1, no class, 8-byte control endpoint,
/// three strings, one configuration.
pub open spec fn device_descriptor() -> Seq<u8> {
    seq![18u8, 1, 0x10, 0x01, 0, 0, 0, 0x08, 0x09, 0x12, 0x03, 0xc0, 0x02, 0x00, 1, 2, 3, 1]
}

/// The configuration descriptor of a composite device: a HID mouse
/// interface with interrupt endpoint 1 and a HID keyboard interface with
/// interrupt endpoint 2, both polled every 10 ms.
pub open spec fn config_descriptor() -> Seq<u8> {
    seq![
        9u8, 2, 0x3b, 0x00, 0x02, 0x01, 0x00, 0x80, 0x64,
        9, 4, 0, 0, 1, 0x03, 0x01, 0x02, 0,
        9, 0x21, 0x10, 0x01, 0x00, 0x01, 0x22, MOUSE_DESC_LEN as u8, 0x00,
        7, 0x05, 0x81, 0x03, 0x04, 0x00, 10,
        9, 4, 1, 0, 1, 0x03, 0x01, 0x01, 0,
        9, 0x21, 0x10, 0x01, 0x00, 0x01, 0x22, KBD_DESC_LEN as u8, 0x00,
        7, 0x05, 0x82, 0x03, 0x08, 0x00, 10,
    ]
}

/// UTF-16 code units as little-endian bytes.
pub open spec fn utf16le(units: Seq<u16>) -> Seq<u8>
    decreases units.len(),
{
    if units.len() == 0 {
        seq![]
    } else {
        utf16le(units.drop_last()) + seq![
            (units.last() % 256) as u8,
            (units.last() / 256) as u8,
        ]
    }
}

/// A string descriptor: its length, type 3, the text in UTF-16LE.
pub open spec fn string_descriptor(units: Seq<u16>) -> Seq<u8> {
    seq![(2 * units.len() + 2) as u8, 3u8] + utf16le(units)
}

/// The language table: US English only.
pub open spec fn languages() -> Seq<u16> {
    seq![0x0409u16]
}

/// The text shown in place of the product name when the report descriptors
/// do not have the lengths that the configuration descriptor announces.
pub open spec fn error_text() -> Seq<u16> {
    seq![0x45u16, 0x52, 0x52]
}

pub struct TableModel {
    pub mouse_report: Seq<u8>,
    pub keyboard_report: Seq<u8>,
    pub manufacturer: Seq<u16>,
    pub product: Seq<u16>,
    pub serial: Seq<u16>,
}

pub open spec fn table_wf(t: TableModel) -> bool {
    &&& t.manufacturer.len() <= MAX_STRING_UNITS
    &&& t.product.len() <= MAX_STRING_UNITS
    &&& t.serial.len() <= MAX_STRING_UNITS
}

/// The report descriptors have the lengths that the configuration
/// descriptor announces.
pub open spec fn reports_consistent(t: TableModel) -> bool {
    t.mouse_report.len() == MOUSE_DESC_LEN && t.keyboard_report.len() == KBD_DESC_LEN
}

/// The descriptor that a selector names; empty for an unknown selector.
pub open spec fn lookup(t: TableModel, selector: u32) -> Seq<u8> {
    if selector == SEL_DEVICE {
        device_descriptor()
    } else if selector == SEL_CONFIG {
        config_descriptor()
    } else if selector == SEL_MOUSE_REPORT {
        t.mouse_report
    } else if selector == SEL_KEYBOARD_REPORT {
        t.keyboard_report
    } else if selector == SEL_LANGUAGES {
        string_descriptor(languages())
    } else if selector == SEL_MANUFACTURER {
        string_descriptor(t.manufacturer)
    } else if selector == SEL_PRODUCT {
        if reports_consistent(t) {
            string_descriptor(t.product)
        } else {
            string_descriptor(error_text())
        }
    } else if selector == SEL_SERIAL {
        string_descriptor(t.serial)
    } else {
        seq![]
    }
}

proof fn lemma_utf16le(units: Seq<u16>)
    ensures
        utf16le(units).len() == 2 * units.len(),
        forall|i: int|
            0 <= i < units.len() ==> #[trigger] utf16le(units)[2 * i] == (units[i] % 256) as u8
                && utf16le(units)[2 * i + 1] == (units[i] / 256) as u8,
    decreases units.len(),
{
    if units.len() > 0 {
        let pre = units.drop_last();
        lemma_utf16le(pre);
        assert forall|i: int| 0 <= i < units.len() implies #[trigger] utf16le(units)[2 * i] == (
        units[i] % 256) as u8 && utf16le(units)[2 * i + 1] == (units[i] / 256) as u8 by {
            if i < pre.len() {
                assert(utf16le(pre)[2 * i] == (pre[i] % 256) as u8);
            }
        }
    }
}

/// A string descriptor: its length byte is its length, type 3, then each
/// code unit low byte first.
pub proof fn lemma_string_descriptor(units: Seq<u16>)
    requires
        units.len() <= MAX_STRING_UNITS,
    ensures
        string_descriptor(units).len() == 2 * units.len() + 2,
        string_descriptor(units)[0] == 2 * units.len() + 2,
        string_descriptor(units)[1] == 3,
        forall|i: int|
            0 <= i < units.len() ==> #[trigger] string_descriptor(units)[2 * i + 2] == (units[i]
                % 256) as u8 && string_descriptor(units)[2 * i + 3] == (units[i] / 256) as u8,
{
    lemma_utf16le(units);
    let d = string_descriptor(units);
    assert forall|i: int| 0 <= i < units.len() implies #[trigger] d[2 * i + 2] == (units[i]
        % 256) as u8 && d[2 * i + 3] == (units[i] / 256) as u8 by {
        assert(d[2 * i + 2] == utf16le(units)[2 * i]);
        assert(d[2 * i + 3] == utf16le(units)[2 * i + 1]);
    }
}

/// The product selector gives the product string when the report
/// descriptors have the announced lengths, and the three-letter error
/// string otherwise.
pub proof fn lemma_product_lookup(t: TableModel)
    requires
        table_wf(t),
    ensures
        reports_consistent(t) ==> lookup(t, SEL_PRODUCT) == string_descriptor(t.product),
        !reports_consistent(t) ==> lookup(t, SEL_PRODUCT) == seq![8u8, 3, 0x45, 0, 0x52, 0, 0x52, 0],
        lookup(t, SEL_PRODUCT).len() <= 2 * MAX_STRING_UNITS + 2,
{
    lemma_string_descriptor(t.product);
    lemma_string_descriptor(error_text());
    let e = string_descriptor(error_text());
    let u = error_text();
    assert(u.drop_last() =~= seq![0x45u16, 0x52]);
    assert(u.drop_last().drop_last() =~= seq![0x45u16]);
    assert(u.drop_last().drop_last().drop_last() =~= Seq::<u16>::empty());
    reveal_with_fuel(utf16le, 4);
    assert(utf16le(u) =~= seq![0x45u8, 0, 0x52, 0, 0x52, 0]);
    assert(e =~= seq![8u8, 3, 0x45, 0, 0x52, 0, 0x52, 0]);
}

/// The descriptors that are the application's: the HID report descriptors
/// and the manufacturer, product and serial strings.
pub struct DescriptorTable {
    mouse_report: Vec<u8>,
    keyboard_report: Vec<u8>,
    manufacturer: Vec<u16>,
    product: Vec<u16>,
    serial: Vec<u16>,
}

impl View for DescriptorTable {
    type V = TableModel;

    closed spec fn view(&self) -> TableModel {
        TableModel {
            mouse_report: self.mouse_report@,
            keyboard_report: self.keyboard_report@,
            manufacturer: self.manufacturer@,
            product: self.product@,
            serial: self.serial@,
        }
    }
}

impl DescriptorTable {
    pub fn new(
        mouse_report: &[u8],
        keyboard_report: &[u8],
        manufacturer: &[u16],
        product: &[u16],
        serial: &[u16],
    ) -> (r: DescriptorTable)
        requires
            manufacturer@.len() <= MAX_STRING_UNITS,
            product@.len() <= MAX_STRING_UNITS,
            serial@.len() <= MAX_STRING_UNITS,
        ensures
            r@ == (TableModel {
                mouse_report: mouse_report@,
                keyboard_report: keyboard_report@,
                manufacturer: manufacturer@,
                product: product@,
                serial: serial@,
            }),
            table_wf(r@),
    {
        DescriptorTable {
            mouse_report: vstd::slice::slice_to_vec(mouse_report),
            keyboard_report: vstd::slice::slice_to_vec(keyboard_report),
            manufacturer: vstd::slice::slice_to_vec(manufacturer),
            product: vstd::slice::slice_to_vec(product),
            serial: vstd::slice::slice_to_vec(serial),
        }
    }
}

/// A string descriptor for `s`.
pub fn make_string(s: &[u16]) -> (r: Vec<u8>)
    requires
        s@.len() <= MAX_STRING_UNITS,
    ensures
        r@ == string_descriptor(s@),
{
    let mut out: Vec<u8> = Vec::new();
    out.push((2 * s.len() + 2) as u8);
    out.push(3);
    let mut i: usize = 0;
    while i < s.len()
        invariant
            i <= s@.len(),
            s@.len() <= MAX_STRING_UNITS,
            out@ == seq![(2 * s@.len() + 2) as u8, 3u8] + utf16le(s@.subrange(0, i as int)),
        decreases s@.len() - i,
    {
        let u = s[i];
        proof {
            assert(s@.subrange(0, i + 1).drop_last() =~= s@.subrange(0, i as int));
        }
        out.push((u % 256) as u8);
        out.push((u / 256) as u8);
        i = i + 1;
        assert(out@ =~= seq![(2 * s@.len() + 2) as u8, 3u8] + utf16le(s@.subrange(0, i as int)));
    }
    assert(s@.subrange(0, s@.len() as int) =~= s@);
    out
}

/// The descriptor that `w_value` selects, as `lookup` says; empty when
/// nothing is known by that selector.
pub fn get_descriptor_info(table: &DescriptorTable, w_value: u32) -> (r: Vec<u8>)
    requires
        table_wf(table@),
    ensures
        r@ == lookup(table@, w_value),
{
    if w_value == SEL_DEVICE {
        let r = vec![18u8, 1, 0x10, 0x01, 0, 0, 0, 0x08, 0x09, 0x12, 0x03, 0xc0, 0x02, 0x00, 1, 2, 3, 1];
        assert(r@ =~= device_descriptor());
        r
    } else if w_value == SEL_CONFIG {
        let r = vec![
            9u8, 2, 0x3b, 0x00, 0x02, 0x01, 0x00, 0x80, 0x64,
            9, 4, 0, 0, 1, 0x03, 0x01, 0x02, 0,
            9, 0x21, 0x10, 0x01, 0x00, 0x01, 0x22, MOUSE_DESC_LEN as u8, 0x00,
            7, 0x05, 0x81, 0x03, 0x04, 0x00, 10,
            9, 4, 1, 0, 1, 0x03, 0x01, 0x01, 0,
            9, 0x21, 0x10, 0x01, 0x00, 0x01, 0x22, KBD_DESC_LEN as u8, 0x00,
            7, 0x05, 0x82, 0x03, 0x08, 0x00, 10,
        ];
        assert(r@ =~= config_descriptor());
        r
    } else if w_value == SEL_MOUSE_REPORT {
        vstd::slice::slice_to_vec(table.mouse_report.as_slice())
    } else if w_value == SEL_KEYBOARD_REPORT {
        vstd::slice::slice_to_vec(table.keyboard_report.as_slice())
    } else if w_value == SEL_LANGUAGES {
        let lang: [u16; 1] = [0x0409];
        assert(lang@ =~= languages());
        make_string(&lang)
    } else if w_value == SEL_MANUFACTURER {
        make_string(table.manufacturer.as_slice())
    } else if w_value == SEL_PRODUCT {
        if table.mouse_report.len() != MOUSE_DESC_LEN || table.keyboard_report.len() != KBD_DESC_LEN {
            let err: [u16; 3] = [0x45, 0x52, 0x52];
            assert(err@ =~= error_text());
            make_string(&err)
        } else {
            make_string(table.product.as_slice())
        }
    } else if w_value == SEL_SERIAL {
        make_string(table.serial.as_slice())
    } else {
        Vec::new()
    }
}

} // verus!
