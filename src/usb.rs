//! The device-level protocol engine: per-endpoint toggles and buffered
//! transfers, the control-transfer state machine, token filtering, packet
//! dispatch and the clock-trim keepalive.
use vstd::prelude::*;
use crate::bits::{bits_of_bytes, lemma_bits_of_bytes_len, lemma_bits_round_trip};
use crate::crc::{
    check_data_crc, check_token_crc, corrupt, crc16_bytes, data_crc_ok, flip_bit,
    lemma_crc16_detects_bit_flip, lemma_crc16_residual, lemma_crc5_detects_bit_flip, token_crc_ok,
};
use crate::descriptors::{
    device_descriptor, get_descriptor_info, lemma_product_lookup, lookup, table_wf, DescriptorTable,
    TableModel, SEL_DEVICE, SEL_PRODUCT,
};
use crate::line::Line;
use crate::rx::{receive, receive_spec, se0_before_sync, se0_in_sync};
use crate::tx::{checksum_bytes, frame_bytes, Checksum};

verus! {

/// Largest payload of a packet on the control endpoint.
pub const ENDPOINT0_SIZE: u32 = 8;

pub const PID_OUT: u8 = 0xe1;

pub const PID_IN: u8 = 0x69;

pub const PID_SETUP: u8 = 0x2d;

pub const PID_DATA0: u8 = 0xc3;

pub const PID_DATA1: u8 = 0x4b;

pub const PID_ACK: u8 = 0xd2;

/// `bmRequestType` (low byte) and `bRequest` (high byte) of the requests
/// that the engine acts on; the recipient bit of the request type is ignored.
pub const REQ_SET_ADDRESS: u32 = 0x0500;

pub const REQ_GET_DESCRIPTOR: u32 = 0x0680;

pub const REQ_SET_FEATURE_REPORT: u32 = 0x0921;

/// `wValue` of the feature report that arms the bootloader latch.
pub const REBOOT_REQUEST_VALUE: u32 = 0x0000_03fd;

/// Nominal cycle count between two keepalives (1 ms at 48 MHz).
pub const KEEPALIVE_CYCLES: u32 = 48000;

/// Largest deviation from the nominal count that is taken as a measurement.
pub const KEEPALIVE_BAND: u32 = 4000;

/// Windup that makes one step of the oscillator trim.
pub const TRIM_STEP: i32 = 512;

/// Mask that keeps the bits of the clock control register outside the trim field.
pub const RCC_TRIM_KEEP: u32 = 0xffff_ff07;

/// One endpoint's state.
pub struct UsbEndpoint {
    count: u32,
    toggle_in: bool,
    toggle_out: bool,
    custom: bool,
    max_len: u32,
    opaque: Vec<u8>,
}

/// What an endpoint holds, in mathematical terms.
pub struct EndpointModel {
    /// Packets of the current buffered transfer that the host acknowledged.
    pub count: u32,
    /// DATA0/DATA1 toggle of the next packet sent to the host.
    pub toggle_in: bool,
    /// DATA0/DATA1 toggle expected of the next packet from the host.
    pub toggle_out: bool,
    /// IN tokens on this endpoint go to the application.
    pub custom: bool,
    /// Length of the current buffered transfer.
    pub max_len: u32,
    /// Source of the current buffered transfer.
    pub opaque: Seq<u8>,
}

impl View for UsbEndpoint {
    type V = EndpointModel;

    closed spec fn view(&self) -> EndpointModel {
        EndpointModel {
            count: self.count,
            toggle_in: self.toggle_in,
            toggle_out: self.toggle_out,
            custom: self.custom,
            max_len: self.max_len,
            opaque: self.opaque@,
        }
    }
}

pub open spec fn empty_endpoint() -> EndpointModel {
    EndpointModel {
        count: 0,
        toggle_in: false,
        toggle_out: false,
        custom: false,
        max_len: 0,
        opaque: seq![],
    }
}

impl UsbEndpoint {
    pub fn new() -> (r: UsbEndpoint)
        ensures
            r@ == empty_endpoint(),
    {
        UsbEndpoint {
            count: 0,
            toggle_in: false,
            toggle_out: false,
            custom: false,
            max_len: 0,
            opaque: Vec::new(),
        }
    }
}

/// What the engine asks of the code that drives the bus.
#[derive(Debug, PartialEq, Eq)]
pub enum Action {
    /// Nothing to send.
    Idle,
    /// Send a packet: `pid`, then `data`, then the checksum.
    Send { pid: u8, data: Vec<u8>, checksum: Checksum },
    /// Let the application answer an IN token on `endpoint` with a packet
    /// under `pid`.
    UserIn { endpoint: u32, pid: u8 },
    /// Send a zero-length packet under `pid`, then reset into the bootloader.
    Bootloader { pid: u8 },
    /// Write this value to the clock control register.
    Trim { rcc_ctlr: u32 },
}

pub enum ActionModel {
    Idle,
    Send { pid: u8, data: Seq<u8>, checksum: Checksum },
    UserIn { endpoint: u32, pid: u8 },
    Bootloader { pid: u8 },
    Trim { rcc_ctlr: u32 },
}

impl View for Action {
    type V = ActionModel;

    open spec fn view(&self) -> ActionModel {
        match self {
            Action::Idle => ActionModel::Idle,
            Action::Send { pid, data, checksum } => ActionModel::Send {
                pid: *pid,
                data: data@,
                checksum: *checksum,
            },
            Action::UserIn { endpoint, pid } => ActionModel::UserIn { endpoint: *endpoint, pid: *pid },
            Action::Bootloader { pid } => ActionModel::Bootloader { pid: *pid },
            Action::Trim { rcc_ctlr } => ActionModel::Trim { rcc_ctlr: *rcc_ctlr },
        }
    }
}

/// The device: one control endpoint and `EPS - 1` others.
pub struct UsbIf<const EPS: usize> {
    current_endpoint: u32,
    my_address: u32,
    setup_request: bool,
    reboot_armed: u8,
    last_se0_cyccount: u32,
    delta_se0_cyccount: u32,
    se0_windup: i32,
    descriptors: DescriptorTable,
    eps: Vec<UsbEndpoint>,
}

/// What the device holds, in mathematical terms.
pub struct DeviceModel {
    /// Endpoint of the last token accepted.
    pub current_endpoint: u32,
    /// Bus address given by SET_ADDRESS; 0 until then.
    pub my_address: u32,
    /// The next DATA0 on the control endpoint carries a setup request.
    pub setup_request: bool,
    /// Bootloader latch: 0 idle, 1 armed by the feature report, 2 armed by
    /// the magic payload.
    pub reboot_armed: u8,
    pub last_se0_cyccount: u32,
    pub delta_se0_cyccount: u32,
    pub se0_windup: i32,
    pub descriptors: TableModel,
    pub eps: Seq<EndpointModel>,
}

/// The invariant of the device state.
pub open spec fn device_wf(m: DeviceModel) -> bool {
    &&& m.eps.len() >= 1
    &&& m.current_endpoint < m.eps.len()
    &&& m.reboot_armed <= 2
    &&& -TRIM_STEP < m.se0_windup < TRIM_STEP
    &&& table_wf(m.descriptors)
    &&& forall|i: int| 0 <= i < m.eps.len() ==> #[trigger] m.eps[i].max_len <= m.eps[i].opaque.len()
}

/// The state of a device just built.
pub open spec fn initial_device(descriptors: TableModel, endpoints: nat) -> DeviceModel {
    DeviceModel {
        current_endpoint: 0,
        my_address: 0,
        setup_request: false,
        reboot_armed: 0,
        last_se0_cyccount: 0,
        delta_se0_cyccount: 0,
        se0_windup: 0,
        descriptors,
        eps: Seq::new(endpoints, |i: int| empty_endpoint()),
    }
}

pub open spec fn data_pid(toggle: bool) -> u8 {
    if toggle {
        PID_DATA1
    } else {
        PID_DATA0
    }
}

pub open spec fn ack_action() -> ActionModel {
    ActionModel::Send { pid: PID_ACK, data: seq![], checksum: Checksum::Plain }
}

/// A zero-length data packet.
pub open spec fn empty_action(pid: u8) -> ActionModel {
    ActionModel::Send { pid, data: seq![0u8, 0u8], checksum: Checksum::Plain }
}

/// The next piece of the control endpoint's buffered transfer: up to eight
/// bytes from offset `8 * count`; empty once the transfer is exhausted.
pub open spec fn ep0_chunk(e: EndpointModel) -> Seq<u8> {
    let offset = e.count as int * 8;
    if offset >= e.max_len {
        seq![]
    } else {
        let n = if e.max_len - offset > ENDPOINT0_SIZE {
            ENDPOINT0_SIZE as int
        } else {
            e.max_len - offset
        };
        e.opaque.subrange(offset, offset + n)
    }
}

/// OUT token: the endpoint becomes current.
pub open spec fn out_step(m: DeviceModel, endp: u32) -> DeviceModel {
    DeviceModel { current_endpoint: endp, ..m }
}

/// SETUP token: a new control transfer on `endp`; its buffered transfer is
/// cleared, the next packet to the host is DATA1, the next from it DATA0.
pub open spec fn setup_step(m: DeviceModel, endp: u32) -> DeviceModel {
    let e = m.eps[endp as int];
    let e1 = EndpointModel {
        toggle_in: true,
        toggle_out: false,
        count: 0,
        max_len: 0,
        opaque: seq![],
        ..e
    };
    DeviceModel {
        current_endpoint: endp,
        setup_request: true,
        eps: m.eps.update(endp as int, e1),
        ..m
    }
}

/// ACK from the host: the current endpoint's packet went through.
pub open spec fn ack_step(m: DeviceModel) -> DeviceModel {
    let i = m.current_endpoint as int;
    let e = m.eps[i];
    let e1 = EndpointModel {
        toggle_in: !e.toggle_in,
        count: if e.count == u32::MAX {
            e.count
        } else {
            (e.count + 1) as u32
        },
        ..e
    };
    DeviceModel { eps: m.eps.update(i, e1), ..m }
}

/// IN token: the bootloader fires on the control endpoint once fully armed;
/// application endpoints are handed to the application; otherwise the next
/// piece of the buffered transfer goes out, or a zero-length packet when it
/// is exhausted.
pub open spec fn in_step(m: DeviceModel, endp: u32) -> (DeviceModel, ActionModel) {
    let m1 = DeviceModel { current_endpoint: endp, ..m };
    let e = m.eps[endp as int];
    let pid = data_pid(e.toggle_in);
    if m.reboot_armed == 2 && endp == 0 {
        (m1, ActionModel::Bootloader { pid })
    } else if e.custom || endp != 0 {
        (m1, ActionModel::UserIn { endpoint: endp, pid })
    } else if ep0_chunk(e).len() == 0 {
        (m1, empty_action(pid))
    } else {
        (m1, ActionModel::Send { pid, data: ep0_chunk(e), checksum: Checksum::Crc16 })
    }
}

/// `bmRequestType` and `bRequest` of a setup request, as one number.
pub open spec fn request_of(p: Seq<u8>) -> int {
    p[0] as int + 256 * p[1] as int
}

/// The request is `code`, whatever its recipient bit.
pub open spec fn is_request(p: Seq<u8>, code: u32) -> bool {
    request_of(p) / 2 == code as int / 2
}

/// `wValue` and `wIndex` of a setup request: the descriptor selector.
pub open spec fn value_index_of(p: Seq<u8>) -> u32 {
    (p[2] as int + 256 * p[3] as int + 65536 * p[4] as int + 16777216 * p[5] as int) as u32
}

pub open spec fn value_of(p: Seq<u8>) -> u32 {
    (p[2] as int + 256 * p[3] as int) as u32
}

pub open spec fn length_of(p: Seq<u8>) -> u32 {
    (p[6] as int + 256 * p[7] as int) as u32
}

/// The payload that arms the second stage of the bootloader latch
/// (`fd 12 34 aa bb cc dd 00`).
pub open spec fn is_reboot_cookie(p: Seq<u8>) -> bool {
    &&& p.len() == 8
    &&& p[0] == 0xfd
    &&& p[1] == 0x12
    &&& p[2] == 0x34
    &&& p[3] == 0xaa
    &&& p[4] == 0xbb
    &&& p[5] == 0xcc
    &&& p[6] == 0xdd
    &&& p[7] == 0x00
}

/// A setup request on the control endpoint (the endpoint already toggled
/// as `e`): the buffered transfer is re-armed, then GET_DESCRIPTOR arms the
/// descriptor (cut to `wLength`), SET_ADDRESS takes the address, and the
/// feature report with the magic value arms the bootloader latch's first
/// stage. Any other request leaves the latch at 0.
pub open spec fn setup_request_step(m: DeviceModel, p: Seq<u8>) -> DeviceModel {
    let e = m.eps[0];
    let e2 = EndpointModel { count: 0, opaque: seq![], custom: false, max_len: 0, ..e };
    let m2 = DeviceModel { setup_request: false, reboot_armed: 0, eps: m.eps.update(0, e2), ..m };
    if p.len() != 8 {
        m2
    } else if is_request(p, REQ_SET_FEATURE_REPORT) {
        DeviceModel {
            reboot_armed: if value_index_of(p) == REBOOT_REQUEST_VALUE {
                1
            } else {
                0
            },
            ..m2
        }
    } else if is_request(p, REQ_GET_DESCRIPTOR) {
        let d = lookup(m.descriptors, value_index_of(p));
        let len = if (length_of(p) as int) < d.len() {
            length_of(p)
        } else {
            d.len() as u32
        };
        DeviceModel {
            eps: m.eps.update(0, EndpointModel { opaque: d, max_len: len, ..e2 }),
            ..m2
        }
    } else if is_request(p, REQ_SET_ADDRESS) {
        DeviceModel { my_address: value_of(p), ..m2 }
    } else {
        m2
    }
}

/// DATA0 (`which` false) or DATA1 (`which` true) with a sound checksum, on
/// the current endpoint. A toggle that is not the one expected marks a
/// packet already taken: it is acknowledged again and nothing changes.
/// Otherwise the toggle flips; on the control endpoint with a setup pending
/// the payload is a setup request; any other payload moves the bootloader
/// latch to its second stage if it is the magic cookie on the control
/// endpoint, and back to 0 otherwise. Every packet is acknowledged.
pub open spec fn data_step(m: DeviceModel, which: bool, payload: Seq<u8>) -> (
    DeviceModel,
    ActionModel,
) {
    let ep = m.current_endpoint as int;
    let e = m.eps[ep];
    if e.toggle_out != which {
        (m, ack_action())
    } else {
        let e1 = EndpointModel { toggle_out: !e.toggle_out, ..e };
        if ep == 0 && m.setup_request {
            (setup_request_step(DeviceModel { eps: m.eps.update(0, e1), ..m }, payload), ack_action())
        } else {
            let armed: u8 = if m.reboot_armed > 0 && ep == 0 && is_reboot_cookie(payload) {
                2
            } else {
                0
            };
            (DeviceModel { reboot_armed: armed, eps: m.eps.update(ep, e1), ..m }, ack_action())
        }
    }
}

/// Address field of a token (the 7 low bits after the PID).
pub open spec fn token_address(b1: u8) -> u32 {
    (b1 % 128) as u32
}

/// Endpoint field of a token (the 4 bits after the address).
pub open spec fn token_endpoint(b1: u8, b2: u8) -> u32 {
    (b1 / 128 + 2 * (b2 % 8)) as u32
}

/// A token is for this device unless it names another, nonzero address.
pub open spec fn address_accepted(m: DeviceModel, addr: u32) -> bool {
    addr == 0 || addr == m.my_address
}

/// One packet (PID first): ACK needs no checksum; data packets need a sound
/// CRC16 and tokens a sound CRC5, a known endpoint and an address that is
/// this device's or 0. Anything else is ignored.
pub open spec fn packet_step(m: DeviceModel, p: Seq<u8>) -> (DeviceModel, ActionModel) {
    if p.len() == 0 {
        (m, ActionModel::Idle)
    } else if p[0] == PID_ACK {
        (ack_step(m), ActionModel::Idle)
    } else if p[0] == PID_DATA0 || p[0] == PID_DATA1 {
        if p.len() >= 3 && data_crc_ok(p.subrange(1, p.len() as int)) {
            data_step(m, p[0] == PID_DATA1, p.subrange(1, p.len() - 2))
        } else {
            (m, ActionModel::Idle)
        }
    } else if p[0] == PID_OUT || p[0] == PID_IN || p[0] == PID_SETUP {
        if p.len() == 3 && token_crc_ok(p[1], p[2]) && token_endpoint(p[1], p[2]) < m.eps.len()
            && address_accepted(m, token_address(p[1])) {
            let endp = token_endpoint(p[1], p[2]);
            if p[0] == PID_OUT {
                (out_step(m, endp), ActionModel::Idle)
            } else if p[0] == PID_IN {
                in_step(m, endp)
            } else {
                (setup_step(m, endp), ActionModel::Idle)
            }
        } else {
            (m, ActionModel::Idle)
        }
    } else {
        (m, ActionModel::Idle)
    }
}

/// `a / b` rounded toward zero.
pub open spec fn div_toward_zero(a: int, b: int) -> int {
    if a >= 0 {
        a / b
    } else {
        -((-a) / b)
    }
}

/// The oscillator trim field (bits 3 to 7) of the clock control register.
pub open spec fn trim_of(rcc: u32) -> int {
    (rcc as int / 8) % 32
}

/// The clock control register with its trim field set to `t`.
pub open spec fn with_trim(rcc: u32, t: int) -> u32 {
    (rcc & RCC_TRIM_KEEP) | ((t as u32) << 3u32)
}

pub open spec fn clamp_trim(t: int) -> int {
    if t < 0 {
        0
    } else if t > 31 {
        31
    } else {
        t
    }
}

/// Single-ended zero on the idle bus (the keepalive, every millisecond):
/// the cycles since the last one are measured against the nominal count.
/// A measurement within the band adds its deviation to the windup; each
/// whole trim step of windup moves the oscillator trim against it, and the
/// windup keeps only the remainder.
pub open spec fn keepalive_step(m: DeviceModel, now: u32, rcc: u32) -> (DeviceModel, ActionModel) {
    let delta: u32 = if now >= m.last_se0_cyccount {
        (now - m.last_se0_cyccount) as u32
    } else {
        (now - m.last_se0_cyccount + 0x1_0000_0000) as u32
    };
    let m1 = DeviceModel { last_se0_cyccount: now, delta_se0_cyccount: delta, ..m };
    if delta < KEEPALIVE_CYCLES - KEEPALIVE_BAND || delta >= KEEPALIVE_CYCLES + KEEPALIVE_BAND {
        (m1, ActionModel::Idle)
    } else {
        let w = m.se0_windup + (delta - KEEPALIVE_CYCLES);
        let steps = div_toward_zero(w, TRIM_STEP as int);
        if steps == 0 {
            (DeviceModel { se0_windup: w as i32, ..m1 }, ActionModel::Idle)
        } else {
            (
                DeviceModel { se0_windup: (w - steps * TRIM_STEP) as i32, ..m1 },
                ActionModel::Trim { rcc_ctlr: with_trim(rcc, clamp_trim(trim_of(rcc) - steps)) },
            )
        }
    }
}

/// One interrupt: a single-ended zero before the sync pattern is complete
/// (within the first eight samples) means that no device is talking, and is
/// the keepalive; otherwise the samples are decoded into a packet and
/// dispatched. Undecodable samples are ignored.
pub open spec fn interrupt_step(m: DeviceModel, s: Seq<Line>, now: u32, rcc: u32) -> (
    DeviceModel,
    ActionModel,
) {
    if s.len() == 0 {
        (m, ActionModel::Idle)
    } else if se0_in_sync(s) {
        keepalive_step(m, now, rcc)
    } else {
        match receive_spec(s) {
            None => (m, ActionModel::Idle),
            Some(p) => packet_step(m, p),
        }
    }
}

/// The eight bytes of a setup request, multi-byte fields little-endian.
pub open spec fn setup_urb(request_type: u8, request: u8, value: u16, index: u16, length: u16) -> Seq<
    u8,
> {
    seq![
        request_type,
        request,
        (value % 256) as u8,
        (value / 256) as u8,
        (index % 256) as u8,
        (index / 256) as u8,
        (length % 256) as u8,
        (length / 256) as u8,
    ]
}

/// The bytes of a data packet carrying `payload`.
pub open spec fn data_packet(pid: u8, payload: Seq<u8>) -> Seq<u8> {
    frame_bytes(pid, payload, Checksum::Crc16)
}

/// A control transfer on endpoint 0 waits for its setup request, as after
/// a SETUP token.
pub open spec fn awaiting_setup(m: DeviceModel) -> bool {
    m.current_endpoint == 0 && m.setup_request && !m.eps[0].toggle_out
}

/// The payload that arms the bootloader latch's second stage.
pub open spec fn reboot_cookie() -> Seq<u8> {
    seq![0xfdu8, 0x12, 0x34, 0xaa, 0xbb, 0xcc, 0xdd, 0x00]
}

/// A data packet with its own CRC16 reaches the data handler.
pub proof fn lemma_data_packet(m: DeviceModel, pid: u8, payload: Seq<u8>)
    requires
        pid == PID_DATA0 || pid == PID_DATA1,
    ensures
        packet_step(m, data_packet(pid, payload)) == data_step(m, pid == PID_DATA1, payload),
{
    let p = data_packet(pid, payload);
    lemma_crc16_residual(payload);
    assert(p.subrange(1, p.len() as int) =~= payload + crc16_bytes(payload));
    assert(p.subrange(1, p.len() - 2) =~= payload);
}

/// A data packet whose payload or checksum has one bit corrupted is ignored.
pub proof fn lemma_corrupt_data_ignored(m: DeviceModel, pid: u8, payload: Seq<u8>, i: int)
    requires
        pid == PID_DATA0 || pid == PID_DATA1,
        0 <= i < 8 * (payload.len() + 2),
    ensures
        packet_step(m, seq![pid] + corrupt(payload + crc16_bytes(payload), i)) == (
        m, ActionModel::Idle),
{
    let frame = payload + crc16_bytes(payload);
    let body = corrupt(frame, i);
    let p = seq![pid] + body;
    lemma_crc16_detects_bit_flip(payload, i);
    lemma_bits_of_bytes_len(frame);
    lemma_bits_round_trip(flip_bit(bits_of_bytes(frame), i));
    lemma_bits_of_bytes_len(body);
    assert(p.subrange(1, p.len() as int) =~= body);
}

/// A token whose address, endpoint or checksum has one bit corrupted is
/// ignored.
pub proof fn lemma_corrupt_token_ignored(m: DeviceModel, pid: u8, b1: u8, b2: u8, i: int)
    requires
        token_crc_ok(b1, b2),
        pid == PID_OUT || pid == PID_IN || pid == PID_SETUP,
        0 <= i < 16,
    ensures
        packet_step(m, seq![pid] + corrupt(seq![b1, b2], i)) == (m, ActionModel::Idle),
{
    lemma_crc5_detects_bit_flip(b1, b2, i);
    let g = corrupt(seq![b1, b2], i);
    let p = seq![pid] + g;
    assert(p[1] == g[0] && p[2] == g[1]);
}

/// A data packet taken a second time (same PID, so the same toggle) is
/// acknowledged again and changes nothing.
pub proof fn lemma_data_replay(m: DeviceModel, pid: u8, payload: Seq<u8>)
    requires
        device_wf(m),
        pid == PID_DATA0 || pid == PID_DATA1,
    ensures
        packet_step(packet_step(m, data_packet(pid, payload)).0, data_packet(pid, payload)) == (
        packet_step(m, data_packet(pid, payload)).0, ack_action()),
{
    lemma_data_packet(m, pid, payload);
    lemma_data_packet(packet_step(m, data_packet(pid, payload)).0, pid, payload);
}

/// GET_DESCRIPTOR arms the endpoint-0 transfer with the descriptor that the
/// selector names, cut to the requested length.
pub proof fn lemma_get_descriptor_arms(m: DeviceModel, value: u16, index: u16, length: u16)
    requires
        device_wf(m),
        awaiting_setup(m),
    ensures
        ({
            let m1 = packet_step(m, data_packet(PID_DATA0, setup_urb(0x80, 0x06, value, index, length))).0;
            let d = lookup(m.descriptors, (value as int + 65536 * index as int) as u32);
            &&& m1.eps[0].opaque == d
            &&& m1.eps[0].count == 0
            &&& m1.eps[0].max_len == if (length as int) < d.len() {
                length as int
            } else {
                d.len() as int
            }
            &&& !m1.setup_request
        }),
{
    let p = setup_urb(0x80, 0x06, value, index, length);
    lemma_data_packet(m, PID_DATA0, p);
    assert(value_index_of(p) == (value as int + 65536 * index as int) as u32);
    assert(length_of(p) == length);
}

/// GET_DESCRIPTOR(DEVICE) with a requested length of at least 18 arms exactly
/// the 18 bytes of the device descriptor.
pub proof fn lemma_device_descriptor_request(m: DeviceModel, length: u16)
    requires
        device_wf(m),
        awaiting_setup(m),
        length >= 18,
    ensures
        packet_step(m, data_packet(PID_DATA0, setup_urb(0x80, 0x06, 0x0100, 0, length))).0.eps[0].max_len
            == 18,
        packet_step(m, data_packet(PID_DATA0, setup_urb(0x80, 0x06, 0x0100, 0, length))).0.eps[0].opaque
            == device_descriptor(),
{
    lemma_get_descriptor_arms(m, 0x0100, 0, length);
    assert((0x0100int + 65536 * 0int) as u32 == SEL_DEVICE);
}

/// GET_DESCRIPTOR(STRING, index 2, language 0x0409) with a requested length
/// of 255 arms the whole product string descriptor (the error string when the
/// report descriptors do not have the announced lengths); IN tokens then
/// drain it eight bytes at a time, from offset 0.
pub proof fn lemma_product_string_request(m: DeviceModel)
    requires
        device_wf(m),
        awaiting_setup(m),
    ensures
        ({
            let m1 = packet_step(m, data_packet(PID_DATA0, setup_urb(0x80, 0x06, 0x0302, 0x0409, 255))).0;
            let d = lookup(m.descriptors, SEL_PRODUCT);
            &&& m1.eps[0].opaque == d
            &&& m1.eps[0].max_len == d.len()
            &&& m1.eps[0].count == 0
            &&& ep0_chunk(m1.eps[0]) == d.subrange(0, if d.len() > 8 { 8int } else { d.len() as int })
        }),
{
    lemma_get_descriptor_arms(m, 0x0302, 0x0409, 255);
    assert((0x0302int + 65536 * 0x0409int) as u32 == SEL_PRODUCT);
    lemma_product_lookup(m.descriptors);
}

/// After SET_ADDRESS, tokens for the new address are taken and tokens for a
/// third, nonzero address are ignored.
pub proof fn lemma_set_address_filters_tokens(m: DeviceModel, addr: u8, pid: u8, b1: u8, b2: u8)
    requires
        device_wf(m),
        awaiting_setup(m),
        0 < addr < 128,
        pid == PID_OUT || pid == PID_IN || pid == PID_SETUP,
        token_crc_ok(b1, b2),
        token_endpoint(b1, b2) < m.eps.len(),
    ensures
        ({
            let m1 = packet_step(m, data_packet(PID_DATA0, setup_urb(0x00, 0x05, addr as u16, 0, 0))).0;
            &&& m1.my_address == addr
            &&& token_address(b1) == addr ==> packet_step(m1, seq![pid, b1, b2]).0.current_endpoint
                == token_endpoint(b1, b2)
            &&& token_address(b1) != 0 && token_address(b1) != addr ==> packet_step(
                m1,
                seq![pid, b1, b2],
            ) == (m1, ActionModel::Idle)
        }),
{
    let p = setup_urb(0x00, 0x05, addr as u16, 0, 0);
    lemma_data_packet(m, PID_DATA0, p);
    assert(value_of(p) == addr);
}

/// The feature report with the magic value arms the bootloader latch's first
/// stage.
pub proof fn lemma_reboot_first_stage(m: DeviceModel, length: u16)
    requires
        device_wf(m),
        awaiting_setup(m),
    ensures
        packet_step(m, data_packet(PID_DATA0, setup_urb(0x21, 0x09, 0x03fd, 0, length))).0.reboot_armed
            == 1,
{
    let p = setup_urb(0x21, 0x09, 0x03fd, 0, length);
    lemma_data_packet(m, PID_DATA0, p);
    assert(value_index_of(p) == REBOOT_REQUEST_VALUE);
}

/// With the first stage armed, the magic cookie on endpoint 0 arms the
/// second, and the next IN token on endpoint 0 enters the bootloader.
pub proof fn lemma_reboot_second_stage(m: DeviceModel)
    requires
        device_wf(m),
        m.reboot_armed == 1,
        m.current_endpoint == 0,
        !m.setup_request,
    ensures
        ({
            let m1 = packet_step(m, data_packet(data_pid(m.eps[0].toggle_out), reboot_cookie())).0;
            &&& m1.reboot_armed == 2
            &&& in_step(m1, 0).1 == ActionModel::Bootloader { pid: data_pid(m1.eps[0].toggle_in) }
        }),
{
    lemma_data_packet(m, data_pid(m.eps[0].toggle_out), reboot_cookie());
}

/// With the latch armed, any other data packet taken outside a setup stage
/// drops it back to 0.
pub proof fn lemma_reboot_disarm(m: DeviceModel, payload: Seq<u8>)
    requires
        device_wf(m),
        m.reboot_armed > 0,
        !(m.current_endpoint == 0 && m.setup_request),
        !(m.current_endpoint == 0 && is_reboot_cookie(payload)),
    ensures
        packet_step(
            m,
            data_packet(data_pid(m.eps[m.current_endpoint as int].toggle_out), payload),
        ).0.reboot_armed == 0,
{
    lemma_data_packet(m, data_pid(m.eps[m.current_endpoint as int].toggle_out), payload);
}

impl<const EPS: usize> View for UsbIf<EPS> {
    type V = DeviceModel;

    closed spec fn view(&self) -> DeviceModel {
        DeviceModel {
            current_endpoint: self.current_endpoint,
            my_address: self.my_address,
            setup_request: self.setup_request,
            reboot_armed: self.reboot_armed,
            last_se0_cyccount: self.last_se0_cyccount,
            delta_se0_cyccount: self.delta_se0_cyccount,
            se0_windup: self.se0_windup,
            descriptors: self.descriptors@,
            eps: self.eps@.map_values(|e: UsbEndpoint| e@),
        }
    }
}

impl<const EPS: usize> UsbIf<EPS> {
    pub open spec fn wf(&self) -> bool {
        &&& device_wf(self@)
        &&& self@.eps.len() == EPS
    }

    /// A device with all endpoints empty, address 0, nothing pending.
    pub fn new(descriptors: DescriptorTable) -> (r: Self)
        requires
            EPS >= 1,
            table_wf(descriptors@),
        ensures
            r.wf(),
            r@ == initial_device(descriptors@, EPS as nat),
    {
        let mut eps: Vec<UsbEndpoint> = Vec::new();
        let mut i: usize = 0;
        while i < EPS
            invariant
                i <= EPS,
                eps@.len() == i,
                forall|j: int| 0 <= j < i ==> #[trigger] eps@[j]@ == empty_endpoint(),
            decreases EPS - i,
        {
            eps.push(UsbEndpoint::new());
            i = i + 1;
        }
        let r = UsbIf {
            current_endpoint: 0,
            my_address: 0,
            setup_request: false,
            reboot_armed: 0,
            last_se0_cyccount: 0,
            delta_se0_cyccount: 0,
            se0_windup: 0,
            descriptors,
            eps,
        };
        assert(r@.eps =~= initial_device(descriptors@, EPS as nat).eps);
        r
    }

    proof fn lemma_view_eps(&self)
        ensures
            self@.eps.len() == self.eps@.len(),
            forall|i: int| 0 <= i < self.eps@.len() ==> #[trigger] self@.eps[i] == self.eps@[i]@,
    {
    }

    /// Hands IN tokens on `endp` to the application (`custom` true) or back
    /// to the buffered-transfer logic.
    pub fn set_custom(&mut self, endp: u32, custom: bool)
        requires
            old(self).wf(),
            endp < EPS,
        ensures
            final(self).wf(),
            final(self)@ == (DeviceModel {
                eps: old(self)@.eps.update(
                    endp as int,
                    EndpointModel { custom, ..old(self)@.eps[endp as int] },
                ),
                ..old(self)@
            }),
    {
        proof {
            self.lemma_view_eps();
        }
        self.eps[endp as usize].custom = custom;
        proof {
            self.lemma_view_eps();
            assert(self@.eps =~= old(self)@.eps.update(
                endp as int,
                EndpointModel { custom, ..old(self)@.eps[endp as int] },
            ));
        }
    }

    pub fn usb_pid_handle_out(&mut self, endp: u32)
        requires
            old(self).wf(),
            endp < EPS,
        ensures
            final(self).wf(),
            final(self)@ == out_step(old(self)@, endp),
    {
        self.current_endpoint = endp;
        assert(self@.eps =~= old(self)@.eps);
    }

    pub fn usb_pid_handle_setup(&mut self, endp: u32)
        requires
            old(self).wf(),
            endp < EPS,
        ensures
            final(self).wf(),
            final(self)@ == setup_step(old(self)@, endp),
    {
        proof {
            self.lemma_view_eps();
        }
        self.current_endpoint = endp;
        self.setup_request = true;
        let i = endp as usize;
        self.eps[i].toggle_in = true;
        self.eps[i].count = 0;
        self.eps[i].max_len = 0;
        self.eps[i].opaque = Vec::new();
        self.eps[i].toggle_out = false;
        proof {
            self.lemma_view_eps();
            assert(self@.eps =~= setup_step(old(self)@, endp).eps);
        }
    }

    pub fn usb_pid_handle_ack(&mut self)
        requires
            old(self).wf(),
        ensures
            final(self).wf(),
            final(self)@ == ack_step(old(self)@),
    {
        proof {
            self.lemma_view_eps();
        }
        let i = self.current_endpoint as usize;
        self.eps[i].toggle_in = !self.eps[i].toggle_in;
        if self.eps[i].count < u32::MAX {
            self.eps[i].count = self.eps[i].count + 1;
        }
        proof {
            self.lemma_view_eps();
            assert(self@.eps =~= ack_step(old(self)@).eps);
        }
    }

    pub fn usb_pid_handle_in(&mut self, endp: u32) -> (r: Action)
        requires
            old(self).wf(),
            endp < EPS,
        ensures
            final(self).wf(),
            (final(self)@, r@) == in_step(old(self)@, endp),
    {
        proof {
            self.lemma_view_eps();
        }
        self.current_endpoint = endp;
        assert(self@.eps =~= old(self)@.eps);
        let i = endp as usize;
        let pid: u8 = if self.eps[i].toggle_in {
            PID_DATA1
        } else {
            PID_DATA0
        };
        if self.reboot_armed == 2 && endp == 0 {
            return Action::Bootloader { pid };
        }
        if self.eps[i].custom || endp != 0 {
            return Action::UserIn { endpoint: endp, pid };
        }
        let e = &self.eps[i];
        let offset: u64 = e.count as u64 * 8;
        if offset >= e.max_len as u64 {
            let data: Vec<u8> = vec![0u8, 0u8];
            assert(data@ =~= seq![0u8, 0u8]);
            return Action::Send { pid, data, checksum: Checksum::Plain };
        }
        let rest: u64 = e.max_len as u64 - offset;
        let n: u64 = if rest > ENDPOINT0_SIZE as u64 {
            ENDPOINT0_SIZE as u64
        } else {
            rest
        };
        let start = offset as usize;
        let end = (offset + n) as usize;
        let data = vstd::slice::slice_to_vec(vstd::slice::slice_subrange(e.opaque.as_slice(), start, end));
        Action::Send { pid, data, checksum: Checksum::Crc16 }
    }

    fn setup_request_in(&mut self, payload: &[u8])
        requires
            old(self).wf(),
            old(self)@.current_endpoint == 0,
        ensures
            final(self).wf(),
            final(self)@ == setup_request_step(old(self)@, payload@),
    {
        proof {
            self.lemma_view_eps();
        }
        self.eps[0].count = 0;
        self.eps[0].opaque = Vec::new();
        self.eps[0].custom = false;
        self.eps[0].max_len = 0;
        self.setup_request = false;
        self.reboot_armed = 0;
        if payload.len() == 8 {
            let req: u32 = payload[0] as u32 + 256 * payload[1] as u32;
            let wvi: u32 = payload[2] as u32 + 256 * payload[3] as u32 + 65536 * payload[4] as u32
                + 16777216 * payload[5] as u32;
            let w_value: u32 = payload[2] as u32 + 256 * payload[3] as u32;
            let w_length: u32 = payload[6] as u32 + 256 * payload[7] as u32;
            if req / 2 == REQ_SET_FEATURE_REPORT / 2 {
                if wvi == REBOOT_REQUEST_VALUE {
                    self.reboot_armed = 1;
                }
            } else if req / 2 == REQ_GET_DESCRIPTOR / 2 {
                let d = get_descriptor_info(&self.descriptors, wvi);
                let len: u32 = if (w_length as usize) < d.len() {
                    w_length
                } else {
                    d.len() as u32
                };
                self.eps[0].max_len = len;
                self.eps[0].opaque = d;
            } else if req / 2 == REQ_SET_ADDRESS / 2 {
                self.my_address = w_value;
            }
        }
        proof {
            self.lemma_view_eps();
            assert(self@.eps =~= setup_request_step(old(self)@, payload@).eps);
        }
    }

    pub fn usb_pid_handle_data(&mut self, which: bool, payload: &[u8]) -> (r: Action)
        requires
            old(self).wf(),
        ensures
            final(self).wf(),
            (final(self)@, r@) == data_step(old(self)@, which, payload@),
    {
        proof {
            self.lemma_view_eps();
        }
        let i = self.current_endpoint as usize;
        let ack: Vec<u8> = Vec::new();
        assert(ack@ =~= seq![]);
        if self.eps[i].toggle_out != which {
            return Action::Send { pid: PID_ACK, data: ack, checksum: Checksum::Plain };
        }
        self.eps[i].toggle_out = !self.eps[i].toggle_out;
        proof {
            self.lemma_view_eps();
            let e = old(self)@.eps[i as int];
            assert(self@.eps =~= old(self)@.eps.update(
                i as int,
                EndpointModel { toggle_out: !e.toggle_out, ..e },
            ));
        }
        if i == 0 && self.setup_request {
            self.setup_request_in(payload);
        } else {
            let cookie = payload.len() == 8 && payload[0] == 0xfd && payload[1] == 0x12 && payload[2]
                == 0x34 && payload[3] == 0xaa && payload[4] == 0xbb && payload[5] == 0xcc
                && payload[6] == 0xdd && payload[7] == 0x00;
            if self.reboot_armed > 0 && i == 0 && cookie {
                self.reboot_armed = 2;
            } else {
                self.reboot_armed = 0;
            }
            proof {
                self.lemma_view_eps();
                assert(self@.eps =~= data_step(old(self)@, which, payload@).0.eps);
            }
        }
        Action::Send { pid: PID_ACK, data: ack, checksum: Checksum::Plain }
    }

    /// Dispatches one decoded packet (PID first), as `packet_step` says.
    pub fn handle_packet(&mut self, packet: &[u8]) -> (r: Action)
        requires
            old(self).wf(),
        ensures
            final(self).wf(),
            (final(self)@, r@) == packet_step(old(self)@, packet@),
    {
        let n = packet.len();
        if n == 0 {
            return Action::Idle;
        }
        let pid = packet[0];
        if pid == PID_ACK {
            self.usb_pid_handle_ack();
            return Action::Idle;
        }
        if pid == PID_DATA0 || pid == PID_DATA1 {
            if n >= 3 && check_data_crc(vstd::slice::slice_subrange(packet, 1, n)) {
                return self.usb_pid_handle_data(
                    pid == PID_DATA1,
                    vstd::slice::slice_subrange(packet, 1, n - 2),
                );
            }
            return Action::Idle;
        }
        if pid == PID_OUT || pid == PID_IN || pid == PID_SETUP {
            if n == 3 && check_token_crc(packet[1], packet[2]) {
                let addr: u32 = (packet[1] % 128) as u32;
                let endp: u32 = (packet[1] / 128) as u32 + 2 * (packet[2] % 8) as u32;
                if (endp as usize) < EPS && (addr == 0 || addr == self.my_address) {
                    if pid == PID_OUT {
                        self.usb_pid_handle_out(endp);
                        return Action::Idle;
                    } else if pid == PID_IN {
                        return self.usb_pid_handle_in(endp);
                    } else {
                        self.usb_pid_handle_setup(endp);
                        return Action::Idle;
                    }
                }
            }
            return Action::Idle;
        }
        Action::Idle
    }

    /// The keepalive, as `keepalive_step` says: `systick` is the free-running
    /// cycle counter, `rcc_ctlr` the clock control register as it stands.
    pub fn handle_se0_keepalive(&mut self, systick: u32, rcc_ctlr: u32) -> (r: Action)
        requires
            old(self).wf(),
        ensures
            final(self).wf(),
            (final(self)@, r@) == keepalive_step(old(self)@, systick, rcc_ctlr),
    {
        let delta: u32 = systick.wrapping_sub(self.last_se0_cyccount);
        self.last_se0_cyccount = systick;
        self.delta_se0_cyccount = delta;
        proof {
            assert(self@.eps =~= old(self)@.eps);
        }
        if delta < KEEPALIVE_CYCLES - KEEPALIVE_BAND || delta >= KEEPALIVE_CYCLES + KEEPALIVE_BAND {
            return Action::Idle;
        }
        let w: i32 = self.se0_windup + (delta as i32 - KEEPALIVE_CYCLES as i32);
        let a: u32 = if w >= 0 {
            w as u32
        } else {
            (-w) as u32
        };
        let q: i32 = (a / TRIM_STEP as u32) as i32;
        assert((a as int) < 512 <==> (a as int) / 512 == 0) by (nonlinear_arith);
        let steps: i32 = if w >= 0 {
            q
        } else {
            -q
        };
        if steps == 0 {
            self.se0_windup = w;
            return Action::Idle;
        }
        assert(-TRIM_STEP < w - steps * TRIM_STEP < TRIM_STEP);
        self.se0_windup = w - steps * TRIM_STEP;
        let trim: i32 = ((rcc_ctlr / 8) % 32) as i32;
        let t0: i32 = trim - steps;
        let t: i32 = if t0 < 0 {
            0
        } else if t0 > 31 {
            31
        } else {
            t0
        };
        Action::Trim { rcc_ctlr: (rcc_ctlr & RCC_TRIM_KEEP) | ((t as u32) << 3) }
    }

    /// One interrupt on the bus lines: `samples` are the line states from the
    /// edge that raised it, one per bit time. As `interrupt_step` says.
    pub fn usb_interrupt_handler(&mut self, samples: &[Line], systick: u32, rcc_ctlr: u32) -> (r:
        Action)
        requires
            old(self).wf(),
        ensures
            final(self).wf(),
            (final(self)@, r@) == interrupt_step(old(self)@, samples@, systick, rcc_ctlr),
    {
        if samples.len() == 0 {
            return Action::Idle;
        }
        if se0_before_sync(samples) {
            return self.handle_se0_keepalive(systick, rcc_ctlr);
        }
        match receive(samples) {
            None => Action::Idle,
            Some(p) => self.handle_packet(p.as_slice()),
        }
    }
}

} // verus!
