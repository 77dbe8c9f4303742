//! The transmit path: from a PID and payload to the line states driven, one
//! per bit time.
use vstd::prelude::*;
use crate::bits::{
    bits_of_bytes, bytes_of_bits, bytes_to_bits, lemma_bits_of_bytes_len, lemma_bytes_round_trip,
    lemma_unstuff_stuff, stuff, stuff_bits,
};
use crate::crc::{crc16_bytes, crc16_checksum};
use crate::line::{lemma_nrzi_encode_len, lemma_nrzi_round_trip, nrzi_encode, nrzi_encode_bits, Line};
use crate::rx::{first_se0, lemma_first_se0, receive_spec, sync_ok, MAX_PACKET};

verus! {

/// What follows the payload on the wire.
#[derive(Clone, Copy, Debug, PartialEq, Eq, Structural)]
pub enum Checksum {
    /// Nothing: handshakes, and payloads that carry their own check bits.
    Plain,
    /// The CRC16 of the payload (data packets).
    Crc16,
}

pub open spec fn checksum_bytes(data: Seq<u8>, checksum: Checksum) -> Seq<u8> {
    match checksum {
        Checksum::Plain => seq![],
        Checksum::Crc16 => crc16_bytes(data),
    }
}

/// The bytes of a packet: PID, payload, checksum.
pub open spec fn frame_bytes(token: u8, data: Seq<u8>, checksum: Checksum) -> Seq<u8> {
    seq![token] + data + checksum_bytes(data, checksum)
}

/// The sync pattern that opens every packet.
pub open spec fn sync_pattern() -> Seq<Line> {
    seq![Line::K, Line::J, Line::K, Line::J, Line::K, Line::J, Line::K, Line::K]
}

/// End of packet: two bit times of single-ended zero, then idle.
pub open spec fn end_of_packet() -> Seq<Line> {
    seq![Line::Se0, Line::Se0, Line::J]
}

/// The line states of a packet: sync, the NRZI-coded and bit-stuffed bits of
/// the frame, end of packet.
pub open spec fn transmit(token: u8, data: Seq<u8>, checksum: Checksum) -> Seq<Line> {
    sync_pattern() + nrzi_encode(Line::K, stuff(bits_of_bytes(frame_bytes(token, data, checksum))))
        + end_of_packet()
}

/// The line states that send `token`, then `data`, then the checksum chosen.
pub fn usb_send_data(data: &[u8], checksum: Checksum, token: u8) -> (r: Vec<Line>)
    ensures
        r@ == transmit(token, data@, checksum),
{
    let mut frame: Vec<u8> = Vec::new();
    frame.push(token);
    let mut i: usize = 0;
    while i < data.len()
        invariant
            i <= data@.len(),
            frame@ == seq![token] + data@.subrange(0, i as int),
        decreases data@.len() - i,
    {
        frame.push(data[i]);
        i = i + 1;
        assert(frame@ =~= seq![token] + data@.subrange(0, i as int));
    }
    assert(data@.subrange(0, data@.len() as int) =~= data@);
    match checksum {
        Checksum::Plain => {
            assert(frame@ =~= frame_bytes(token, data@, checksum));
        },
        Checksum::Crc16 => {
            let c = crc16_checksum(data);
            frame.push(c[0]);
            frame.push(c[1]);
            assert(frame@ =~= frame_bytes(token, data@, checksum));
        },
    }
    let bits = bytes_to_bits(frame.as_slice());
    let stuffed = stuff_bits(&bits);
    let coded = nrzi_encode_bits(Line::K, &stuffed);
    let mut out: Vec<Line> = vec![Line::K, Line::J, Line::K, Line::J, Line::K, Line::J, Line::K, Line::K];
    assert(out@ =~= sync_pattern());
    let mut j: usize = 0;
    while j < coded.len()
        invariant
            j <= coded@.len(),
            out@ == sync_pattern() + coded@.subrange(0, j as int),
        decreases coded@.len() - j,
    {
        out.push(coded[j]);
        j = j + 1;
        assert(out@ =~= sync_pattern() + coded@.subrange(0, j as int));
    }
    assert(coded@.subrange(0, coded@.len() as int) =~= coded@);
    out.push(Line::Se0);
    out.push(Line::Se0);
    out.push(Line::J);
    assert(out@ =~= transmit(token, data@, checksum));
    out
}

/// A zero-length data packet: the PID, then two zero bytes (the CRC16 of an
/// empty payload).
pub fn usb_send_empty(token: u8) -> (r: Vec<Line>)
    ensures
        r@ == transmit(token, seq![0u8, 0u8], Checksum::Plain),
{
    let zeros: [u8; 2] = [0, 0];
    assert(zeros@ =~= seq![0u8, 0u8]);
    usb_send_data(&zeros, Checksum::Plain, token)
}

/// Receiving what was transmitted gives back the packet's bytes exactly:
/// NRZI decoding undoes encoding, unstuffing undoes stuffing, and packing
/// bits into bytes undoes unpacking.
pub proof fn lemma_transmit_receive(token: u8, data: Seq<u8>, checksum: Checksum)
    requires
        frame_bytes(token, data, checksum).len() <= MAX_PACKET,
    ensures
        receive_spec(transmit(token, data, checksum)) == Some(frame_bytes(token, data, checksum)),
{
    let f = frame_bytes(token, data, checksum);
    let b = bits_of_bytes(f);
    let s = stuff(b);
    let n = nrzi_encode(Line::K, s);
    let m: int = n.len() as int;
    let t = transmit(token, data, checksum);
    lemma_nrzi_encode_len(Line::K, s);
    lemma_nrzi_round_trip(Line::K, s);
    lemma_bits_of_bytes_len(f);
    lemma_unstuff_stuff(b);
    lemma_bytes_round_trip(f);
    assert(t.len() == 8 + n.len() + 3);
    assert(forall|i: int| 0 <= i < 8 ==> t[i] == sync_pattern()[i]);
    assert(sync_ok(t));
    assert forall|j: int| 8 <= j < 8 + n.len() implies t[j] != Line::Se0 by {
        assert(t[j] == n[j - 8]);
    }
    assert(t[8 + m] == Line::Se0);
    lemma_first_se0(t, 8, 8 + m);
    assert(t.subrange(8, 8 + m) =~= n);
    assert(f.len() >= 1);
}

} // verus!
