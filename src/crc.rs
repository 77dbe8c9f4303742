//! The two USB checksums, as bit-serial shift registers: CRC16 on data
//! packets and CRC5 on tokens.
use vstd::prelude::*;
use crate::bits::{
    bits_of_byte, bits_of_bytes, bytes_of_bits, lemma_bits_of_bytes_append, lemma_bits_of_bytes_len,
    lemma_bits_of_bytes_push, lemma_bits_round_trip,
};

verus! {

/// CRC16 polynomial x^16 + x^15 + x^2 + 1, bit-reversed.
pub const CRC16_POLY: u16 = 0xa001;

pub const CRC16_INIT: u16 = 0xffff;

/// What the CRC16 register holds after a data packet's payload and its own
/// (inverted) checksum have been shifted through it.
pub const CRC16_RESIDUAL: u16 = 0xb001;

/// CRC5 polynomial x^5 + x^2 + 1, bit-reversed.
pub const CRC5_POLY: u16 = 0x14;

/// Start value of the CRC5 register, chosen so that a sound token leaves
/// the register at zero.
pub const CRC5_INIT: u16 = 0x1e;

/// One bit through the shift register.
pub open spec fn crc_step(poly: u16, c: u16, b: bool) -> u16 {
    if ((c & 1u16) == 1u16) != b {
        (c >> 1u16) ^ poly
    } else {
        c >> 1u16
    }
}

/// The register after shifting `bits` through it, starting from `c`.
pub open spec fn crc_bits(poly: u16, c: u16, bits: Seq<bool>) -> u16
    decreases bits.len(),
{
    if bits.len() == 0 {
        c
    } else {
        crc_step(poly, crc_bits(poly, c, bits.drop_last()), bits.last())
    }
}

/// The CRC16 register after a byte string.
pub open spec fn crc16(data: Seq<u8>) -> u16 {
    crc_bits(CRC16_POLY, CRC16_INIT, bits_of_bytes(data))
}

/// The two checksum bytes sent after a data payload: the inverted register,
/// low byte first.
pub open spec fn crc16_bytes(data: Seq<u8>) -> Seq<u8> {
    let c = !crc16(data);
    seq![(c & 0xffu16) as u8, (c >> 8u16) as u8]
}

/// A data packet's payload and checksum are sound.
pub open spec fn data_crc_ok(body: Seq<u8>) -> bool {
    crc16(body) == CRC16_RESIDUAL
}

/// The CRC5 register after the two bytes that follow a token's PID.
pub open spec fn crc5_residual(b1: u8, b2: u8) -> u16 {
    crc_bits(CRC5_POLY, CRC5_INIT, bits_of_bytes(seq![b1, b2]))
}

/// A token's address, endpoint and checksum are sound.
pub open spec fn token_crc_ok(b1: u8, b2: u8) -> bool {
    crc5_residual(b1, b2) == 0
}

/// The register after a byte, as eight explicit steps.
pub open spec fn crc_byte(poly: u16, c: u16, x: u8) -> u16 {
    let c0 = crc_step(poly, c, x & 1u8 == 1u8);
    let c1 = crc_step(poly, c0, (x >> 1u8) & 1u8 == 1u8);
    let c2 = crc_step(poly, c1, (x >> 2u8) & 1u8 == 1u8);
    let c3 = crc_step(poly, c2, (x >> 3u8) & 1u8 == 1u8);
    let c4 = crc_step(poly, c3, (x >> 4u8) & 1u8 == 1u8);
    let c5 = crc_step(poly, c4, (x >> 5u8) & 1u8 == 1u8);
    let c6 = crc_step(poly, c5, (x >> 6u8) & 1u8 == 1u8);
    crc_step(poly, c6, (x >> 7u8) & 1u8 == 1u8)
}

pub proof fn lemma_crc_bits_append(poly: u16, c: u16, a: Seq<bool>, b: Seq<bool>)
    ensures
        crc_bits(poly, c, a + b) == crc_bits(poly, crc_bits(poly, c, a), b),
    decreases b.len(),
{
    if b.len() == 0 {
        assert(a + b =~= a);
    } else {
        assert((a + b).drop_last() =~= a + b.drop_last());
        lemma_crc_bits_append(poly, c, a, b.drop_last());
    }
}

pub proof fn lemma_crc_bits_byte(poly: u16, c: u16, x: u8)
    ensures
        crc_bits(poly, c, bits_of_byte(x)) == crc_byte(poly, c, x),
{
    let b = bits_of_byte(x);
    assert(x >> 0u8 == x) by (bit_vector);
    reveal_with_fuel(crc_bits, 9);
    assert(b.drop_last().drop_last().drop_last().drop_last().drop_last().drop_last().drop_last().drop_last().len() == 0);
}

/// Sixteen steps that feed a register its own inverted value, low bit first,
/// end on the residual.
proof fn lemma_residual_steps(
    c: u16,
    d0: u16,
    d1: u16,
    d2: u16,
    d3: u16,
    d4: u16,
    d5: u16,
    d6: u16,
    d7: u16,
    d8: u16,
    d9: u16,
    d10: u16,
    d11: u16,
    d12: u16,
    d13: u16,
    d14: u16,
    d15: u16,
)
    by (bit_vector)
    requires
        d0 == crc_step(0xa001u16, c, (!c >> 0u16) & 1u16 == 1u16),
        d1 == crc_step(0xa001u16, d0, (!c >> 1u16) & 1u16 == 1u16),
        d2 == crc_step(0xa001u16, d1, (!c >> 2u16) & 1u16 == 1u16),
        d3 == crc_step(0xa001u16, d2, (!c >> 3u16) & 1u16 == 1u16),
        d4 == crc_step(0xa001u16, d3, (!c >> 4u16) & 1u16 == 1u16),
        d5 == crc_step(0xa001u16, d4, (!c >> 5u16) & 1u16 == 1u16),
        d6 == crc_step(0xa001u16, d5, (!c >> 6u16) & 1u16 == 1u16),
        d7 == crc_step(0xa001u16, d6, (!c >> 7u16) & 1u16 == 1u16),
        d8 == crc_step(0xa001u16, d7, (!c >> 8u16) & 1u16 == 1u16),
        d9 == crc_step(0xa001u16, d8, (!c >> 9u16) & 1u16 == 1u16),
        d10 == crc_step(0xa001u16, d9, (!c >> 10u16) & 1u16 == 1u16),
        d11 == crc_step(0xa001u16, d10, (!c >> 11u16) & 1u16 == 1u16),
        d12 == crc_step(0xa001u16, d11, (!c >> 12u16) & 1u16 == 1u16),
        d13 == crc_step(0xa001u16, d12, (!c >> 13u16) & 1u16 == 1u16),
        d14 == crc_step(0xa001u16, d13, (!c >> 14u16) & 1u16 == 1u16),
        d15 == crc_step(0xa001u16, d14, (!c >> 15u16) & 1u16 == 1u16),
    ensures
        d15 == 0xb001u16,
{
}

/// Bit `i` of the low and high byte of a 16-bit word.
proof fn lemma_word_bytes_bits(n: u16)
    by (bit_vector)
    ensures
        ((n & 0xffu16) as u8) & 1u8 == 1u8 <==> (n >> 0u16) & 1u16 == 1u16,
        (((n & 0xffu16) as u8) >> 1u8) & 1u8 == 1u8 <==> (n >> 1u16) & 1u16 == 1u16,
        (((n & 0xffu16) as u8) >> 2u8) & 1u8 == 1u8 <==> (n >> 2u16) & 1u16 == 1u16,
        (((n & 0xffu16) as u8) >> 3u8) & 1u8 == 1u8 <==> (n >> 3u16) & 1u16 == 1u16,
        (((n & 0xffu16) as u8) >> 4u8) & 1u8 == 1u8 <==> (n >> 4u16) & 1u16 == 1u16,
        (((n & 0xffu16) as u8) >> 5u8) & 1u8 == 1u8 <==> (n >> 5u16) & 1u16 == 1u16,
        (((n & 0xffu16) as u8) >> 6u8) & 1u8 == 1u8 <==> (n >> 6u16) & 1u16 == 1u16,
        (((n & 0xffu16) as u8) >> 7u8) & 1u8 == 1u8 <==> (n >> 7u16) & 1u16 == 1u16,
        ((n >> 8u16) as u8) & 1u8 == 1u8 <==> (n >> 8u16) & 1u16 == 1u16,
        (((n >> 8u16) as u8) >> 1u8) & 1u8 == 1u8 <==> (n >> 9u16) & 1u16 == 1u16,
        (((n >> 8u16) as u8) >> 2u8) & 1u8 == 1u8 <==> (n >> 10u16) & 1u16 == 1u16,
        (((n >> 8u16) as u8) >> 3u8) & 1u8 == 1u8 <==> (n >> 11u16) & 1u16 == 1u16,
        (((n >> 8u16) as u8) >> 4u8) & 1u8 == 1u8 <==> (n >> 12u16) & 1u16 == 1u16,
        (((n >> 8u16) as u8) >> 5u8) & 1u8 == 1u8 <==> (n >> 13u16) & 1u16 == 1u16,
        (((n >> 8u16) as u8) >> 6u8) & 1u8 == 1u8 <==> (n >> 14u16) & 1u16 == 1u16,
        (((n >> 8u16) as u8) >> 7u8) & 1u8 == 1u8 <==> (n >> 15u16) & 1u16 == 1u16,
{
}

/// For every byte string, the CRC16 register ends on the fixed residual once
/// the string's own checksum bytes have followed it.
pub proof fn lemma_crc16_residual(data: Seq<u8>)
    ensures
        data_crc_ok(data + crc16_bytes(data)),
{
    let c = crc16(data);
    let n = !c;
    let lo = (n & 0xffu16) as u8;
    let hi = (n >> 8u16) as u8;
    lemma_bits_of_bytes_append(data, crc16_bytes(data));
    assert(crc16_bytes(data) =~= seq![lo].push(hi));
    lemma_bits_of_bytes_push(seq![lo], hi);
    lemma_bits_of_bytes_push(seq![], lo);
    assert(seq![lo] =~= Seq::<u8>::empty().push(lo));
    assert(bits_of_bytes(Seq::<u8>::empty()) =~= Seq::<bool>::empty());
    assert(bits_of_bytes(seq![lo]) =~= bits_of_byte(lo));
    lemma_crc_bits_append(
        CRC16_POLY,
        CRC16_INIT,
        bits_of_bytes(data),
        bits_of_byte(lo) + bits_of_byte(hi),
    );
    lemma_crc_bits_append(CRC16_POLY, c, bits_of_byte(lo), bits_of_byte(hi));
    lemma_crc_bits_byte(CRC16_POLY, c, lo);
    let r1 = crc_byte(CRC16_POLY, c, lo);
    lemma_crc_bits_byte(CRC16_POLY, r1, hi);
    lemma_word_bytes_bits(n);
    let d0 = crc_step(CRC16_POLY, c, lo & 1u8 == 1u8);
    let d1 = crc_step(CRC16_POLY, d0, (lo >> 1u8) & 1u8 == 1u8);
    let d2 = crc_step(CRC16_POLY, d1, (lo >> 2u8) & 1u8 == 1u8);
    let d3 = crc_step(CRC16_POLY, d2, (lo >> 3u8) & 1u8 == 1u8);
    let d4 = crc_step(CRC16_POLY, d3, (lo >> 4u8) & 1u8 == 1u8);
    let d5 = crc_step(CRC16_POLY, d4, (lo >> 5u8) & 1u8 == 1u8);
    let d6 = crc_step(CRC16_POLY, d5, (lo >> 6u8) & 1u8 == 1u8);
    let d7 = crc_step(CRC16_POLY, d6, (lo >> 7u8) & 1u8 == 1u8);
    assert(d7 == r1);
    let d8 = crc_step(CRC16_POLY, d7, hi & 1u8 == 1u8);
    let d9 = crc_step(CRC16_POLY, d8, (hi >> 1u8) & 1u8 == 1u8);
    let d10 = crc_step(CRC16_POLY, d9, (hi >> 2u8) & 1u8 == 1u8);
    let d11 = crc_step(CRC16_POLY, d10, (hi >> 3u8) & 1u8 == 1u8);
    let d12 = crc_step(CRC16_POLY, d11, (hi >> 4u8) & 1u8 == 1u8);
    let d13 = crc_step(CRC16_POLY, d12, (hi >> 5u8) & 1u8 == 1u8);
    let d14 = crc_step(CRC16_POLY, d13, (hi >> 6u8) & 1u8 == 1u8);
    let d15 = crc_step(CRC16_POLY, d14, (hi >> 7u8) & 1u8 == 1u8);
    assert(d15 == crc_byte(CRC16_POLY, r1, hi));
    lemma_residual_steps(c, d0, d1, d2, d3, d4, d5, d6, d7, d8, d9, d10, d11, d12, d13, d14, d15);
}

/// A bit string with bit `i` inverted.
pub open spec fn flip_bit(bits: Seq<bool>, i: int) -> Seq<bool> {
    bits.update(i, !bits[i])
}

/// A byte string with bit `i` (counted as sent on the wire) inverted.
pub open spec fn corrupt(bytes: Seq<u8>, i: int) -> Seq<u8> {
    bytes_of_bits(flip_bit(bits_of_bytes(bytes), i))
}

spec fn xor_bits(a: Seq<bool>, b: Seq<bool>) -> Seq<bool> {
    Seq::new(a.len(), |j: int| a[j] != b[j])
}

proof fn lemma_step_linear(poly: u16, c1: u16, c2: u16, b1: bool, b2: bool)
    by (bit_vector)
    ensures
        crc_step(poly, c1, b1) ^ crc_step(poly, c2, b2) == crc_step(poly, c1 ^ c2, b1 != b2),
{
}

/// The register is linear: the difference of two runs is a run of the
/// difference from the difference of the start values.
proof fn lemma_crc_linear(poly: u16, c1: u16, c2: u16, a: Seq<bool>, b: Seq<bool>)
    requires
        a.len() == b.len(),
    ensures
        crc_bits(poly, c1, a) ^ crc_bits(poly, c2, b) == crc_bits(poly, c1 ^ c2, xor_bits(a, b)),
    decreases a.len(),
{
    if a.len() > 0 {
        lemma_crc_linear(poly, c1, c2, a.drop_last(), b.drop_last());
        assert(xor_bits(a, b).drop_last() =~= xor_bits(a.drop_last(), b.drop_last()));
        lemma_step_linear(
            poly,
            crc_bits(poly, c1, a.drop_last()),
            crc_bits(poly, c2, b.drop_last()),
            a.last(),
            b.last(),
        );
    }
}

proof fn lemma_crc16_zero_step(c: u16)
    by (bit_vector)
    ensures
        c != 0 ==> crc_step(0xa001u16, c, false) != 0,
        crc_step(0xa001u16, 0, false) == 0,
        crc_step(0xa001u16, 0, true) == 0xa001u16,
{
}

proof fn lemma_crc5_zero_step(c: u16)
    by (bit_vector)
    ensures
        c != 0 && c < 32 ==> crc_step(0x14u16, c, false) != 0 && crc_step(0x14u16, c, false) < 32,
        crc_step(0x14u16, 0, false) == 0,
        crc_step(0x14u16, 0, true) == 0x14u16,
{
}

/// A single one bit, at `i`, among zeros, leaves a nonzero register that
/// started at zero, for a register that shifting zeros never clears.
proof fn lemma_single_error(poly: u16, bound: int, n: int, i: int, k: int)
    requires
        0 <= i < n,
        0 <= k <= n,
        0 < poly < bound,
        forall|c: u16| c != 0 && c < bound ==> #[trigger] crc_step(poly, c, false) != 0 && crc_step(poly, c, false) < bound,
        crc_step(poly, 0, false) == 0,
        crc_step(poly, 0, true) == poly,
    ensures
        k <= i ==> crc_bits(poly, 0, Seq::new(n as nat, |j: int| j == i).subrange(0, k)) == 0,
        k > i ==> crc_bits(poly, 0, Seq::new(n as nat, |j: int| j == i).subrange(0, k)) != 0
            && crc_bits(poly, 0, Seq::new(n as nat, |j: int| j == i).subrange(0, k)) < bound,
    decreases k,
{
    let e = Seq::new(n as nat, |j: int| j == i);
    if k > 0 {
        lemma_single_error(poly, bound, n, i, k - 1);
        assert(e.subrange(0, k).drop_last() =~= e.subrange(0, k - 1));
        let c = crc_bits(poly, 0, e.subrange(0, k - 1));
        assert(crc_bits(poly, 0, e.subrange(0, k)) == crc_step(poly, c, e[k - 1]));
    }
}

proof fn lemma_flip_difference(bits: Seq<bool>, i: int)
    requires
        0 <= i < bits.len(),
    ensures
        xor_bits(bits, flip_bit(bits, i)) == Seq::new(bits.len(), |j: int| j == i),
{
    assert(xor_bits(bits, flip_bit(bits, i)) =~= Seq::new(bits.len(), |j: int| j == i));
}

/// Every single-bit corruption of a data packet's payload or checksum moves
/// the CRC16 register off the residual, so the packet is rejected.
pub proof fn lemma_crc16_detects_bit_flip(data: Seq<u8>, i: int)
    requires
        0 <= i < 8 * (data.len() + 2),
    ensures
        !data_crc_ok(corrupt(data + crc16_bytes(data), i)),
{
    let frame = data + crc16_bytes(data);
    let bits = bits_of_bytes(frame);
    let bad = flip_bit(bits, i);
    lemma_crc16_residual(data);
    lemma_bits_of_bytes_len(frame);
    lemma_bits_round_trip(bad);
    lemma_crc_linear(CRC16_POLY, CRC16_INIT, CRC16_INIT, bits, bad);
    lemma_flip_difference(bits, i);
    assert forall|c: u16| c != 0 && c < 0x10000 implies #[trigger] crc_step(0xa001u16, c, false)
        != 0 && crc_step(0xa001u16, c, false) < 0x10000 by {
        lemma_crc16_zero_step(c);
    }
    lemma_crc16_zero_step(0);
    lemma_single_error(CRC16_POLY, 0x10000, bits.len() as int, i, bits.len() as int);
    assert(Seq::new(bits.len(), |j: int| j == i).subrange(0, bits.len() as int) =~= Seq::new(
        bits.len(),
        |j: int| j == i,
    ));
    assert(CRC16_INIT ^ CRC16_INIT == 0) by (bit_vector);
    let r = crc_bits(CRC16_POLY, CRC16_INIT, bad);
    let d = crc_bits(CRC16_POLY, 0, Seq::new(bits.len(), |j: int| j == i));
    assert(CRC16_RESIDUAL ^ r == d);
    assert(d != 0 ==> r != CRC16_RESIDUAL) by (bit_vector)
        requires
            0xb001u16 ^ r == d,
    ;
}

/// Every single-bit corruption of a sound token's address, endpoint or
/// checksum leaves a nonzero CRC5 register, so the token is dropped.
pub proof fn lemma_crc5_detects_bit_flip(b1: u8, b2: u8, i: int)
    requires
        token_crc_ok(b1, b2),
        0 <= i < 16,
    ensures
        corrupt(seq![b1, b2], i).len() == 2,
        !token_crc_ok(corrupt(seq![b1, b2], i)[0], corrupt(seq![b1, b2], i)[1]),
{
    let frame = seq![b1, b2];
    let bits = bits_of_bytes(frame);
    let bad = flip_bit(bits, i);
    let g = corrupt(frame, i);
    lemma_bits_of_bytes_len(frame);
    lemma_bits_round_trip(bad);
    lemma_bits_of_bytes_len(bytes_of_bits(bad));
    assert(g =~= seq![g[0], g[1]]);
    lemma_crc_linear(CRC5_POLY, CRC5_INIT, CRC5_INIT, bits, bad);
    lemma_flip_difference(bits, i);
    assert forall|c: u16| c != 0 && c < 32 implies #[trigger] crc_step(0x14u16, c, false) != 0
        && crc_step(0x14u16, c, false) < 32 by {
        lemma_crc5_zero_step(c);
    }
    lemma_crc5_zero_step(0);
    lemma_single_error(CRC5_POLY, 32, 16, i, 16);
    assert(Seq::new(16, |j: int| j == i).subrange(0, 16) =~= Seq::new(16, |j: int| j == i));
    assert(CRC5_INIT ^ CRC5_INIT == 0) by (bit_vector);
    let r = crc_bits(CRC5_POLY, CRC5_INIT, bad);
    let d = crc_bits(CRC5_POLY, 0, Seq::new(16, |j: int| j == i));
    assert(0 ^ r == d);
    assert(0u16 ^ r == r) by (bit_vector);
}

/// Shifts one byte through the register.
pub fn crc_update(poly: u16, crc: u16, x: u8) -> (r: u16)
    ensures
        r == crc_bits(poly, crc, bits_of_byte(x)),
{
    let mut c: u16 = crc;
    let mut i: u8 = 0;
    while i < 8
        invariant
            i <= 8,
            c == crc_bits(poly, crc, bits_of_byte(x).subrange(0, i as int)),
        decreases 8 - i,
    {
        let b = (x >> i) & 1 == 1;
        proof {
            assert(bits_of_byte(x).subrange(0, i + 1).drop_last() =~= bits_of_byte(x).subrange(
                0,
                i as int,
            ));
        }
        if (c & 1 == 1) != b {
            c = (c >> 1) ^ poly;
        } else {
            c = c >> 1;
        }
        i = i + 1;
    }
    assert(bits_of_byte(x).subrange(0, 8) =~= bits_of_byte(x));
    c
}

/// The register after a byte string, starting from `init`.
pub fn crc_of(poly: u16, init: u16, data: &[u8]) -> (r: u16)
    ensures
        r == crc_bits(poly, init, bits_of_bytes(data@)),
{
    let mut c: u16 = init;
    let mut i: usize = 0;
    while i < data.len()
        invariant
            i <= data@.len(),
            c == crc_bits(poly, init, bits_of_bytes(data@.subrange(0, i as int))),
        decreases data@.len() - i,
    {
        proof {
            assert(data@.subrange(0, i + 1) =~= data@.subrange(0, i as int).push(data@[i as int]));
            lemma_bits_of_bytes_push(data@.subrange(0, i as int), data@[i as int]);
            lemma_crc_bits_append(
                poly,
                init,
                bits_of_bytes(data@.subrange(0, i as int)),
                bits_of_byte(data@[i as int]),
            );
        }
        c = crc_update(poly, c, data[i]);
        i = i + 1;
    }
    assert(data@.subrange(0, data@.len() as int) =~= data@);
    c
}

/// The two checksum bytes that follow a data payload.
pub fn crc16_checksum(data: &[u8]) -> (r: [u8; 2])
    ensures
        r@ == crc16_bytes(data@),
{
    let c = !crc_of(CRC16_POLY, CRC16_INIT, data);
    let r = [(c & 0xff) as u8, (c >> 8) as u8];
    assert(r@ =~= crc16_bytes(data@));
    r
}

/// Whether a data packet's payload-and-checksum leaves the fixed residual.
pub fn check_data_crc(body: &[u8]) -> (r: bool)
    ensures
        r == data_crc_ok(body@),
{
    crc_of(CRC16_POLY, CRC16_INIT, body) == CRC16_RESIDUAL
}

/// Whether the two bytes after a token's PID carry a sound CRC5.
pub fn check_token_crc(b1: u8, b2: u8) -> (r: bool)
    ensures
        r == token_crc_ok(b1, b2),
{
    let mut c = crc_update(CRC5_POLY, CRC5_INIT, b1);
    c = crc_update(CRC5_POLY, c, b2);
    proof {
        lemma_bits_of_bytes_push(seq![b1], b2);
        lemma_bits_of_bytes_push(seq![], b1);
        assert(seq![b1] =~= Seq::<u8>::empty().push(b1));
        assert(seq![b1, b2] =~= seq![b1].push(b2));
        assert(bits_of_bytes(Seq::<u8>::empty()) =~= Seq::<bool>::empty());
        assert(bits_of_bytes(seq![b1]) =~= bits_of_byte(b1));
        lemma_crc_bits_append(CRC5_POLY, CRC5_INIT, bits_of_byte(b1), bits_of_byte(b2));
    }
    c == 0
}

} // verus!
