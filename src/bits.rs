//! Bit-level framing: bytes to bits (least significant bit first, the USB
//! wire order), and bit stuffing.
use vstd::prelude::*;

verus! {

/// A run of this many consecutive one bits is followed by a stuffed zero.
pub const MAX_ONES: usize = 6;

/// The eight bits of a byte, least significant first.
pub open spec fn bits_of_byte(x: u8) -> Seq<bool> {
    Seq::new(8, |i: int| (x >> (i as u8)) & 1u8 == 1u8)
}

/// The bits of a byte string, byte after byte, each least significant bit first.
pub open spec fn bits_of_bytes(bs: Seq<u8>) -> Seq<bool>
    decreases bs.len(),
{
    if bs.len() == 0 {
        seq![]
    } else {
        bits_of_bytes(bs.drop_last()) + bits_of_byte(bs.last())
    }
}

pub open spec fn bit_value(b: bool, weight: u8) -> u8 {
    if b {
        weight
    } else {
        0u8
    }
}

/// The byte whose bits, least significant first, are `b[0]` .. `b[7]`.
pub open spec fn byte_of_bits(b: Seq<bool>) -> u8 {
    bit_value(b[0], 1) | bit_value(b[1], 2) | bit_value(b[2], 4) | bit_value(b[3], 8)
        | bit_value(b[4], 16) | bit_value(b[5], 32) | bit_value(b[6], 64) | bit_value(b[7], 128)
}

/// The bytes spelled by a bit string, eight bits at a time; trailing bits
/// that do not fill a byte are left out.
pub open spec fn bytes_of_bits(b: Seq<bool>) -> Seq<u8>
    decreases b.len(),
{
    if b.len() < 8 {
        seq![]
    } else {
        bytes_of_bits(b.subrange(0, b.len() - 8)).push(
            byte_of_bits(b.subrange(b.len() - 8, b.len() as int)),
        )
    }
}

/// Bit stuffing: the stuffed stream, and the number of ones that end it.
/// After every run of six ones a zero is inserted.
pub open spec fn stuff_state(bits: Seq<bool>) -> (Seq<bool>, nat)
    decreases bits.len(),
{
    if bits.len() == 0 {
        (seq![], 0)
    } else {
        let (out, run) = stuff_state(bits.drop_last());
        if bits.last() {
            if run + 1 == MAX_ONES {
                (out.push(true).push(false), 0)
            } else {
                (out.push(true), run + 1)
            }
        } else {
            (out.push(false), 0)
        }
    }
}

pub open spec fn stuff(bits: Seq<bool>) -> Seq<bool> {
    stuff_state(bits).0
}

/// Removal of stuffed bits: the unstuffed stream and the length of the run
/// of ones that ends it (six means that a stuffed zero is due). A one where a
/// stuffed zero is due makes the stream invalid.
pub open spec fn unstuff_state(bits: Seq<bool>) -> Option<(Seq<bool>, nat)>
    decreases bits.len(),
{
    if bits.len() == 0 {
        Some((seq![], 0))
    } else {
        match unstuff_state(bits.drop_last()) {
            None => None,
            Some((out, run)) => if run == MAX_ONES {
                if bits.last() {
                    None
                } else {
                    Some((out, 0))
                }
            } else if bits.last() {
                Some((out.push(true), run + 1))
            } else {
                Some((out.push(false), 0))
            },
        }
    }
}

pub open spec fn unstuff(bits: Seq<bool>) -> Option<Seq<bool>> {
    match unstuff_state(bits) {
        Some((out, _)) => Some(out),
        None => None,
    }
}

pub proof fn lemma_bits_of_bytes_len(bs: Seq<u8>)
    ensures
        bits_of_bytes(bs).len() == 8 * bs.len(),
    decreases bs.len(),
{
    if bs.len() > 0 {
        lemma_bits_of_bytes_len(bs.drop_last());
    }
}

pub proof fn lemma_bits_of_bytes_append(a: Seq<u8>, b: Seq<u8>)
    ensures
        bits_of_bytes(a + b) == bits_of_bytes(a) + bits_of_bytes(b),
    decreases b.len(),
{
    if b.len() == 0 {
        assert(a + b =~= a);
        assert(bits_of_bytes(a) + bits_of_bytes(b) =~= bits_of_bytes(a));
    } else {
        assert((a + b).drop_last() =~= a + b.drop_last());
        lemma_bits_of_bytes_append(a, b.drop_last());
        assert(bits_of_bytes(a + b) =~= bits_of_bytes(a) + bits_of_bytes(b));
    }
}

pub proof fn lemma_bits_of_bytes_push(a: Seq<u8>, x: u8)
    ensures
        bits_of_bytes(a.push(x)) == bits_of_bytes(a) + bits_of_byte(x),
{
    assert(a.push(x).drop_last() =~= a);
}

pub proof fn lemma_byte_round_trip(x: u8)
    ensures
        byte_of_bits(bits_of_byte(x)) == x,
{
    let b = bits_of_byte(x);
    assert(b[0] == ((x >> 0u8) & 1u8 == 1u8));
    assert(b[1] == ((x >> 1u8) & 1u8 == 1u8));
    assert(b[2] == ((x >> 2u8) & 1u8 == 1u8));
    assert(b[3] == ((x >> 3u8) & 1u8 == 1u8));
    assert(b[4] == ((x >> 4u8) & 1u8 == 1u8));
    assert(b[5] == ((x >> 5u8) & 1u8 == 1u8));
    assert(b[6] == ((x >> 6u8) & 1u8 == 1u8));
    assert(b[7] == ((x >> 7u8) & 1u8 == 1u8));
    assert(bit_value((x >> 0u8) & 1u8 == 1u8, 1) | bit_value((x >> 1u8) & 1u8 == 1u8, 2)
        | bit_value((x >> 2u8) & 1u8 == 1u8, 4) | bit_value((x >> 3u8) & 1u8 == 1u8, 8)
        | bit_value((x >> 4u8) & 1u8 == 1u8, 16) | bit_value((x >> 5u8) & 1u8 == 1u8, 32)
        | bit_value((x >> 6u8) & 1u8 == 1u8, 64) | bit_value((x >> 7u8) & 1u8 == 1u8, 128) == x)
        by (bit_vector);
}

pub proof fn lemma_bytes_round_trip(bs: Seq<u8>)
    ensures
        bytes_of_bits(bits_of_bytes(bs)) == bs,
    decreases bs.len(),
{
    lemma_bits_of_bytes_len(bs);
    if bs.len() > 0 {
        let pre = bits_of_bytes(bs.drop_last());
        let all = bits_of_bytes(bs);
        lemma_bits_of_bytes_len(bs.drop_last());
        assert(all.subrange(0, all.len() - 8) =~= pre);
        assert(all.subrange(all.len() - 8, all.len() as int) =~= bits_of_byte(bs.last()));
        lemma_bytes_round_trip(bs.drop_last());
        lemma_byte_round_trip(bs.last());
        assert(bs.drop_last().push(bs.last()) =~= bs);
    }
}

proof fn lemma_byte_bits_round_trip(b: Seq<bool>)
    requires
        b.len() == 8,
    ensures
        bits_of_byte(byte_of_bits(b)) == b,
{
    let (b0, b1, b2, b3, b4, b5, b6, b7) = (b[0], b[1], b[2], b[3], b[4], b[5], b[6], b[7]);
    let x = byte_of_bits(b);
    assert(x == bit_value(b0, 1) | bit_value(b1, 2) | bit_value(b2, 4) | bit_value(b3, 8)
        | bit_value(b4, 16) | bit_value(b5, 32) | bit_value(b6, 64) | bit_value(b7, 128));
    assert({
        &&& ((x >> 0u8) & 1u8 == 1u8) == b0
        &&& ((x >> 1u8) & 1u8 == 1u8) == b1
        &&& ((x >> 2u8) & 1u8 == 1u8) == b2
        &&& ((x >> 3u8) & 1u8 == 1u8) == b3
        &&& ((x >> 4u8) & 1u8 == 1u8) == b4
        &&& ((x >> 5u8) & 1u8 == 1u8) == b5
        &&& ((x >> 6u8) & 1u8 == 1u8) == b6
        &&& ((x >> 7u8) & 1u8 == 1u8) == b7
    }) by (bit_vector)
        requires
            x == bit_value(b0, 1) | bit_value(b1, 2) | bit_value(b2, 4) | bit_value(b3, 8)
                | bit_value(b4, 16) | bit_value(b5, 32) | bit_value(b6, 64) | bit_value(b7, 128),
    ;
    assert(bits_of_byte(x) =~= b);
}

/// Unpacking bytes undoes packing, for whole bytes.
pub proof fn lemma_bits_round_trip(b: Seq<bool>)
    requires
        b.len() % 8 == 0,
    ensures
        bits_of_bytes(bytes_of_bits(b)) == b,
    decreases b.len(),
{
    if b.len() >= 8 {
        let pre = b.subrange(0, b.len() - 8);
        let last = b.subrange(b.len() - 8, b.len() as int);
        lemma_bits_round_trip(pre);
        lemma_byte_bits_round_trip(last);
        lemma_bits_of_bytes_push(bytes_of_bits(pre), byte_of_bits(last));
        assert(pre + last =~= b);
    } else {
        assert(b =~= Seq::<bool>::empty());
    }
}

pub proof fn lemma_stuff_state_run(bits: Seq<bool>)
    ensures
        stuff_state(bits).1 < MAX_ONES,
    decreases bits.len(),
{
    if bits.len() > 0 {
        lemma_stuff_state_run(bits.drop_last());
    }
}

proof fn lemma_unstuff_push(s: Seq<bool>, x: bool)
    ensures
        unstuff_state(s.push(x)) == (match unstuff_state(s) {
            None => None,
            Some((out, run)) => if run == MAX_ONES {
                if x {
                    None
                } else {
                    Some((out, 0nat))
                }
            } else if x {
                Some((out.push(true), run + 1))
            } else {
                Some((out.push(false), 0nat))
            },
        }),
{
    assert(s.push(x).drop_last() =~= s);
}

/// Removing stuffed bits undoes stuffing.
pub proof fn lemma_unstuff_stuff(bits: Seq<bool>)
    ensures
        unstuff_state(stuff(bits)) == Some((bits, stuff_state(bits).1)),
    decreases bits.len(),
{
    if bits.len() == 0 {
    } else {
        let pre = bits.drop_last();
        let (out, run) = stuff_state(pre);
        lemma_unstuff_stuff(pre);
        lemma_stuff_state_run(pre);
        assert(pre.push(bits.last()) =~= bits);
        if bits.last() {
            lemma_unstuff_push(out, true);
            if run + 1 == MAX_ONES {
                lemma_unstuff_push(out.push(true), false);
            }
        } else {
            lemma_unstuff_push(out, false);
        }
    }
}

/// The number of ones that end `s`.
pub open spec fn trailing_ones(s: Seq<bool>) -> nat
    decreases s.len(),
{
    if s.len() == 0 || !s.last() {
        0
    } else {
        1 + trailing_ones(s.drop_last())
    }
}

proof fn lemma_trailing_ones_push(s: Seq<bool>, b: bool)
    ensures
        trailing_ones(s.push(b)) == if b {
            trailing_ones(s) + 1
        } else {
            0
        },
{
    assert(s.push(b).drop_last() =~= s);
}

/// A stuffed stream never holds more than six ones in a row (every prefix
/// ends in at most six), so the line never goes more than six bit times
/// without a transition; the stream also ends in as many ones as the
/// stuffing state counts.
pub proof fn lemma_stuff_run_bound(bits: Seq<bool>)
    ensures
        forall|k: int|
            0 <= k <= stuff(bits).len() ==> #[trigger] trailing_ones(stuff(bits).subrange(0, k))
                <= MAX_ONES,
        trailing_ones(stuff(bits)) == stuff_state(bits).1,
    decreases bits.len(),
{
    if bits.len() > 0 {
        let pre = bits.drop_last();
        let (out, run) = stuff_state(pre);
        lemma_stuff_run_bound(pre);
        lemma_stuff_state_run(pre);
        let o = stuff(bits);
        let n: int = out.len() as int;
        assert(forall|k: int| 0 <= k <= out.len() ==> #[trigger] o.subrange(0, k) == out.subrange(0, k)) by {
            assert forall|k: int| 0 <= k <= out.len() implies #[trigger] o.subrange(0, k)
                == out.subrange(0, k) by {
                assert(o.subrange(0, k) =~= out.subrange(0, k));
            }
        }
        assert(out.subrange(0, out.len() as int) =~= out);
        if bits.last() {
            lemma_trailing_ones_push(out, true);
            assert(o.subrange(0, n + 1) =~= out.push(true));
            if run + 1 == MAX_ONES {
                lemma_trailing_ones_push(out.push(true), false);
                assert(o.subrange(0, n + 2) =~= o);
            } else {
                assert(o.subrange(0, n + 1) =~= o);
            }
        } else {
            lemma_trailing_ones_push(out, false);
            assert(o.subrange(0, n + 1) =~= o);
        }
        assert forall|k: int| 0 <= k <= o.len() implies #[trigger] trailing_ones(o.subrange(0, k))
            <= MAX_ONES by {
            if k <= out.len() {
                assert(o.subrange(0, k) == out.subrange(0, k));
            }
        }
    }
}

/// Appends the eight bits of `x`, least significant first.
pub fn push_byte_bits(out: &mut Vec<bool>, x: u8)
    ensures
        final(out)@ == old(out)@ + bits_of_byte(x),
{
    let ghost start = out@;
    let mut i: u8 = 0;
    while i < 8
        invariant
            i <= 8,
            out@ == start + bits_of_byte(x).subrange(0, i as int),
        decreases 8 - i,
    {
        out.push((x >> i) & 1 == 1);
        i = i + 1;
        assert(out@ =~= start + bits_of_byte(x).subrange(0, i as int));
    }
    assert(bits_of_byte(x).subrange(0, 8) =~= bits_of_byte(x));
}

/// The bits of a byte string, least significant bit of each byte first.
pub fn bytes_to_bits(bs: &[u8]) -> (r: Vec<bool>)
    ensures
        r@ == bits_of_bytes(bs@),
{
    let mut out: Vec<bool> = Vec::new();
    let mut i: usize = 0;
    while i < bs.len()
        invariant
            i <= bs@.len(),
            out@ == bits_of_bytes(bs@.subrange(0, i as int)),
        decreases bs@.len() - i,
    {
        proof {
            assert(bs@.subrange(0, i + 1) =~= bs@.subrange(0, i as int).push(bs@[i as int]));
            lemma_bits_of_bytes_push(bs@.subrange(0, i as int), bs@[i as int]);
        }
        push_byte_bits(&mut out, bs[i]);
        i = i + 1;
    }
    assert(bs@.subrange(0, bs@.len() as int) =~= bs@);
    out
}

/// The bytes spelled by a bit string whose length is a whole number of bytes.
pub fn bits_to_bytes(bits: &Vec<bool>) -> (r: Vec<u8>)
    requires
        bits@.len() % 8 == 0,
    ensures
        r@ == bytes_of_bits(bits@),
{
    let mut out: Vec<u8> = Vec::new();
    let mut i: usize = 0;
    while i < bits.len()
        invariant
            i <= bits@.len(),
            i % 8 == 0,
            bits@.len() % 8 == 0,
            out@ == bytes_of_bits(bits@.subrange(0, i as int)),
        decreases bits@.len() - i,
    {
        let b: u8 = (if bits[i] { 1u8 } else { 0u8 }) | (if bits[i + 1] { 2u8 } else { 0u8 }) | (
        if bits[i + 2] { 4u8 } else { 0u8 }) | (if bits[i + 3] { 8u8 } else { 0u8 }) | (
        if bits[i + 4] { 16u8 } else { 0u8 }) | (if bits[i + 5] { 32u8 } else { 0u8 }) | (
        if bits[i + 6] { 64u8 } else { 0u8 }) | (if bits[i + 7] { 128u8 } else { 0u8 });
        proof {
            let next = bits@.subrange(0, i + 8);
            assert(next.subrange(0, next.len() - 8) =~= bits@.subrange(0, i as int));
            assert(next.subrange(next.len() - 8, next.len() as int) =~= bits@.subrange(
                i as int,
                i + 8,
            ));
            assert(b == byte_of_bits(bits@.subrange(i as int, i + 8)));
        }
        out.push(b);
        i = i + 8;
    }
    assert(bits@.subrange(0, bits@.len() as int) =~= bits@);
    out
}

/// Inserts a zero after every run of six ones.
pub fn stuff_bits(bits: &Vec<bool>) -> (r: Vec<bool>)
    ensures
        r@ == stuff(bits@),
{
    let mut out: Vec<bool> = Vec::new();
    let mut run: usize = 0;
    let mut i: usize = 0;
    while i < bits.len()
        invariant
            i <= bits@.len(),
            (out@, run as nat) == stuff_state(bits@.subrange(0, i as int)),
            run < MAX_ONES,
        decreases bits@.len() - i,
    {
        proof {
            assert(bits@.subrange(0, i + 1).drop_last() =~= bits@.subrange(0, i as int));
        }
        if bits[i] {
            out.push(true);
            if run + 1 == MAX_ONES {
                out.push(false);
                run = 0;
            } else {
                run = run + 1;
            }
        } else {
            out.push(false);
            run = 0;
        }
        i = i + 1;
    }
    assert(bits@.subrange(0, bits@.len() as int) =~= bits@);
    out
}

/// Removes the zero that follows every run of six ones; `None` where a one
/// stands in its place.
pub fn unstuff_bits(bits: &Vec<bool>) -> (r: Option<Vec<bool>>)
    ensures
        match r {
            Some(v) => unstuff(bits@) == Some(v@),
            None => unstuff(bits@) is None,
        },
{
    let mut out: Vec<bool> = Vec::new();
    let mut run: usize = 0;
    let mut i: usize = 0;
    while i < bits.len()
        invariant
            i <= bits@.len(),
            unstuff_state(bits@.subrange(0, i as int)) == Some((out@, run as nat)),
            run <= MAX_ONES,
        decreases bits@.len() - i,
    {
        proof {
            assert(bits@.subrange(0, i + 1).drop_last() =~= bits@.subrange(0, i as int));
        }
        if run == MAX_ONES {
            if bits[i] {
                proof {
                    lemma_unstuff_invalid_extends(bits@, i as int + 1);
                }
                return None;
            }
            run = 0;
        } else if bits[i] {
            out.push(true);
            run = run + 1;
        } else {
            out.push(false);
            run = 0;
        }
        i = i + 1;
    }
    assert(bits@.subrange(0, bits@.len() as int) =~= bits@);
    Some(out)
}

/// Once a prefix is invalid, so is the whole stream.
proof fn lemma_unstuff_invalid_extends(bits: Seq<bool>, k: int)
    requires
        0 <= k <= bits.len(),
        unstuff_state(bits.subrange(0, k)) is None,
    ensures
        unstuff(bits) is None,
    decreases bits.len() - k,
{
    if k < bits.len() {
        assert(bits.subrange(0, k + 1).drop_last() =~= bits.subrange(0, k));
        lemma_unstuff_invalid_extends(bits, k + 1);
    } else {
        assert(bits.subrange(0, k) =~= bits);
    }
}

} // verus!
