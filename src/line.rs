//! Line states of the differential pair and NRZI coding.
use vstd::prelude::*;

verus! {

/// A sample of the D+/D- pair: the two idle-polarity states, or both lines
/// low (single-ended zero, end of packet or bus idle).
#[derive(Clone, Copy, Debug, PartialEq, Eq, Structural)]
pub enum Line {
    J,
    K,
    Se0,
}

/// The opposite differential state.
pub open spec fn flip(l: Line) -> Line {
    match l {
        Line::J => Line::K,
        Line::K => Line::J,
        Line::Se0 => Line::Se0,
    }
}

/// NRZI: a one keeps the line as it is, a zero toggles it.
pub open spec fn nrzi_encode(start: Line, bits: Seq<bool>) -> Seq<Line>
    decreases bits.len(),
{
    if bits.len() == 0 {
        seq![]
    } else {
        let pre = nrzi_encode(start, bits.drop_last());
        let last = if pre.len() == 0 {
            start
        } else {
            pre.last()
        };
        pre.push(
            if bits.last() {
                last
            } else {
                flip(last)
            },
        )
    }
}

/// NRZI decoding of differential samples that follow `prev`: no transition
/// is a one, a transition is a zero.
pub open spec fn nrzi_decode(prev: Line, s: Seq<Line>) -> Seq<bool> {
    Seq::new(
        s.len(),
        |i: int|
            s[i] == (if i == 0 {
                prev
            } else {
                s[i - 1]
            }),
    )
}

pub proof fn lemma_nrzi_encode_len(start: Line, bits: Seq<bool>)
    ensures
        nrzi_encode(start, bits).len() == bits.len(),
    decreases bits.len(),
{
    if bits.len() > 0 {
        lemma_nrzi_encode_len(start, bits.drop_last());
    }
}

/// NRZI decoding undoes encoding, and an encoding never drives a
/// single-ended zero.
pub proof fn lemma_nrzi_round_trip(start: Line, bits: Seq<bool>)
    requires
        start != Line::Se0,
    ensures
        nrzi_decode(start, nrzi_encode(start, bits)) == bits,
        forall|i: int|
            0 <= i < bits.len() ==> #[trigger] nrzi_encode(start, bits)[i] != Line::Se0,
    decreases bits.len(),
{
    lemma_nrzi_encode_len(start, bits);
    if bits.len() > 0 {
        let pre = bits.drop_last();
        lemma_nrzi_round_trip(start, pre);
        lemma_nrzi_encode_len(start, pre);
        let e = nrzi_encode(start, bits);
        let ep = nrzi_encode(start, pre);
        assert(e.drop_last() =~= ep);
        assert forall|i: int| 0 <= i < bits.len() implies e[i] != Line::Se0 by {
            if i < pre.len() {
                assert(e[i] == ep[i]);
            }
        }
        assert(nrzi_decode(start, e) =~= bits) by {
            assert forall|i: int| 0 <= i < bits.len() implies nrzi_decode(start, e)[i]
                == bits[i] by {
                if i < pre.len() {
                    assert(e[i] == ep[i]);
                    if i > 0 {
                        assert(e[i - 1] == ep[i - 1]);
                    }
                    assert(nrzi_decode(start, ep)[i] == pre[i]);
                } else if i > 0 {
                    assert(e[i - 1] == ep[i - 1]);
                }
            }
        }
    }
}

/// NRZI encoding of `bits` on a line that stands at `start`.
pub fn nrzi_encode_bits(start: Line, bits: &Vec<bool>) -> (r: Vec<Line>)
    ensures
        r@ == nrzi_encode(start, bits@),
{
    let mut out: Vec<Line> = Vec::new();
    let mut level = start;
    let mut i: usize = 0;
    while i < bits.len()
        invariant
            i <= bits@.len(),
            out@ == nrzi_encode(start, bits@.subrange(0, i as int)),
            level == (if i == 0 {
                start
            } else {
                out@.last()
            }),
        decreases bits@.len() - i,
    {
        proof {
            assert(bits@.subrange(0, i + 1).drop_last() =~= bits@.subrange(0, i as int));
            lemma_nrzi_encode_len(start, bits@.subrange(0, i as int));
        }
        if !bits[i] {
            level = match level {
                Line::J => Line::K,
                Line::K => Line::J,
                Line::Se0 => Line::Se0,
            };
        }
        out.push(level);
        i = i + 1;
    }
    assert(bits@.subrange(0, bits@.len() as int) =~= bits@);
    out
}

} // verus!
