//! The receive path: from line samples, one per bit time, to the bytes of a
//! packet (PID first).
use vstd::prelude::*;
use crate::bits::{bits_to_bytes, bytes_of_bits, unstuff, unstuff_bits};
use crate::line::{nrzi_decode, Line};

verus! {

/// Capacity of the packet buffer in bytes, PID included.
pub const MAX_PACKET: usize = 12;

/// The first eight samples are the sync pattern: seven alternations of the
/// differential pair, then a repeated state (`KJKJKJKK`).
pub open spec fn sync_ok(s: Seq<Line>) -> bool {
    &&& s.len() >= 8
    &&& forall|i: int| 0 <= i < 8 ==> s[i] != Line::Se0
    &&& forall|i: int| 1 <= i < 7 ==> #[trigger] s[i] != s[i - 1]
    &&& s[7] == s[6]
}

/// Index of the first single-ended zero at or after `i`; `s.len()` if none.
pub open spec fn first_se0(s: Seq<Line>, i: int) -> int
    decreases s.len() - i,
{
    if i >= s.len() {
        s.len() as int
    } else if s[i] == Line::Se0 {
        i
    } else {
        first_se0(s, i + 1)
    }
}

/// The packet that a run of samples carries: after the sync pattern, the
/// NRZI-coded, bit-stuffed bits up to the first single-ended zero, which
/// must make up between one and `MAX_PACKET` whole bytes. `None` for a bad
/// sync, a missing end of packet, a stuffing violation or a bad length.
pub open spec fn receive_spec(s: Seq<Line>) -> Option<Seq<u8>> {
    if !sync_ok(s) {
        None
    } else {
        let e = first_se0(s, 8);
        if e >= s.len() {
            None
        } else {
            match unstuff(nrzi_decode(s[7], s.subrange(8, e))) {
                None => None,
                Some(bits) => if bits.len() % 8 == 0 && 8 <= bits.len() <= 8 * MAX_PACKET {
                    Some(bytes_of_bits(bits))
                } else {
                    None
                },
            }
        }
    }
}

pub proof fn lemma_first_se0(s: Seq<Line>, k: int, i: int)
    requires
        0 <= k <= i <= s.len(),
        forall|j: int| k <= j < i ==> s[j] != Line::Se0,
        i == s.len() || s[i] == Line::Se0,
    ensures
        first_se0(s, k) == i,
    decreases i - k,
{
    if k < i {
        lemma_first_se0(s, k + 1, i);
    }
}

/// No single-ended zero in `s[k..i]` puts the first one at `i` or later.
pub proof fn lemma_first_se0_at_least(s: Seq<Line>, k: int, i: int)
    requires
        0 <= k <= i <= s.len(),
        forall|j: int| k <= j < i ==> s[j] != Line::Se0,
    ensures
        first_se0(s, k) >= i,
    decreases i - k,
{
    if k < i {
        lemma_first_se0_at_least(s, k + 1, i);
    } else {
        lemma_first_se0_from(s, k);
    }
}

proof fn lemma_first_se0_from(s: Seq<Line>, k: int)
    requires
        0 <= k <= s.len(),
    ensures
        k <= first_se0(s, k) <= s.len(),
    decreases s.len() - k,
{
    if k < s.len() && s[k] != Line::Se0 {
        lemma_first_se0_from(s, k + 1);
    }
}

/// A single-ended zero among the first eight samples, before the sync
/// pattern could be complete.
pub open spec fn se0_in_sync(s: Seq<Line>) -> bool {
    first_se0(s, 0) < 8 && first_se0(s, 0) < s.len()
}

/// Whether a single-ended zero comes before the sync pattern is complete
/// (within the first eight samples).
pub fn se0_before_sync(samples: &[Line]) -> (r: bool)
    ensures
        r == se0_in_sync(samples@),
{
    let mut k: usize = 0;
    while k < 8 && k < samples.len()
        invariant
            k <= 8,
            k <= samples@.len(),
            forall|j: int| 0 <= j < k ==> samples@[j] != Line::Se0,
        decreases 8 - k,
    {
        if samples[k] == Line::Se0 {
            proof {
                lemma_first_se0(samples@, 0, k as int);
            }
            return true;
        }
        k = k + 1;
    }
    proof {
        lemma_first_se0_from(samples@, 0);
        lemma_first_se0_at_least(samples@, 0, k as int);
    }
    false
}

/// Decodes the packet carried by `samples`, as `receive_spec` says.
pub fn receive(samples: &[Line]) -> (r: Option<Vec<u8>>)
    ensures
        match r {
            Some(v) => receive_spec(samples@) == Some(v@),
            None => receive_spec(samples@) is None,
        },
{
    if samples.len() < 8 {
        return None;
    }
    let mut k: usize = 0;
    while k < 8
        invariant
            samples@.len() >= 8,
            k <= 8,
            forall|i: int| 0 <= i < k ==> samples@[i] != Line::Se0,
            forall|i: int| 1 <= i < k && i < 7 ==> #[trigger] samples@[i] != samples@[i - 1],
        decreases 8 - k,
    {
        if samples[k] == Line::Se0 {
            return None;
        }
        if k >= 1 && k < 7 && samples[k] == samples[k - 1] {
            return None;
        }
        k = k + 1;
    }
    if samples[7] != samples[6] {
        return None;
    }
    let mut raw: Vec<bool> = Vec::new();
    let mut i: usize = 8;
    while i < samples.len() && samples[i] != Line::Se0
        invariant
            8 <= i <= samples@.len(),
            forall|j: int| 8 <= j < i ==> samples@[j] != Line::Se0,
            raw@ == nrzi_decode(samples@[7], samples@.subrange(8, i as int)),
        decreases samples@.len() - i,
    {
        raw.push(samples[i] == samples[i - 1]);
        i = i + 1;
        assert(raw@ =~= nrzi_decode(samples@[7], samples@.subrange(8, i as int)));
    }
    proof {
        lemma_first_se0(samples@, 8, i as int);
    }
    if i == samples.len() {
        return None;
    }
    match unstuff_bits(&raw) {
        None => None,
        Some(bits) => {
            if bits.len() % 8 == 0 && 8 <= bits.len() && bits.len() <= 8 * MAX_PACKET {
                Some(bits_to_bytes(&bits))
            } else {
                None
            }
        },
    }
}

} // verus!
