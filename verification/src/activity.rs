//! Empirical per-bit activity of a sequence of payloads.
use vstd::prelude::*;

use crate::bits::bit_value;

verus! {

/// Measured activity of one payload bit.
#[derive(Debug, Clone, Copy, PartialEq, Eq, Structural)]
pub struct BitActivityCell {
    pub bit: u32,
    /// Frames (covering this bit) where the bit was 1 / 0.
    pub ones: u64,
    pub zeros: u64,
    /// Value changes between consecutive frames covering the bit.
    pub transitions: u64,
}

#[derive(Debug, Clone, Copy, PartialEq, Eq, Structural)]
pub enum BitState {
    Always0,
    Always1,
    Toggles,
    /// No frame covered this bit (payload shorter than DLC area displayed).
    Unobserved,
}

/// State of a bit from its counts.
pub open spec fn spec_state(c: BitActivityCell) -> BitState {
    if c.ones == 0 && c.zeros == 0 {
        BitState::Unobserved
    } else if c.ones == 0 {
        BitState::Always0
    } else if c.zeros == 0 {
        BitState::Always1
    } else {
        BitState::Toggles
    }
}

impl BitActivityCell {
    pub fn state(&self) -> (s: BitState)
        ensures
            s == spec_state(*self),
    {
        if self.ones == 0 && self.zeros == 0 {
            BitState::Unobserved
        } else if self.ones == 0 {
            BitState::Always0
        } else if self.zeros == 0 {
            BitState::Always1
        } else {
            BitState::Toggles
        }
    }
}

/// The payload is long enough to hold `bit`.
pub open spec fn covers(p: Seq<u8>, bit: u32) -> bool {
    (bit / 8) < p.len()
}

/// Payloads covering `bit` where it is 1.
pub open spec fn count_ones(ps: Seq<Seq<u8>>, bit: u32) -> nat
    decreases ps.len(),
{
    if ps.len() == 0 {
        0
    } else {
        count_ones(ps.drop_last(), bit) + if covers(ps.last(), bit) && bit_value(ps.last(), bit)
            == 1 {
            1nat
        } else {
            0nat
        }
    }
}

/// Payloads covering `bit` where it is 0.
pub open spec fn count_zeros(ps: Seq<Seq<u8>>, bit: u32) -> nat
    decreases ps.len(),
{
    if ps.len() == 0 {
        0
    } else {
        count_zeros(ps.drop_last(), bit) + if covers(ps.last(), bit) && bit_value(ps.last(), bit)
            == 0 {
            1nat
        } else {
            0nat
        }
    }
}

/// Value of `bit` in the last payload that covers it.
pub open spec fn last_value(ps: Seq<Seq<u8>>, bit: u32) -> Option<nat>
    decreases ps.len(),
{
    if ps.len() == 0 {
        None
    } else if covers(ps.last(), bit) {
        Some(bit_value(ps.last(), bit))
    } else {
        last_value(ps.drop_last(), bit)
    }
}

/// Value changes of `bit` between consecutive covering payloads.
pub open spec fn count_transitions(ps: Seq<Seq<u8>>, bit: u32) -> nat
    decreases ps.len(),
{
    if ps.len() == 0 {
        0
    } else {
        count_transitions(ps.drop_last(), bit) + if covers(ps.last(), bit) && last_value(
            ps.drop_last(),
            bit,
        ) is Some && last_value(ps.drop_last(), bit).unwrap() != bit_value(ps.last(), bit) {
            1nat
        } else {
            0nat
        }
    }
}

/// The activity cell of `bit` over the payloads.
pub open spec fn spec_cell(ps: Seq<Seq<u8>>, bit: u32) -> BitActivityCell {
    BitActivityCell {
        bit,
        ones: count_ones(ps, bit) as u64,
        zeros: count_zeros(ps, bit) as u64,
        transitions: count_transitions(ps, bit) as u64,
    }
}

/// Cells for bits `0 .. span`.
pub open spec fn spec_bit_activity(ps: Seq<Seq<u8>>, span: u32) -> Seq<BitActivityCell> {
    Seq::new(span as nat, |b: int| spec_cell(ps, b as u32))
}

/// Counts never exceed the number of payloads.
pub proof fn lemma_counts_bounded(ps: Seq<Seq<u8>>, bit: u32)
    ensures
        count_ones(ps, bit) + count_zeros(ps, bit) <= ps.len(),
        count_transitions(ps, bit) <= ps.len(),
    decreases ps.len(),
{
    if ps.len() > 0 {
        lemma_counts_bounded(ps.drop_last(), bit);
    }
}

/// A bit is never 1 (resp. 0) exactly when no covering payload has it 1 (resp. 0).
pub proof fn lemma_counts_zero(ps: Seq<Seq<u8>>, bit: u32)
    ensures
        (count_ones(ps, bit) == 0) == (forall|k: int|
            0 <= k < ps.len() && covers(#[trigger] ps[k], bit) ==> bit_value(ps[k], bit) != 1),
        (count_zeros(ps, bit) == 0) == (forall|k: int|
            0 <= k < ps.len() && covers(#[trigger] ps[k], bit) ==> bit_value(ps[k], bit) != 0),
    decreases ps.len(),
{
    if ps.len() > 0 {
        let pre = ps.drop_last();
        lemma_counts_zero(pre, bit);
        assert forall|k: int| 0 <= k < pre.len() implies pre[k] == ps[k] by {}
        if count_ones(ps, bit) == 0 {
            assert forall|k: int| 0 <= k < ps.len() && covers(#[trigger] ps[k], bit) implies bit_value(
                ps[k],
                bit,
            ) != 1 by {
                if k < pre.len() {
                    assert(pre[k] == ps[k]);
                }
            }
        }
        if count_zeros(ps, bit) == 0 {
            assert forall|k: int| 0 <= k < ps.len() && covers(#[trigger] ps[k], bit) implies bit_value(
                ps[k],
                bit,
            ) != 0 by {
                if k < pre.len() {
                    assert(pre[k] == ps[k]);
                }
            }
        }
        if count_ones(ps, bit) != 0 && count_ones(pre, bit) == 0 {
            assert(covers(ps[ps.len() - 1], bit) && bit_value(ps[ps.len() - 1], bit) == 1);
        }
        if count_zeros(ps, bit) != 0 && count_zeros(pre, bit) == 0 {
            assert(covers(ps[ps.len() - 1], bit) && bit_value(ps[ps.len() - 1], bit) == 0);
        }
        if count_ones(pre, bit) != 0 {
            let k = choose|k: int|
                0 <= k < pre.len() && covers(pre[k], bit) && bit_value(pre[k], bit) == 1;
            assert(ps[k] == pre[k]);
        }
        if count_zeros(pre, bit) != 0 {
            let k = choose|k: int|
                0 <= k < pre.len() && covers(pre[k], bit) && bit_value(pre[k], bit) == 0;
            assert(ps[k] == pre[k]);
        }
    }
}

/// The payloads of the frames at `idx`.
pub open spec fn payloads_at(datas: Seq<Seq<u8>>, idx: Seq<usize>) -> Seq<Seq<u8>> {
    Seq::new(idx.len(), |a: int| datas[idx[a] as int])
}

fn read_bit(p: &[u8], bit: u32) -> (r: Option<u8>)
    ensures
        r == if covers(p@, bit) {
            Some(bit_value(p@, bit) as u8)
        } else {
            None
        },
        r matches Some(v) ==> v <= 1,
{
    let byte = (bit / 8) as usize;
    if byte >= p.len() {
        return None;
    }
    let x = p[byte];
    let sh = (bit % 8) as u8;
    let v = (x >> sh) & 1u8;
    assert(v <= 1u8) by (bit_vector)
        requires
            v == (x >> sh) & 1u8,
    ;
    Some(v)
}

/// Compute per-bit activity over `bit_span` bits of the payloads, in order.
pub fn bit_activity(payloads: &[&[u8]], bit_span: u32) -> (cells: Vec<BitActivityCell>)
    ensures
        cells@ == spec_bit_activity(payloads@.map_values(|p: &[u8]| p@), bit_span),
{
    let ghost pv = payloads@.map_values(|p: &[u8]| p@);
    let mut cells: Vec<BitActivityCell> = Vec::new();
    let mut previous: Vec<Option<u8>> = Vec::new();
    let mut b: u32 = 0;
    while b < bit_span
        invariant
            b <= bit_span,
            cells@.len() == b,
            previous@.len() == b,
            forall|k: int|
                0 <= k < b ==> (#[trigger] cells@[k]) == spec_cell(pv.subrange(0, 0), k as u32),
            forall|k: int| 0 <= k < b ==> (#[trigger] previous@[k]) is None,
        decreases bit_span - b,
    {
        cells.push(BitActivityCell { bit: b, ones: 0, zeros: 0, transitions: 0 });
        previous.push(None);
        b = b + 1;
    }
    let mut f: usize = 0;
    let n = payloads.len();
    while f < n
        invariant
            pv == payloads@.map_values(|p: &[u8]| p@),
            n == payloads@.len(),
            f <= pv.len(),
            cells@.len() == bit_span,
            previous@.len() == bit_span,
            forall|k: int|
                0 <= k < bit_span ==> (#[trigger] cells@[k]) == spec_cell(
                    pv.subrange(0, f as int),
                    k as u32,
                ),
            forall|k: int|
                0 <= k < bit_span ==> match (#[trigger] previous@[k]) {
                    Some(v) => last_value(pv.subrange(0, f as int), k as u32) == Some(v as nat),
                    None => last_value(pv.subrange(0, f as int), k as u32) is None,
                },
        decreases n - f,
    {
        let p = payloads[f];
        let ghost pre = pv.subrange(0, f as int);
        let ghost post = pv.subrange(0, f + 1);
        assert(post.drop_last() =~= pre);
        assert(post.last() == p@);
        let mut b: u32 = 0;
        while b < bit_span
            invariant
                pv == payloads@.map_values(|p: &[u8]| p@),
                f < pv.len(),
                n == payloads@.len(),
                f < n,
                pre == pv.subrange(0, f as int),
                post == pv.subrange(0, f + 1),
                post.drop_last() == pre,
                post.last() == p@,
                b <= bit_span,
                cells@.len() == bit_span,
                previous@.len() == bit_span,
                forall|k: int|
                    b <= k < bit_span ==> (#[trigger] cells@[k]) == spec_cell(pre, k as u32),
                forall|k: int|
                    0 <= k < b ==> (#[trigger] cells@[k]) == spec_cell(post, k as u32),
                forall|k: int|
                    b <= k < bit_span ==> match (#[trigger] previous@[k]) {
                        Some(v) => last_value(pre, k as u32) == Some(v as nat),
                        None => last_value(pre, k as u32) is None,
                    },
                forall|k: int|
                    0 <= k < b ==> match (#[trigger] previous@[k]) {
                        Some(v) => last_value(post, k as u32) == Some(v as nat),
                        None => last_value(post, k as u32) is None,
                    },
            decreases bit_span - b,
        {
            let cell = cells[b as usize];
            let prev = previous[b as usize];
            proof {
                lemma_counts_bounded(post, b);
                lemma_counts_bounded(pre, b);
                assert(pre.len() == f);
                assert(f < n);
                assert(cell == spec_cell(pre, b));
            }
            match read_bit(p, b) {
                None => {},
                Some(value) => {
                    let ones = if value == 1 {
                        cell.ones + 1
                    } else {
                        cell.ones
                    };
                    let zeros = if value == 1 {
                        cell.zeros
                    } else {
                        cell.zeros + 1
                    };
                    let transitions = match prev {
                        Some(pv_) => if pv_ != value {
                            cell.transitions + 1
                        } else {
                            cell.transitions
                        },
                        None => cell.transitions,
                    };
                    cells.set(b as usize, BitActivityCell { bit: b, ones, zeros, transitions });
                    previous.set(b as usize, Some(value));
                },
            }
            b = b + 1;
        }
        f = f + 1;
    }
    assert(pv.subrange(0, pv.len() as int) =~= pv);
    assert(cells@ =~= spec_bit_activity(pv, bit_span));
    cells
}

} // verus!
