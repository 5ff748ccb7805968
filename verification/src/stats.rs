//! Aggregate statistics over captured frames: distinct IDs, the recent
//! window that rates are measured over, and the DLC census of one ID.
//!
//! Rates, averages and confidences are ratios of the integers reported
//! here; they are left to the caller as floating-point values.
use vstd::prelude::*;

use crate::filter::count_key;
use crate::frame::{key_of, CanFrameDto};

verus! {

/// Frames counted in the recent window.
pub const RECENT_WINDOW: usize = 100;

/// Integer frame statistics.
#[derive(Debug, Clone, Copy, PartialEq, Eq, Structural)]
pub struct FrameStats {
    /// Number of distinct CAN ID values.
    pub unique_messages: usize,
    /// Frames in the recent window: the last `RECENT_WINDOW` frames (or all).
    pub recent_frames: usize,
    /// Last minus first timestamp of the recent window, in microseconds (0
    /// when it holds fewer than two frames). The frame rate is
    /// `(recent_frames - 1) / span` when the span is positive, else 0.
    pub recent_span_us: i128,
}

/// DLC census of one ID.
#[derive(Debug, Clone, Copy, PartialEq, Eq, Structural)]
pub struct DlcDetectionResult {
    /// A most common DLC among the ID's frames (8 when there are none).
    pub detected_dlc: u8,
    /// Frames of the ID carrying `detected_dlc`; the confidence is
    /// `dlc_frames / sample_count`.
    pub dlc_frames: usize,
    /// Frames of the ID.
    pub sample_count: usize,
}

pub open spec fn can_ids(frames: Seq<CanFrameDto>) -> Set<u32> {
    frames.map_values(|f: CanFrameDto| f.can_id).to_set()
}

pub open spec fn recent_len(n: nat) -> nat {
    if n < RECENT_WINDOW {
        n
    } else {
        RECENT_WINDOW as nat
    }
}

pub open spec fn recent_span(frames: Seq<CanFrameDto>) -> int {
    let r = recent_len(frames.len());
    if r >= 2 {
        frames[frames.len() - 1].timestamp_us - frames[frames.len() - r].timestamp_us
    } else {
        0
    }
}

/// Frames with `key` and DLC `dlc`.
pub open spec fn dlc_count(frames: Seq<CanFrameDto>, key: (u32, bool), dlc: u8) -> nat
    decreases frames.len(),
{
    if frames.len() == 0 {
        0
    } else {
        dlc_count(frames.drop_last(), key, dlc) + if key_of(frames.last()) == key && frames.last().dlc
            == dlc {
            1nat
        } else {
            0nat
        }
    }
}

proof fn lemma_dlc_count_step(frames: Seq<CanFrameDto>, k: int, key: (u32, bool), dlc: u8)
    requires
        0 <= k < frames.len(),
    ensures
        dlc_count(frames.take(k + 1), key, dlc) == dlc_count(frames.take(k), key, dlc) + if key_of(
            frames[k],
        ) == key && frames[k].dlc == dlc {
            1nat
        } else {
            0nat
        },
        count_key(frames.take(k + 1), key) == count_key(frames.take(k), key) + if key_of(frames[k])
            == key {
            1nat
        } else {
            0nat
        },
{
    assert(frames.take(k + 1).drop_last() =~= frames.take(k));
}

/// Frame statistics: distinct CAN IDs and the recent window.
pub fn calculate_frame_stats(frames: Vec<CanFrameDto>) -> (stats: FrameStats)
    ensures
        stats.unique_messages == can_ids(frames@).len(),
        stats.recent_frames == recent_len(frames@.len()),
        stats.recent_span_us == recent_span(frames@),
{
    let ghost all = frames@.map_values(|f: CanFrameDto| f.can_id);
    let mut ids: Vec<u32> = Vec::new();
    let mut k: usize = 0;
    while k < frames.len()
        invariant
            all == frames@.map_values(|f: CanFrameDto| f.can_id),
            k <= frames@.len(),
            ids@.no_duplicates(),
            forall|x: u32| #[trigger] ids@.contains(x) <==> all.take(k as int).contains(x),
        decreases frames.len() - k,
    {
        let id = frames[k].can_id;
        let mut g: usize = 0;
        while g < ids.len() && ids[g] != id
            invariant
                g <= ids@.len(),
                forall|h: int| 0 <= h < g ==> ids@[h] != id,
            decreases ids.len() - g,
        {
            g = g + 1;
        }
        proof {
            assert(all.take(k + 1) =~= all.take(k as int).push(id));
            assert(all.take(k + 1)[k as int] == id);
        }
        let ghost before = ids@;
        assert(forall|x: u32| #[trigger] before.contains(x) <==> all.take(k as int).contains(x));
        if g == ids.len() {
            ids.push(id);
            proof {
                assert(!before.contains(id));
                assert(ids@ == before.push(id));
                assert forall|x: u32| #[trigger] ids@.contains(x) <==> all.take(k + 1).contains(x) by {
                    if x == id {
                        assert(ids@[before.len() as int] == x);
                    } else {
                        if ids@.contains(x) {
                            let j = choose|j: int| 0 <= j < ids@.len() && #[trigger] ids@[j] == x;
                            assert(before[j] == x);
                            assert(before.contains(x));
                            let j2 = choose|j2: int| 0 <= j2 < k && #[trigger] all.take(k as int)[j2] == x;
                            assert(all.take(k + 1)[j2] == x);
                        }
                        if all.take(k + 1).contains(x) {
                            let j = choose|j: int| 0 <= j < k + 1 && #[trigger] all.take(k + 1)[j] == x;
                            assert(all.take(k as int)[j] == x);
                            assert(all.take(k as int).contains(x));
                            assert(before.contains(x));
                            let i = choose|i: int| 0 <= i < before.len() && #[trigger] before[i] == x;
                            assert(ids@[i] == x);
                        }
                    }
                }
            }
        } else {
            proof {
                assert(ids@[g as int] == id);
                assert forall|x: u32| #[trigger] ids@.contains(x) <==> all.take(k + 1).contains(x) by {
                    if x != id {
                        if all.take(k + 1).contains(x) {
                            let j = choose|j: int| 0 <= j < k + 1 && #[trigger] all.take(k + 1)[j] == x;
                            assert(all.take(k as int)[j] == x);
                        }
                        if all.take(k as int).contains(x) {
                            let j = choose|j: int| 0 <= j < k && #[trigger] all.take(k as int)[j] == x;
                            assert(all.take(k + 1)[j] == x);
                        }
                    } else {
                        assert(all.take(k + 1)[k as int] == x);
                    }
                }
            }
        }
        k = k + 1;
    }
    proof {
        assert(all.take(frames@.len() as int) =~= all);
        assert(ids@.to_set() =~= can_ids(frames@));
        ids@.unique_seq_to_set();
    }
    let n = frames.len();
    let recent: usize = if n < RECENT_WINDOW {
        n
    } else {
        RECENT_WINDOW
    };
    let span: i128 = if recent >= 2 {
        frames[n - 1].timestamp_us as i128 - frames[n - recent].timestamp_us as i128
    } else {
        0
    };
    FrameStats { unique_messages: ids.len(), recent_frames: recent, recent_span_us: span }
}

/// DLC census of the frames of `(can_id, is_extended)`: a most common DLC,
/// how many frames carry it, and how many frames the ID has.
pub fn detect_dlc(frames: Vec<CanFrameDto>, can_id: u32, is_extended: bool) -> (r: DlcDetectionResult)
    ensures
        r.sample_count == count_key(frames@, (can_id, is_extended)),
        r.sample_count == 0 ==> r.detected_dlc == 8 && r.dlc_frames == 0,
        r.sample_count > 0 ==> r.dlc_frames == dlc_count(frames@, (can_id, is_extended), r.detected_dlc)
            && r.dlc_frames > 0,
        r.dlc_frames <= r.sample_count,
        forall|d: u8| dlc_count(frames@, (can_id, is_extended), d) <= r.dlc_frames,
{
    let ghost key = (can_id, is_extended);
    let mut counts: Vec<usize> = Vec::new();
    let mut d: usize = 0;
    while d < 256
        invariant
            d <= 256,
            counts@.len() == d,
            forall|e: int| 0 <= e < d ==> counts@[e] == 0,
        decreases 256 - d,
    {
        counts.push(0);
        d = d + 1;
    }
    let mut total: usize = 0;
    let ghost mut seen: u8 = 0;
    let mut k: usize = 0;
    while k < frames.len()
        invariant
            key == (can_id, is_extended),
            k <= frames@.len(),
            counts@.len() == 256,
            total == count_key(frames@.take(k as int), key),
            total <= k,
            forall|e: u8| #[trigger] counts@[e as int] == dlc_count(frames@.take(k as int), key, e),
            total > 0 ==> counts@[seen as int] > 0,
        decreases frames.len() - k,
    {
        proof {
            assert forall|e: u8| true implies #[trigger] dlc_count(frames@.take(k + 1), key, e) == dlc_count(
                frames@.take(k as int),
                key,
                e,
            ) + if key_of(frames@[k as int]) == key && frames@[k as int].dlc == e {
                1nat
            } else {
                0nat
            } by {
                lemma_dlc_count_step(frames@, k as int, key, e);
            }
            lemma_dlc_count_step(frames@, k as int, key, 0);
            assert(dlc_count(frames@.take(k as int), key, frames@[k as int].dlc) <= k) by {
                lemma_dlc_count_le(frames@.take(k as int), key, frames@[k as int].dlc);
            }
        }
        if frames[k].can_id == can_id && frames[k].is_extended == is_extended {
            let dl = frames[k].dlc as usize;
            let c = counts[dl];
            assert(c == dlc_count(frames@.take(k as int), key, frames@[k as int].dlc));
            counts.set(dl, c + 1);
            total = total + 1;
            proof {
                seen = frames@[k as int].dlc;
                assert forall|e: u8| #[trigger] counts@[e as int] == dlc_count(frames@.take(k + 1), key, e) by {
                    if e != seen {
                        assert(e as int != dl as int);
                    }
                }
            }
        } else {
            proof {
                assert forall|e: u8| #[trigger] counts@[e as int] == dlc_count(frames@.take(k + 1), key, e) by {}
            }
        }
        k = k + 1;
    }
    assert(frames@.take(frames@.len() as int) =~= frames@);
    proof {
        assert forall|f: int| 0 <= f < 256 implies #[trigger] counts@[f] <= total by {
            let fd = f as u8;
            assert(counts@[fd as int] == dlc_count(frames@, key, fd));
            lemma_dlc_count_le_key(frames@, key, fd);
        }
    }
    let mut best: u8 = 8;
    let mut best_count: usize = 0;
    let mut e: usize = 0;
    while e < 256
        invariant
            e <= 256,
            counts@.len() == 256,
            best_count == 0 ==> best == 8,
            best_count > 0 ==> best_count == counts@[best as int],
            best_count <= total,
            forall|f: int| 0 <= f < 256 ==> #[trigger] counts@[f] <= total,
            forall|f: int| 0 <= f < e ==> #[trigger] counts@[f] <= best_count,
        decreases 256 - e,
    {
        if counts[e] > best_count {
            best = e as u8;
            best_count = counts[e];
        }
        e = e + 1;
    }
    proof {
        if total > 0 {
            assert(counts@[seen as int] <= best_count);
        }
        assert forall|d: u8| dlc_count(frames@, key, d) <= best_count by {
            assert(counts@[d as int] == dlc_count(frames@, key, d));
        }
    }
    DlcDetectionResult { detected_dlc: best, dlc_frames: best_count, sample_count: total }
}

proof fn lemma_dlc_count_le_key(frames: Seq<CanFrameDto>, key: (u32, bool), dlc: u8)
    ensures
        dlc_count(frames, key, dlc) <= count_key(frames, key),
    decreases frames.len(),
{
    if frames.len() > 0 {
        lemma_dlc_count_le_key(frames.drop_last(), key, dlc);
    }
}

proof fn lemma_dlc_count_le(frames: Seq<CanFrameDto>, key: (u32, bool), dlc: u8)
    ensures
        dlc_count(frames, key, dlc) <= frames.len(),
    decreases frames.len(),
{
    if frames.len() > 0 {
        lemma_dlc_count_le(frames.drop_last(), key, dlc);
    }
}

} // verus!
