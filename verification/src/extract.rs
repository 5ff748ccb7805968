//! Offline OBD ground-truth extraction from a recorded log.
//!
//! The poll session records both broadcast traffic and the diagnostic
//! request/response exchange into one log; this module reassembles the ECU's
//! ISO-TP responses in time order and picks the positive Service `$01`
//! answers for standard PIDs, with the data bytes their scaling reads.
use vstd::prelude::*;

use crate::diff::{find_group, lemma_grouping_lookup};
use crate::frame::{
    group_by_id, group_of, group_upto, is_time_ordered_group, lemma_group_of,
    CanFrameDto,
};
use crate::isotp::{isotp_step, IsotpReassembler, PendingView, OBD_ECU_RESPONSE_ID};
use crate::pids::{
    j1979_data_bytes, j1979_reads_two_bytes, j1979_scaled, lemma_data_bytes_follow_j1979, pid_data_bytes,
    standard_pid_data_bytes,
};

verus! {

/// One positive Service `$01` response for a standard PID.
#[derive(Debug)]
pub struct ObdResponse {
    /// Timestamp (µs) of the frame completing the response.
    pub timestamp_us: i64,
    pub pid: u8,
    /// The data bytes the PID's scaling reads.
    pub data: Vec<u8>,
}

/// Feed the (timestamp, payload) frames to a fresh reassembler in order:
/// the transfer left in progress and the messages completed, each with the
/// timestamp of its last frame.
pub open spec fn reassembled(frames: Seq<(i64, Seq<u8>)>) -> (Option<PendingView>, Seq<(i64, Seq<u8>)>)
    decreases frames.len(),
{
    if frames.len() == 0 {
        (None, Seq::empty())
    } else {
        let (p, msgs) = reassembled(frames.drop_last());
        let (p2, m) = isotp_step(p, frames.last().1);
        (
            p2,
            match m {
                Some(d) => msgs.push((frames.last().0, d)),
                None => msgs,
            },
        )
    }
}

/// A positive response (`0x41`, PID echo, data) for a standard PID with
/// enough data bytes.
pub open spec fn response_pick() -> spec_fn((i64, Seq<u8>)) -> Option<(i64, u8, Seq<u8>)> {
    |m: (i64, Seq<u8>)|
        if m.1.len() >= 2 && m.1[0] == 0x41u8 {
            match standard_pid_data_bytes(m.1[1]) {
                Some(n) => if m.1.len() >= 2 + n {
                    Some((m.0, m.1[1], m.1.subrange(2, 2 + n as int)))
                } else {
                    None
                },
                None => None,
            }
        } else {
            None
        }
}

/// The standard-ID frames of the response ID, in time order, as
/// (timestamp, payload).
pub open spec fn response_frames(frames: Seq<CanFrameDto>, response_id: u32) -> Seq<(i64, Seq<u8>)> {
    let idx = group_of(frames, (response_id, false));
    Seq::new(idx.len(), |a: int| (frames[idx[a] as int].timestamp_us, frames[idx[a] as int].data@))
}

/// Every standard-PID response found in the log.
pub open spec fn obd_responses(frames: Seq<CanFrameDto>, response_id: u32) -> Seq<(i64, u8, Seq<u8>)> {
    reassembled(response_frames(frames, response_id)).1.filter_map(response_pick())
}

pub open spec fn responses_view(r: Seq<ObdResponse>) -> Seq<(i64, u8, Seq<u8>)> {
    r.map_values(|x: ObdResponse| (x.timestamp_us, x.pid, x.data@))
}

proof fn lemma_reassembled_step(f: Seq<(i64, Seq<u8>)>, a: int)
    requires
        0 <= a < f.len(),
    ensures
        reassembled(f.take(a + 1)) == ({
            let (p, msgs) = reassembled(f.take(a));
            let (p2, m) = isotp_step(p, f[a].1);
            (
                p2,
                match m {
                    Some(d) => msgs.push((f[a].0, d)),
                    None => msgs,
                },
            )
        }),
{
    assert(f.take(a + 1).drop_last() =~= f.take(a));
}

/// The positive response carried by a message, if any.
fn pick_response(timestamp_us: i64, d: &Vec<u8>) -> (r: Option<ObdResponse>)
    ensures
        match r {
            Some(x) => response_pick()((timestamp_us, d@)) == Some((x.timestamp_us, x.pid, x.data@)),
            None => response_pick()((timestamp_us, d@)) is None,
        },
{
    if d.len() < 2 || d[0] != 0x41 {
        return None;
    }
    let pid = d[1];
    match pid_data_bytes(pid) {
        Some(n) => {
            if d.len() - 2 < n {
                return None;
            }
            let end = 2 + n;
            let mut data: Vec<u8> = Vec::new();
            let mut i: usize = 2;
            while i < end
                invariant
                    end == 2 + n,
                    2 <= i <= end,
                    end <= d@.len(),
                    data@ =~= d@.subrange(2, i as int),
                decreases end - i,
            {
                data.push(d[i]);
                i = i + 1;
            }
            Some(ObdResponse { timestamp_us, pid, data })
        },
        None => None,
    }
}

/// Extract all Service `$01` responses from `response_id` (default `0x7E8`).
pub fn extract_obd_responses(frames: &[CanFrameDto], response_id: Option<u32>) -> (r: Vec<ObdResponse>)
    ensures
        responses_view(r@) == obd_responses(
            frames@,
            match response_id {
                Some(id) => id,
                None => OBD_ECU_RESPONSE_ID,
            },
        ),
{
    let rid = match response_id {
        Some(id) => id,
        None => OBD_ECU_RESPONSE_ID,
    };
    let groups = group_by_id(frames, &None);
    let found = find_group(&groups, rid, false);
    proof {
        lemma_grouping_lookup(frames@, groups@, (rid, false), found);
    }
    let empty: Vec<usize> = Vec::new();
    let idx: &Vec<usize> = match found {
        Some(g) => &groups[g].frames,
        None => &empty,
    };
    proof {
        match found {
            Some(g) => {
                assert(group_upto(
                    frames@,
                    None,
                    (groups@[g as int].can_id, groups@[g as int].is_extended),
                    groups@[g as int].frames@,
                    frames@.len() as int,
                ));
            },
            None => {
                assert(is_time_ordered_group(frames@, None, (rid, false), empty@));
                lemma_group_of(frames@, (rid, false), empty@);
            },
        }
    }
    assert(idx@ == group_of(frames@, (rid, false)));
    assert(forall|a: int| 0 <= a < idx@.len() ==> (#[trigger] idx@[a]) < frames@.len());
    let ghost rf = response_frames(frames@, rid);
    let ghost pick = response_pick();
    let mut reassembler = IsotpReassembler::new();
    let ghost mut msgs: Seq<(i64, Seq<u8>)> = Seq::empty();
    let mut out: Vec<ObdResponse> = Vec::new();
    let mut a: usize = 0;
    while a < idx.len()
        invariant
            rf == response_frames(frames@, rid),
            idx@ == group_of(frames@, (rid, false)),
            forall|t: int| 0 <= t < idx@.len() ==> (#[trigger] idx@[t]) < frames@.len(),
            pick == response_pick(),
            a <= idx@.len(),
            reassembled(rf.take(a as int)) == (reassembler@, msgs),
            responses_view(out@) == msgs.filter_map(pick),
        decreases idx.len() - a,
    {
        let f = &frames[idx[a]];
        proof {
            lemma_reassembled_step(rf, a as int);
            assert(rf[a as int] == (f.timestamp_us, f.data@));
        }
        let ghost before = reassembler@;
        let m = reassembler.push(f.timestamp_us, f.data.as_slice());
        match m {
            Some(msg) => {
                proof {
                    lemma_filter_map_push_msgs(msgs, pick, (f.timestamp_us, msg.data@));
                    msgs = msgs.push((f.timestamp_us, msg.data@));
                }
                match pick_response(msg.timestamp_us, &msg.data) {
                    Some(x) => {
                        let ghost ob = out@;
                        out.push(x);
                        assert(responses_view(out@) =~= responses_view(ob).push(
                            (x.timestamp_us, x.pid, x.data@),
                        ));
                    },
                    None => {},
                }
            },
            None => {},
        }
        a = a + 1;
    }
    assert(rf.take(idx@.len() as int) =~= rf);
    out
}

proof fn lemma_filter_map_push_msgs(
    s: Seq<(i64, Seq<u8>)>,
    f: spec_fn((i64, Seq<u8>)) -> Option<(i64, u8, Seq<u8>)>,
    a: (i64, Seq<u8>),
)
    ensures
        s.push(a).filter_map(f) == match f(a) {
            Some(b) => s.filter_map(f).push(b),
            None => s.filter_map(f),
        },
{
    crate::helpers::lemma_filter_map_push(s, f, a);
}

/// The payload followed by seven zero bytes (room for the last frame's
/// padding).
pub open spec fn padded(payload: Seq<u8>) -> Seq<u8> {
    payload + Seq::new(7, |i: int| 0u8)
}

/// The first frame of a segmented transfer: 12-bit length and the first
/// six bytes.
pub open spec fn first_frame(payload: Seq<u8>) -> Seq<u8> {
    seq![(16 + payload.len() / 256) as u8, (payload.len() % 256) as u8] + payload.subrange(0, 6)
}

/// Consecutive frame `k` (from 1): sequence number `k mod 16` and the next
/// seven bytes, zero-padded.
pub open spec fn consecutive_frame(payload: Seq<u8>, k: int) -> Seq<u8> {
    seq![(32 + k % 16) as u8] + padded(payload).subrange(7 * k - 1, 7 * k + 6)
}

/// A payload of 8 to 4095 bytes segmented into 8-byte frames, all with
/// timestamp `t`: the first frame, then `len / 7` consecutive frames.
pub open spec fn transfer_frames(payload: Seq<u8>, t: i64) -> Seq<(i64, Seq<u8>)> {
    Seq::new(
        payload.len() / 7 + 1,
        |i: int|
            (
                t,
                if i == 0 {
                    first_frame(payload)
                } else {
                    consecutive_frame(payload, i)
                },
            ),
    )
}

proof fn lemma_transfer_prefix(payload: Seq<u8>, t: i64, k: int)
    requires
        8 <= payload.len() <= 4095,
        0 <= k < payload.len() / 7,
    ensures
        reassembled(transfer_frames(payload, t).take(k + 1)) == (
            Some(
                PendingView {
                    total_len: payload.len(),
                    data: payload.take(7 * k + 6),
                    next_sequence: ((k + 1) % 16) as u8,
                },
            ),
            Seq::<(i64, Seq<u8>)>::empty(),
        ),
    decreases k,
{
    let f = transfer_frames(payload, t);
    let n: int = (payload.len() / 7) as int;
    let len: int = payload.len() as int;
    assert(7 * n <= len < 7 * n + 7) by (nonlinear_arith)
        requires
            n == len / 7,
    ;
    lemma_reassembled_step(f, k);
    if k == 0 {
        assert(f.take(0) =~= Seq::<(i64, Seq<u8>)>::empty());
        let ff = first_frame(payload);
        assert(f[0].1 == ff);
        assert(len / 256 <= 15 && (len / 256) * 256 + len % 256 == len) by (nonlinear_arith)
            requires
                len <= 4095,
        ;
        assert(ff[0] == (16 + len / 256) as u8);
        assert(ff[0] / 16 == 1 && ff[0] % 16 == len / 256);
        assert(ff[1] == (len % 256) as u8);
        assert(ff.subrange(2, 8) =~= payload.take(6));
    } else {
        lemma_transfer_prefix(payload, t, k - 1);
        let cf = consecutive_frame(payload, k);
        assert(f[k].1 == cf);
        assert(cf[0] == (32 + k % 16) as u8);
        assert(cf[0] / 16 == 2 && cf[0] % 16 == k % 16);
        assert((k % 16) as u8 == ((k - 1 + 1) % 16) as u8);
        assert(7 * k + 6 < len);
        assert(cf.subrange(1, 8) =~= payload.subrange(7 * k - 1, 7 * k + 6));
        assert(payload.take(7 * (k - 1) + 6) + payload.subrange(7 * k - 1, 7 * k + 6) =~= payload.take(
            7 * k + 6,
        ));
    }
}

/// A payload segmented into a first frame and consecutive frames is
/// reassembled unchanged by a fresh reassembler, completed by the last
/// frame and with no transfer left in progress.
pub proof fn lemma_segmented_transfer_roundtrip(payload: Seq<u8>, t: i64)
    requires
        8 <= payload.len() <= 4095,
    ensures
        reassembled(transfer_frames(payload, t)) == (None::<PendingView>, seq![(t, payload)]),
{
    let f = transfer_frames(payload, t);
    let n: int = (payload.len() / 7) as int;
    let len: int = payload.len() as int;
    assert(7 * n <= len < 7 * n + 7 && n >= 1) by (nonlinear_arith)
        requires
            n == len / 7,
            len >= 8,
    ;
    lemma_transfer_prefix(payload, t, n - 1);
    lemma_reassembled_step(f, n);
    assert(f.take(n + 1) =~= f);
    let cf = consecutive_frame(payload, n);
    assert(f[n].1 == cf);
    assert(cf[0] / 16 == 2 && cf[0] % 16 == n % 16);
    assert((n % 16) as u8 == ((n - 1 + 1) % 16) as u8);
    let remaining = len - (7 * (n - 1) + 6);
    assert(1 <= remaining <= 7);
    assert(cf.subrange(1, 1 + remaining) =~= payload.subrange(7 * n - 1, len));
    assert(payload.take(7 * (n - 1) + 6) + payload.subrange(7 * n - 1, len) =~= payload);
}

/// A positive response `41 p A B …` for a PID whose J1979 value is the
/// 16-bit `A * 256 + B` gives the data `[A, B]`; `41 p A …` for another
/// scaled PID gives `[A]`; too short a response, or a PID without standard
/// scaling, gives none.
pub proof fn lemma_response_reads_j1979_bytes(ts: i64, msg: Seq<u8>)
    requires
        msg.len() >= 2,
        msg[0] == 0x41,
    ensures
        j1979_reads_two_bytes(msg[1]) && msg.len() >= 4 ==> response_pick()((ts, msg)) == Some(
            (ts, msg[1], seq![msg[2], msg[3]]),
        ),
        j1979_reads_two_bytes(msg[1]) && msg.len() < 4 ==> response_pick()((ts, msg)) is None,
        j1979_scaled(msg[1]) && !j1979_reads_two_bytes(msg[1]) && msg.len() >= 3 ==> response_pick()(
            (ts, msg),
        ) == Some((ts, msg[1], seq![msg[2]])),
        j1979_scaled(msg[1]) && msg.len() < 3 ==> response_pick()((ts, msg)) is None,
        !j1979_scaled(msg[1]) ==> response_pick()((ts, msg)) is None,
{
    lemma_data_bytes_follow_j1979(msg[1]);
    if j1979_reads_two_bytes(msg[1]) && msg.len() >= 4 {
        assert(msg.subrange(2, 4) =~= seq![msg[2], msg[3]]);
    }
    if j1979_scaled(msg[1]) && !j1979_reads_two_bytes(msg[1]) && msg.len() >= 3 {
        assert(msg.subrange(2, 3) =~= seq![msg[2]]);
    }
}

/// Every extracted response names a PID with J1979 scaling, and its data
/// are exactly the bytes that PID's formula reads, taken right after the PID
/// echo of a positive response reassembled from the log.
pub proof fn lemma_responses_carry_j1979_bytes(frames: Seq<CanFrameDto>, response_id: u32, k: int)
    requires
        0 <= k < obd_responses(frames, response_id).len(),
    ensures
        ({
            let r = obd_responses(frames, response_id)[k];
            &&& j1979_scaled(r.1)
            &&& j1979_data_bytes(r.1) == Some(r.2.len())
            &&& exists|m: (i64, Seq<u8>)|
                #[trigger] reassembled(response_frames(frames, response_id)).1.contains(m) && m.0 == r.0
                    && m.1.len() >= 2 + r.2.len() && m.1[0] == 0x41 && m.1[1] == r.1 && r.2 == m.1.subrange(
                    2,
                    2 + r.2.len() as int,
                )
        }),
{
    let msgs = reassembled(response_frames(frames, response_id)).1;
    let out = obd_responses(frames, response_id);
    let r = out[k];
    assert(out.contains(r));
    msgs.lemma_filter_map_contains(response_pick(), r);
    let m = choose|m: (i64, Seq<u8>)| #[trigger] msgs.contains(m) && response_pick()(m) == Some(r);
    lemma_data_bytes_follow_j1979(m.1[1]);
    assert(msgs.contains(m));
}

} // verus!
