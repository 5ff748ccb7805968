//! Decisions of the live OBD-II poller.
//!
//! The poller's only job is to *stimulate* the ECU: discover which Service
//! `$01` PIDs are supported, then round-robin request the chosen ones, while
//! a capture records the same interface; ground truth is extracted offline.
//! The socket work lives with the caller; this module decides what to send,
//! which received frame answers a request, and what the answers mean.
use vstd::prelude::*;

use crate::isotp::{
    encode_single_frame, isotp_step, lemma_single_frame_roundtrip, single_frame_bytes, PendingView,
    OBD_ECU_RESPONSE_ID,
};
use crate::pids::{
    lemma_mask_positions_bound, parse_supported_bitmask, service01_request, supported_in_mask,
};

verus! {

/// Build the raw 8-byte CAN payload for a Service `$01` PID request.
pub fn request_payload(pid: u8) -> (p: [u8; 8])
    ensures
        p@ == seq![0x02u8, 0x01u8, pid, 0u8, 0u8, 0u8, 0u8, 0u8],
{
    let req = service01_request(pid);
    match encode_single_frame(&req) {
        Some(frame) => {
            assert(single_frame_bytes(req@) =~= seq![0x02u8, 0x01u8, pid, 0u8, 0u8, 0u8, 0u8, 0u8]);
            frame
        },
        None => {
            assert(false);
            [0u8; 8]
        },
    }
}

/// Result of supported-PID discovery.
#[derive(Debug, Clone)]
pub struct SupportedPids {
    pub pids: Vec<u8>,
}

impl Default for SupportedPids {
    fn default() -> (s: Self)
        ensures
            s.pids@.len() == 0,
    {
        SupportedPids { pids: Vec::new() }
    }
}

/// A standard-ID frame from the primary ECU that is a positive single-frame
/// response to `pid` and declares no data length of 0.
pub open spec fn answers(extended: bool, id: u32, data: Seq<u8>, pid: u8) -> bool {
    !extended && id == OBD_ECU_RESPONSE_ID && data.len() >= 3 && data[1] == 0x41u8 && data[2] == pid
}

/// The response bytes from the PID echo on: `data[2 .. 1 + n]` with `n` the
/// declared length, capped by the frame.
pub open spec fn response_bytes(data: Seq<u8>) -> Seq<u8> {
    let n = if data[0] < data.len() - 1 {
        data[0] as int
    } else {
        data.len() - 1
    };
    data.subrange(2, 1 + n)
}

/// The answer a received frame carries for a request of `pid`, if it is one.
pub fn response_data(extended: bool, id: u32, data: &[u8], pid: u8) -> (r: Option<Vec<u8>>)
    requires
        answers(extended, id, data@, pid) ==> data@[0] >= 1,
    ensures
        r is Some <==> answers(extended, id, data@, pid),
        r matches Some(v) ==> v@ == response_bytes(data@),
{
    if extended || id != OBD_ECU_RESPONSE_ID {
        return None;
    }
    if data.len() >= 3 && data[1] == 0x41 && data[2] == pid {
        let n: usize = if (data[0] as usize) < data.len() - 1 {
            data[0] as usize
        } else {
            data.len() - 1
        };
        let end = 1 + n;
        let mut v: Vec<u8> = Vec::new();
        let mut i: usize = 2;
        while i < end
            invariant
                end == 1 + n,
                2 <= i <= end,
                end <= data@.len(),
                v@ =~= data@.subrange(2, i as int),
            decreases end - i,
        {
            v.push(data[i]);
            i = i + 1;
        }
        Some(v)
    } else {
        None
    }
}

/// Base PID of the `i`-th supported-PID mask (0x00, 0x20, 0x40, 0x60).
pub open spec fn mask_base(i: int) -> u8 {
    (i * 32) as u8
}

/// A response that carries a full mask: PID echo and four bytes.
pub open spec fn full_mask(r: Option<Seq<u8>>) -> bool {
    r matches Some(d) && d.len() >= 5
}

/// The masks `0 .. i` were all answered in full.
pub open spec fn answered_before(responses: Seq<Option<Seq<u8>>>, i: int) -> bool {
    forall|j: int| 0 <= j < i ==> full_mask(#[trigger] responses[j])
}

/// `p` is declared supported by a mask that, like every mask before it,
/// was answered in full. Discovery stops at the first missing answer:
/// higher ranges are then unsupported.
pub open spec fn discovered(responses: Seq<Option<Seq<u8>>>, p: int) -> bool {
    exists|i: int|
        0 <= i < 4 && i < responses.len() && answered_before(responses, i + 1) && #[trigger] supported_in_mask(
            mask_base(i),
            responses[i]->Some_0.subrange(1, 5),
        ).contains(p)
}

pub open spec fn responses_view(rs: Seq<Option<Vec<u8>>>) -> Seq<Option<Seq<u8>>> {
    rs.map_values(
        |r: Option<Vec<u8>>|
            match r {
                Some(v) => Some(v@),
                None => None,
            },
    )
}

pub open spec fn ascending_u8(s: Seq<u8>) -> bool {
    forall|a: int, b: int| 0 <= a < b < s.len() ==> #[trigger] s[a] < #[trigger] s[b]
}

/// Insert `p` into an ascending list unless present.
fn insert_sorted(list: &mut Vec<u8>, p: u8)
    requires
        ascending_u8(old(list)@),
    ensures
        ascending_u8(final(list)@),
        forall|x: u8| #[trigger] final(list)@.contains(x) <==> (old(list)@.contains(x) || x == p),
{
    let ghost before = list@;
    let mut pos: usize = 0;
    while pos < list.len() && list[pos] < p
        invariant
            pos <= list@.len(),
            list@ == before,
            forall|k: int| 0 <= k < pos ==> (#[trigger] list@[k]) < p,
        decreases list.len() - pos,
    {
        pos = pos + 1;
    }
    if pos < list.len() && list[pos] == p {
        assert(list@[pos as int] == p);
        return;
    }
    assert(pos < before.len() ==> before[pos as int] > p);
    list.insert(pos, p);
    let ghost after = list@;
    assert forall|a: int, b: int| 0 <= a < b < after.len() implies #[trigger] after[a] < #[trigger] after[b] by {
        if b < pos {
            assert(after[a] == before[a] && after[b] == before[b]);
        } else if b == pos {
            assert(after[a] == before[a]);
        } else if a < pos {
            assert(after[a] == before[a] && after[b] == before[b - 1]);
            if b - 1 > pos {
                assert(before[pos as int] < before[b - 1]);
            }
        } else if a == pos {
            assert(after[b] == before[b - 1]);
            if b - 1 > pos {
                assert(before[pos as int] < before[b - 1]);
            }
        } else {
            assert(after[a] == before[a - 1] && after[b] == before[b - 1]);
        }
    }
    assert forall|x: u8| #[trigger] after.contains(x) <==> (before.contains(x) || x == p) by {
        if after.contains(x) {
            let k = choose|k: int| 0 <= k < after.len() && after[k] == x;
            if k < pos {
                assert(before[k] == x);
            } else if k > pos {
                assert(before[k - 1] == x);
            }
        }
        if before.contains(x) {
            let k = choose|k: int| 0 <= k < before.len() && before[k] == x;
            if k < pos {
                assert(after[k] == x);
            } else {
                assert(after[k + 1] == x);
            }
        }
        if x == p {
            assert(after[pos as int] == x);
        }
    }
}

/// The next supported-PID mask to request after `responses` (answers to
/// the masks 0x00, 0x20, ... in order): the following mask while every
/// answer so far was full and fewer than four were asked; `None` when the
/// discovery is over.
pub fn next_mask_pid(responses: &[Option<Vec<u8>>]) -> (r: Option<u8>)
    ensures
        r == (if responses@.len() < 4 && answered_before(responses_view(responses@), responses@.len() as int) {
            Some(mask_base(responses@.len() as int))
        } else {
            None
        }),
{
    let ghost rv = responses_view(responses@);
    let n = responses.len();
    if n >= 4 {
        return None;
    }
    let mut i: usize = 0;
    while i < n
        invariant
            n == responses@.len(),
            rv == responses_view(responses@),
            i <= n,
            answered_before(rv, i as int),
        decreases n - i,
    {
        assert(rv[i as int] == match responses@[i as int] {
            Some(v) => Some(v@),
            None => None::<Seq<u8>>,
        });
        let full = match &responses[i] {
            Some(data) => data.len() >= 5,
            None => false,
        };
        if !full {
            assert(!full_mask(rv[i as int]));
            return None;
        }
        i = i + 1;
    }
    Some((n as u8) * 32)
}

/// The supported PIDs declared by the answers to the mask requests for
/// 0x00, 0x20, 0x40 and 0x60, in that order, ascending and without
/// repetition. A missing or short answer ends the discovery.
pub fn supported_from_responses(responses: &[Option<Vec<u8>>]) -> (s: SupportedPids)
    ensures
        ascending_u8(s.pids@),
        forall|p: u8| #[trigger] s.pids@.contains(p) <==> discovered(responses_view(responses@), p as int),
{
    let ghost rv = responses_view(responses@);
    let mut pids: Vec<u8> = Vec::new();
    let mut i: usize = 0;
    let mut stopped = false;
    while i < 4 && i < responses.len() && !stopped
        invariant
            rv == responses_view(responses@),
            i <= 4,
            i <= responses@.len(),
            ascending_u8(pids@),
            !stopped ==> answered_before(rv, i as int),
            stopped ==> i >= 1 && !full_mask(rv[i - 1]),
            forall|p: u8|
                #[trigger] pids@.contains(p) <==> exists|j: int|
                    0 <= j < i && answered_before(rv, j + 1) && #[trigger] supported_in_mask(
                        mask_base(j),
                        rv[j]->Some_0.subrange(1, 5),
                    ).contains(p as int),
        decreases 4 - i,
    {
        let base: u8 = (i as u8) * 32;
        assert(rv[i as int] == match responses@[i as int] {
            Some(v) => Some(v@),
            None => None::<Seq<u8>>,
        });
        match &responses[i] {
            Some(data) if data.len() >= 5 => {
                let mut mask: Vec<u8> = Vec::new();
                let mut k: usize = 1;
                while k < 5
                    invariant
                        1 <= k <= 5,
                        data@.len() >= 5,
                        mask@ =~= data@.subrange(1, k as int),
                    decreases 5 - k,
                {
                    mask.push(data[k]);
                    k = k + 1;
                }
                proof {
                    assert(rv[i as int]->Some_0 == data@);
                    assert(mask@ == data@.subrange(1, 5));
                    assert forall|t: int| 0 <= t < supported_in_mask(base, mask@).len() implies #[trigger] supported_in_mask(
                        base,
                        mask@,
                    )[t] <= 255 by {
                        lemma_mask_positions_bound(mask@, t);
                        assert(base <= 0x60);
                    }
                }
                let found = parse_supported_bitmask(base, mask.as_slice());
                let ghost before = pids@;
                let mut t: usize = 0;
                while t < found.len()
                    invariant
                        ascending_u8(pids@),
                        t <= found@.len(),
                        forall|p: u8|
                            #[trigger] pids@.contains(p) <==> (before.contains(p) || exists|u: int|
                                0 <= u < t && found@[u] == p),
                    decreases found.len() - t,
                {
                    let ghost mid = pids@;
                    insert_sorted(&mut pids, found[t]);
                    proof {
                        assert forall|p: u8| #[trigger] pids@.contains(p) <==> (before.contains(p) || exists|u: int|
                            0 <= u < t + 1 && found@[u] == p) by {
                            if p == found@[t as int] {
                                assert(exists|u: int| 0 <= u < t + 1 && found@[u] == p);
                            }
                            if exists|u: int| 0 <= u < t + 1 && found@[u] == p {
                                let u = choose|u: int| 0 <= u < t + 1 && found@[u] == p;
                                if u < t {
                                    assert(mid.contains(p));
                                }
                            }
                        }
                    }
                    t = t + 1;
                }
                proof {
                    assert(answered_before(rv, i + 1));
                    let fv = found@.map_values(|p: u8| p as int);
                    assert forall|p: u8| #[trigger] pids@.contains(p) <==> exists|j: int|
                        0 <= j < i + 1 && answered_before(rv, j + 1) && #[trigger] supported_in_mask(
                            mask_base(j),
                            rv[j]->Some_0.subrange(1, 5),
                        ).contains(p as int) by {
                        assert(mask_base(i as int) == base);
                        if exists|u: int| 0 <= u < found@.len() && found@[u] == p {
                            let u = choose|u: int| 0 <= u < found@.len() && found@[u] == p;
                            assert(fv[u] == p as int);
                            assert(supported_in_mask(mask_base(i as int), rv[i as int]->Some_0.subrange(1, 5)).contains(
                                p as int,
                            ));
                        }
                        if supported_in_mask(mask_base(i as int), rv[i as int]->Some_0.subrange(1, 5)).contains(
                            p as int,
                        ) {
                            let u = choose|u: int|
                                0 <= u < fv.len() && fv[u] == p as int;
                            assert(found@[u] == p);
                        }
                    }
                }
            },
            _ => {
                stopped = true;
            },
        }
        i = i + 1;
    }
    proof {
        assert forall|p: u8| #[trigger] pids@.contains(p) <==> discovered(rv, p as int) by {
            if discovered(rv, p as int) {
                let j = choose|j: int|
                    0 <= j < 4 && j < rv.len() && answered_before(rv, j + 1) && #[trigger] supported_in_mask(
                        mask_base(j),
                        rv[j]->Some_0.subrange(1, 5),
                    ).contains(p as int);
                if j >= i {
                    assert(stopped);
                    assert(full_mask(rv[i - 1]));
                }
            }
        }
    }
    SupportedPids { pids }
}

/// The PID to request at round-robin position `cursor`.
pub fn next_poll_pid(pids: &[u8], cursor: usize) -> (p: u8)
    requires
        pids@.len() > 0,
    ensures
        p == pids@[(cursor as int) % (pids@.len() as int)],
{
    pids[cursor % pids.len()]
}

/// The request payload of a PID is a single ISO-TP frame carrying the
/// Service $01 request `[0x01, pid]`, whatever transfer was in progress.
pub proof fn lemma_request_payload_is_single_frame(p: Option<PendingView>, pid: u8)
    ensures
        isotp_step(p, seq![0x02u8, 0x01u8, pid, 0u8, 0u8, 0u8, 0u8, 0u8]) == (
            None::<PendingView>,
            Some(seq![0x01u8, pid]),
        ),
{
    lemma_single_frame_roundtrip(p, seq![0x01u8, pid]);
    assert(single_frame_bytes(seq![0x01u8, pid]) =~= seq![0x02u8, 0x01u8, pid, 0u8, 0u8, 0u8, 0u8, 0u8]);
}

} // verus!
