//! Differential compare of labeled recordings (stimulus / response).
//!
//! A bit is *differential* iff it is constant within **every** recording but
//! its constant value differs between at least two recordings. That is the
//! definitive criterion: with enough frames per recording, a differential bit
//! is attributable to whatever distinguishes the recordings.
use vstd::prelude::*;

use crate::activity::{
    bit_activity, payloads_at, spec_bit_activity, spec_cell, spec_state, BitActivityCell, BitState,
};
use crate::frame::{
    group_by_id, group_of, group_upto, is_grouping, is_time_ordered_group, key_of, lemma_group_of,
    lemma_strictly_sorted_unique, CanFrameDto, IdGroup,
};

verus! {

/// One recording with a human-meaningful label ("brake-off", "brake-on", …).
pub struct LabeledRecording<'a> {
    pub label: String,
    pub frames: &'a [CanFrameDto],
}

/// A bit constant in every recording with differing values across recordings.
#[derive(Debug)]
pub struct DifferentialBit {
    pub bit: u32,
    /// Constant value of the bit per recording label, in input order.
    pub values: Vec<(String, u8)>,
}

/// Differential facts for one ID present in all recordings.
#[derive(Debug)]
pub struct IdDiff {
    pub can_id: u32,
    pub is_extended: bool,
    /// Frame count per recording label — the evidence behind every bit fact.
    pub frames_per_recording: Vec<(String, u64)>,
    pub differential_bits: Vec<DifferentialBit>,
}

/// An ID that does not appear in every recording.
#[derive(Debug)]
pub struct ExclusiveId {
    pub can_id: u32,
    pub is_extended: bool,
    /// Labels of the recordings the ID appears in, with frame counts.
    pub present_in: Vec<(String, u64)>,
}

#[derive(Debug)]
pub struct DiffReport {
    pub labels: Vec<String>,
    /// IDs present in all recordings, listed only when differential bits exist.
    pub shared: Vec<IdDiff>,
    pub exclusive: Vec<ExclusiveId>,
}

pub struct DifferentialBitView {
    pub bit: u32,
    pub values: Seq<(Seq<char>, u8)>,
}

pub struct IdDiffView {
    pub can_id: u32,
    pub is_extended: bool,
    pub frames_per_recording: Seq<(Seq<char>, u64)>,
    pub differential_bits: Seq<DifferentialBitView>,
}

pub struct ExclusiveIdView {
    pub can_id: u32,
    pub is_extended: bool,
    pub present_in: Seq<(Seq<char>, u64)>,
}

pub struct DiffReportView {
    pub labels: Seq<Seq<char>>,
    pub shared: Seq<IdDiffView>,
    pub exclusive: Seq<ExclusiveIdView>,
}

pub open spec fn label_u8_view(v: Seq<(String, u8)>) -> Seq<(Seq<char>, u8)> {
    v.map_values(|p: (String, u8)| (p.0@, p.1))
}

pub open spec fn label_u64_view(v: Seq<(String, u64)>) -> Seq<(Seq<char>, u64)> {
    v.map_values(|p: (String, u64)| (p.0@, p.1))
}

impl View for DifferentialBit {
    type V = DifferentialBitView;

    open spec fn view(&self) -> DifferentialBitView {
        DifferentialBitView { bit: self.bit, values: label_u8_view(self.values@) }
    }
}

impl View for IdDiff {
    type V = IdDiffView;

    open spec fn view(&self) -> IdDiffView {
        IdDiffView {
            can_id: self.can_id,
            is_extended: self.is_extended,
            frames_per_recording: label_u64_view(self.frames_per_recording@),
            differential_bits: self.differential_bits@.map_values(|d: DifferentialBit| d@),
        }
    }
}

impl View for ExclusiveId {
    type V = ExclusiveIdView;

    open spec fn view(&self) -> ExclusiveIdView {
        ExclusiveIdView {
            can_id: self.can_id,
            is_extended: self.is_extended,
            present_in: label_u64_view(self.present_in@),
        }
    }
}

impl View for DiffReport {
    type V = DiffReportView;

    open spec fn view(&self) -> DiffReportView {
        DiffReportView {
            labels: self.labels@.map_values(|s: String| s@),
            shared: self.shared@.map_values(|d: IdDiff| d@),
            exclusive: self.exclusive@.map_values(|e: ExclusiveId| e@),
        }
    }
}

/// A recording as (label, frames).
pub open spec fn recordings_view(recs: Seq<LabeledRecording>) -> Seq<(Seq<char>, Seq<CanFrameDto>)> {
    recs.map_values(|r: LabeledRecording| (r.label@, r.frames@))
}

/// Payloads of the frames.
pub open spec fn datas(frames: Seq<CanFrameDto>) -> Seq<Seq<u8>> {
    frames.map_values(|f: CanFrameDto| f.data@)
}

/// Payloads of the frames of `key`, in time order.
pub open spec fn key_payloads(frames: Seq<CanFrameDto>, key: (u32, bool)) -> Seq<Seq<u8>> {
    payloads_at(datas(frames), group_of(frames, key))
}

/// Some frame has the key.
pub open spec fn has_key(frames: Seq<CanFrameDto>, key: (u32, bool)) -> bool {
    exists|i: int| 0 <= i < frames.len() && key_of(#[trigger] frames[i]) == key
}

/// Minimum of a sequence of naturals (0 when empty).
pub open spec fn seq_min(s: Seq<nat>) -> nat
    decreases s.len(),
{
    if s.len() == 0 {
        0
    } else if s.len() == 1 {
        s[0]
    } else {
        let m = seq_min(s.drop_last());
        if s.last() < m {
            s.last()
        } else {
            m
        }
    }
}

/// Bits covered by every payload (minimum length × 8; 0 for no payloads).
pub open spec fn min_bits(ps: Seq<Seq<u8>>) -> nat {
    seq_min(ps.map_values(|p: Seq<u8>| p.len() * 8))
}

/// Bits covered by every frame of `key` in every recording.
pub open spec fn common_bits(recs: Seq<(Seq<char>, Seq<CanFrameDto>)>, key: (u32, bool)) -> nat {
    seq_min(Seq::new(recs.len(), |r: int| min_bits(key_payloads(recs[r].1, key))))
}

/// Measured state of `bit` in one recording's frames of `key`.
pub open spec fn rec_state(frames: Seq<CanFrameDto>, key: (u32, bool), bit: u32) -> BitState {
    spec_state(spec_cell(key_payloads(frames, key), bit))
}

pub open spec fn const_value(s: BitState) -> u8 {
    if s == BitState::Always1 {
        1
    } else {
        0
    }
}

/// Constant in every recording, with differing values in two adjacent ones.
pub open spec fn is_differential(
    recs: Seq<(Seq<char>, Seq<CanFrameDto>)>,
    key: (u32, bool),
    bit: u32,
) -> bool {
    &&& forall|r: int|
        0 <= r < recs.len() ==> (#[trigger] rec_state(recs[r].1, key, bit) == BitState::Always0
            || rec_state(recs[r].1, key, bit) == BitState::Always1)
    &&& exists|r: int|
        1 <= r < recs.len() && #[trigger] const_value(rec_state(recs[r].1, key, bit)) != const_value(
            rec_state(recs[r - 1].1, key, bit),
        )
}

pub open spec fn differential_bit_view(
    recs: Seq<(Seq<char>, Seq<CanFrameDto>)>,
    key: (u32, bool),
    bit: u32,
) -> DifferentialBitView {
    DifferentialBitView {
        bit,
        values: Seq::new(
            recs.len(),
            |r: int| (recs[r].0, const_value(rec_state(recs[r].1, key, bit))),
        ),
    }
}

/// Bit `b` as a differential-bit entry, when it is one.
pub open spec fn diff_pick(recs: Seq<(Seq<char>, Seq<CanFrameDto>)>, key: (u32, bool)) -> spec_fn(
    u32,
) -> Option<DifferentialBitView> {
    |b: u32|
        if is_differential(recs, key, b) {
            Some(differential_bit_view(recs, key, b))
        } else {
            None
        }
}

/// Bit numbers `0 .. n`.
pub open spec fn bit_range(n: nat) -> Seq<u32> {
    Seq::new(n, |b: int| b as u32)
}

/// The differential bits of `key`, ascending.
pub open spec fn diff_bits(recs: Seq<(Seq<char>, Seq<CanFrameDto>)>, key: (u32, bool)) -> Seq<
    DifferentialBitView,
> {
    bit_range(common_bits(recs, key)).filter_map(diff_pick(recs, key))
}

/// Total order code of a key: ID, then standard before extended.
pub open spec fn key_code(k: (u32, bool)) -> int {
    k.0 * 2 + if k.1 {
        1int
    } else {
        0int
    }
}

pub open spec fn code_key(c: int) -> (u32, bool) {
    ((c / 2) as u32, c % 2 == 1)
}

/// Codes of every key seen in any recording.
pub open spec fn all_codes(recs: Seq<(Seq<char>, Seq<CanFrameDto>)>, c: int) -> bool {
    exists|r: int, i: int|
        0 <= r < recs.len() && 0 <= i < recs[r].1.len() && key_code(key_of(#[trigger] recs[r].1[i]))
            == c
}

pub open spec fn strictly_increasing(s: Seq<int>) -> bool {
    forall|a: int, b: int| 0 <= a < b < s.len() ==> #[trigger] s[a] < #[trigger] s[b]
}

/// All key codes, ascending.
pub open spec fn sorted_codes(recs: Seq<(Seq<char>, Seq<CanFrameDto>)>) -> Seq<int> {
    choose|s: Seq<int>|
        strictly_increasing(s) && forall|c: int| #[trigger] s.contains(c) <==> all_codes(recs, c)
}

pub open spec fn present_all(recs: Seq<(Seq<char>, Seq<CanFrameDto>)>, key: (u32, bool)) -> bool {
    forall|r: int| 0 <= r < recs.len() ==> #[trigger] has_key(recs[r].1, key)
}

pub open spec fn id_diff_view(recs: Seq<(Seq<char>, Seq<CanFrameDto>)>, key: (u32, bool)) -> IdDiffView {
    IdDiffView {
        can_id: key.0,
        is_extended: key.1,
        frames_per_recording: Seq::new(
            recs.len(),
            |r: int| (recs[r].0, group_of(recs[r].1, key).len() as u64),
        ),
        differential_bits: diff_bits(recs, key),
    }
}

/// Recording `r` as a (label, frame count) entry when it has frames of `key`.
pub open spec fn present_pick(
    recs: Seq<(Seq<char>, Seq<CanFrameDto>)>,
    key: (u32, bool),
) -> spec_fn(int) -> Option<(Seq<char>, u64)> {
    |r: int|
        if has_key(recs[r].1, key) {
            Some((recs[r].0, group_of(recs[r].1, key).len() as u64))
        } else {
            None
        }
}

/// Recording indexes `0 .. n`.
pub open spec fn rec_range(n: nat) -> Seq<int> {
    Seq::new(n, |r: int| r)
}

pub open spec fn exclusive_view(
    recs: Seq<(Seq<char>, Seq<CanFrameDto>)>,
    key: (u32, bool),
) -> ExclusiveIdView {
    ExclusiveIdView {
        can_id: key.0,
        is_extended: key.1,
        present_in: rec_range(recs.len()).filter_map(present_pick(recs, key)),
    }
}

pub open spec fn shared_entry(recs: Seq<(Seq<char>, Seq<CanFrameDto>)>, c: int) -> Option<IdDiffView> {
    if present_all(recs, code_key(c)) && diff_bits(recs, code_key(c)).len() > 0 {
        Some(id_diff_view(recs, code_key(c)))
    } else {
        None
    }
}

pub open spec fn exclusive_entry(recs: Seq<(Seq<char>, Seq<CanFrameDto>)>, c: int) -> Option<
    ExclusiveIdView,
> {
    if !present_all(recs, code_key(c)) {
        Some(exclusive_view(recs, code_key(c)))
    } else {
        None
    }
}

pub open spec fn shared_pick(recs: Seq<(Seq<char>, Seq<CanFrameDto>)>) -> spec_fn(int) -> Option<
    IdDiffView,
> {
    |c: int| shared_entry(recs, c)
}

pub open spec fn exclusive_pick(recs: Seq<(Seq<char>, Seq<CanFrameDto>)>) -> spec_fn(int) -> Option<
    ExclusiveIdView,
> {
    |c: int| exclusive_entry(recs, c)
}

/// The whole report.
pub open spec fn spec_diff(recs: Seq<(Seq<char>, Seq<CanFrameDto>)>) -> DiffReportView {
    DiffReportView {
        labels: recs.map_values(|r: (Seq<char>, Seq<CanFrameDto>)| r.0),
        shared: sorted_codes(recs).filter_map(shared_pick(recs)),
        exclusive: sorted_codes(recs).filter_map(exclusive_pick(recs)),
    }
}

fn clone_labels(recordings: &[LabeledRecording]) -> (labels: Vec<String>)
    ensures
        labels@.map_values(|s: String| s@) == recordings_view(recordings@).map_values(
            |r: (Seq<char>, Seq<CanFrameDto>)| r.0,
        ),
{
    let ghost rv = recordings_view(recordings@);
    let mut labels: Vec<String> = Vec::new();
    let mut r: usize = 0;
    while r < recordings.len()
        invariant
            rv == recordings_view(recordings@),
            r <= recordings@.len(),
            labels@.map_values(|s: String| s@) =~= rv.map_values(
                |x: (Seq<char>, Seq<CanFrameDto>)| x.0,
            ).subrange(0, r as int),
        decreases recordings.len() - r,
    {
        let l = recordings[r].label.clone();
        let ghost before = labels@;
        labels.push(l);
        assert(labels@ == before.push(l));
        assert(rv[r as int].0 == recordings@[r as int].label@);
        assert(labels@.map_values(|s: String| s@) =~= before.map_values(|s: String| s@).push(l@));
        r = r + 1;
    }
    labels
}

fn group_all(recordings: &[LabeledRecording]) -> (grouped: Vec<Vec<IdGroup>>)
    ensures
        grouped@.len() == recordings@.len(),
        forall|r: int|
            0 <= r < recordings@.len() ==> is_grouping(
                recordings@[r].frames@,
                None,
                (#[trigger] grouped@[r])@,
            ),
{
    let mut grouped: Vec<Vec<IdGroup>> = Vec::new();
    let mut r: usize = 0;
    while r < recordings.len()
        invariant
            r <= recordings@.len(),
            grouped@.len() == r,
            forall|k: int|
                0 <= k < r ==> is_grouping(recordings@[k].frames@, None, (#[trigger] grouped@[k])@),
        decreases recordings.len() - r,
    {
        let g = group_by_id(recordings[r].frames, &None);
        grouped.push(g);
        r = r + 1;
    }
    grouped
}

/// Index of the group of `key`, if the grouping has one.
pub(crate) fn find_group(groups: &Vec<IdGroup>, id: u32, ext: bool) -> (r: Option<usize>)
    ensures
        r matches Some(g) ==> g < groups@.len() && groups@[g as int].can_id == id
            && groups@[g as int].is_extended == ext,
        r is None ==> forall|g: int|
            0 <= g < groups@.len() ==> !(#[trigger] groups@[g].can_id == id
                && groups@[g].is_extended == ext),
{
    let mut g: usize = 0;
    while g < groups.len()
        invariant
            g <= groups@.len(),
            forall|h: int|
                0 <= h < g ==> !(#[trigger] groups@[h].can_id == id && groups@[h].is_extended == ext),
        decreases groups.len() - g,
    {
        if groups[g].can_id == id && groups[g].is_extended == ext {
            return Some(g);
        }
        g = g + 1;
    }
    None
}

/// The group of `key` in a grouping without filter is `group_of`; it exists
/// exactly when some frame has the key.
pub(crate) proof fn lemma_grouping_lookup(
    frames: Seq<CanFrameDto>,
    groups: Seq<IdGroup>,
    key: (u32, bool),
    found: Option<usize>,
)
    requires
        is_grouping(frames, None, groups),
        found matches Some(g) ==> g < groups.len() && groups[g as int].can_id == key.0
            && groups[g as int].is_extended == key.1,
        found is None ==> forall|g: int|
            0 <= g < groups.len() ==> !(#[trigger] groups[g].can_id == key.0
                && groups[g].is_extended == key.1),
    ensures
        found is Some <==> has_key(frames, key),
        found matches Some(g) ==> groups[g as int].frames@ == group_of(frames, key),
{
    match found {
        Some(g) => {
            let idx = groups[g as int].frames@;
            assert(is_time_ordered_group(frames, None, key, idx));
            lemma_group_of(frames, key, idx);
            assert(idx.len() > 0);
            assert(key_of(frames[idx[0] as int]) == key);
        },
        None => {
            if has_key(frames, key) {
                let i = choose|i: int| 0 <= i < frames.len() && key_of(frames[i]) == key;
                let g = choose|g: int|
                    0 <= g < groups.len() && (groups[g].can_id, groups[g].is_extended) == key_of(
                        frames[i],
                    );
                assert(groups[g].can_id == key.0 && groups[g].is_extended == key.1);
            }
        },
    }
}

/// The payloads of the listed frames.
pub(crate) fn payloads_of<'a>(frames: &'a [CanFrameDto], idx: &Vec<usize>) -> (ps: Vec<&'a [u8]>)
    requires
        forall|a: int| 0 <= a < idx@.len() ==> (#[trigger] idx@[a]) < frames@.len(),
    ensures
        ps@.map_values(|p: &[u8]| p@) == payloads_at(datas(frames@), idx@),
{
    let mut ps: Vec<&[u8]> = Vec::new();
    let mut a: usize = 0;
    while a < idx.len()
        invariant
            a <= idx@.len(),
            forall|t: int| 0 <= t < idx@.len() ==> (#[trigger] idx@[t]) < frames@.len(),
            ps@.map_values(|p: &[u8]| p@) =~= payloads_at(datas(frames@), idx@).subrange(
                0,
                a as int,
            ),
        decreases idx.len() - a,
    {
        let i = idx[a];
        let ghost before = ps@;
        let d = frames[i].data.as_slice();
        ps.push(d);
        assert(d@ == datas(frames@)[i as int]);
        assert(ps@.map_values(|p: &[u8]| p@) =~= before.map_values(|p: &[u8]| p@).push(d@));
        a = a + 1;
    }
    assert(payloads_at(datas(frames@), idx@).subrange(0, idx@.len() as int) =~= payloads_at(
        datas(frames@),
        idx@,
    ));
    ps
}

pub(crate) proof fn lemma_seq_min_step(s: Seq<nat>, k: int)
    requires
        0 <= k < s.len(),
    ensures
        seq_min(s.subrange(0, k + 1)) == if k == 0 {
            s[0]
        } else if s[k] < seq_min(s.subrange(0, k)) {
            s[k]
        } else {
            seq_min(s.subrange(0, k))
        },
{
    assert(s.subrange(0, k + 1).drop_last() =~= s.subrange(0, k));
}

/// Bits covered by every payload.
pub(crate) fn min_bits_of(ps: &Vec<&[u8]>) -> (m: u32)
    requires
        forall|k: int| 0 <= k < ps@.len() ==> (#[trigger] ps@[k])@.len() * 8 <= u32::MAX,
    ensures
        m as nat == min_bits(ps@.map_values(|p: &[u8]| p@)),
{
    let ghost lens = ps@.map_values(|p: &[u8]| p@).map_values(|p: Seq<u8>| p.len() * 8);
    let mut m: u32 = 0;
    let mut k: usize = 0;
    while k < ps.len()
        invariant
            lens == ps@.map_values(|p: &[u8]| p@).map_values(|p: Seq<u8>| p.len() * 8),
            k <= ps@.len(),
            forall|t: int| 0 <= t < ps@.len() ==> (#[trigger] ps@[t])@.len() * 8 <= u32::MAX,
            m as nat == seq_min(lens.subrange(0, k as int)),
        decreases ps.len() - k,
    {
        let bits = (ps[k].len() * 8) as u32;
        assert(lens[k as int] == bits);
        proof {
            lemma_seq_min_step(lens, k as int);
        }
        if k == 0 || bits < m {
            m = bits;
        }
        k = k + 1;
    }
    assert(lens.subrange(0, ps@.len() as int) =~= lens);
    m
}

pub open spec fn codes_view(codes: Seq<u64>) -> Seq<int> {
    codes.map_values(|c: u64| c as int)
}

/// Insert `c` into a strictly increasing list unless present.
fn insert_code(codes: &mut Vec<u64>, c: u64)
    requires
        strictly_increasing(codes_view(old(codes)@)),
    ensures
        strictly_increasing(codes_view(final(codes)@)),
        forall|x: int|
            #[trigger] codes_view(final(codes)@).contains(x) <==> (codes_view(old(codes)@).contains(x)
                || x == c),
{
    let ghost before = codes@;
    let mut pos: usize = 0;
    while pos < codes.len() && codes[pos] < c
        invariant
            pos <= codes@.len(),
            codes@ == before,
            forall|k: int| 0 <= k < pos ==> (#[trigger] codes@[k]) < c,
        decreases codes.len() - pos,
    {
        pos = pos + 1;
    }
    if pos < codes.len() && codes[pos] == c {
        assert(codes_view(codes@)[pos as int] == c);
        return;
    }
    assert(pos < before.len() ==> before[pos as int] > c);
    codes.insert(pos, c);
    let ghost after = codes@;
    assert(after =~= before.subrange(0, pos as int).push(c) + before.subrange(pos as int, before.len() as int));
    assert forall|a: int, b: int| 0 <= a < b < after.len() implies #[trigger] codes_view(after)[a]
        < #[trigger] codes_view(after)[b] by {
        if b < pos {
            assert(codes_view(before)[a] < codes_view(before)[b]);
        } else if b == pos {
        } else if a < pos {
            assert(after[b] == before[b - 1]);
            if b - 1 > pos {
                assert(codes_view(before)[pos as int] < codes_view(before)[b - 1]);
            }
            assert(before[b - 1] >= c);
        } else if a == pos {
            assert(after[b] == before[b - 1]);
            assert(before[b - 1] >= c);
            if pos < before.len() {
                assert(before[pos as int] != c);
                if b - 1 > pos {
                    assert(codes_view(before)[pos as int] < codes_view(before)[b - 1]);
                }
            }
        } else {
            assert(codes_view(before)[a - 1] < codes_view(before)[b - 1]);
        }
    }
    assert forall|x: int| #[trigger] codes_view(after).contains(x) <==> (codes_view(before).contains(x)
        || x == c) by {
        if codes_view(after).contains(x) {
            let k = choose|k: int| 0 <= k < after.len() && codes_view(after)[k] == x;
            if k < pos {
                assert(codes_view(before)[k] == x);
            } else if k > pos {
                assert(codes_view(before)[k - 1] == x);
            }
        }
        if codes_view(before).contains(x) {
            let k = choose|k: int| 0 <= k < before.len() && codes_view(before)[k] == x;
            if k < pos {
                assert(codes_view(after)[k] == x);
            } else {
                assert(codes_view(after)[k + 1] == x);
            }
        }
        if x == c {
            assert(codes_view(after)[pos as int] == x);
        }
    }
}

/// Key codes of the groups of all recordings, ascending.
fn collect_codes(
    recordings: &[LabeledRecording],
    grouped: &Vec<Vec<IdGroup>>,
) -> (codes: Vec<u64>)
    requires
        grouped@.len() == recordings@.len(),
        forall|r: int|
            0 <= r < recordings@.len() ==> is_grouping(
                recordings@[r].frames@,
                None,
                (#[trigger] grouped@[r])@,
            ),
    ensures
        codes_view(codes@) == sorted_codes(recordings_view(recordings@)),
        strictly_increasing(codes_view(codes@)),
        forall|c: int| #[trigger] codes_view(codes@).contains(c) <==> all_codes(recordings_view(recordings@), c),
{
    let ghost rv = recordings_view(recordings@);
    let mut codes: Vec<u64> = Vec::new();
    let mut r: usize = 0;
    while r < grouped.len()
        invariant
            rv == recordings_view(recordings@),
            grouped@.len() == recordings@.len(),
            forall|t: int|
                0 <= t < recordings@.len() ==> is_grouping(
                    recordings@[t].frames@,
                    None,
                    (#[trigger] grouped@[t])@,
                ),
            r <= grouped@.len(),
            strictly_increasing(codes_view(codes@)),
            forall|x: int|
                #[trigger] codes_view(codes@).contains(x) <==> exists|t: int, i: int|
                    0 <= t < r && 0 <= i < rv[t].1.len() && key_code(key_of(#[trigger] rv[t].1[i]))
                        == x,
        decreases grouped.len() - r,
    {
        let groups = &grouped[r];
        let ghost frames = rv[r as int].1;
        assert(frames == recordings@[r as int].frames@);
        assert(is_grouping(frames, None, groups@));
        let ghost start = codes_view(codes@);
        let mut g: usize = 0;
        while g < groups.len()
            invariant
                is_grouping(frames, None, groups@),
                g <= groups@.len(),
                strictly_increasing(codes_view(codes@)),
                forall|x: int|
                    #[trigger] codes_view(codes@).contains(x) <==> (start.contains(x) || exists|h: int|
                        0 <= h < g && key_code((groups@[h].can_id, groups@[h].is_extended)) == x),
            decreases groups.len() - g,
        {
            let c: u64 = (groups[g].can_id as u64) * 2 + if groups[g].is_extended {
                1u64
            } else {
                0u64
            };
            insert_code(&mut codes, c);
            proof {
                assert forall|x: int|
                    #[trigger] codes_view(codes@).contains(x) <==> (start.contains(x) || exists|h: int|
                        0 <= h < g + 1 && key_code((groups@[h].can_id, groups@[h].is_extended)) == x) by {
                    if x == c {
                        assert(key_code((groups@[g as int].can_id, groups@[g as int].is_extended)) == x);
                    }
                }
            }
            g = g + 1;
        }
        proof {
            // Group keys of a grouping are exactly the frame keys.
            assert forall|x: int| #[trigger] codes_view(codes@).contains(x) <==> exists|t: int, i: int|
                0 <= t < r + 1 && 0 <= i < rv[t].1.len() && key_code(key_of(#[trigger] rv[t].1[i]))
                    == x by {
                if codes_view(codes@).contains(x) && !start.contains(x) {
                    let h = choose|h: int|
                        0 <= h < groups@.len() && key_code(
                            (groups@[h].can_id, groups@[h].is_extended),
                        ) == x;
                    let idx = groups@[h].frames@;
                    assert(idx.len() > 0);
                    let i = idx[0] as int;
                    assert(key_of(frames[i]) == (groups@[h].can_id, groups@[h].is_extended));
                    assert(key_code(key_of(rv[r as int].1[i])) == x);
                }
                if exists|t: int, i: int|
                    0 <= t < r + 1 && 0 <= i < rv[t].1.len() && key_code(key_of(#[trigger] rv[t].1[i]))
                        == x {
                    let (t, i) = choose|t: int, i: int|
                        0 <= t < r + 1 && 0 <= i < rv[t].1.len() && key_code(
                            key_of(#[trigger] rv[t].1[i]),
                        ) == x;
                    if t == r {
                        let h = choose|h: int|
                            0 <= h < groups@.len() && (groups@[h].can_id, groups@[h].is_extended)
                                == key_of(frames[i]);
                        assert(key_code((groups@[h].can_id, groups@[h].is_extended)) == x);
                    }
                }
            }
        }
        r = r + 1;
    }
    proof {
        let cv = codes_view(codes@);
        assert forall|c: int| #[trigger] cv.contains(c) <==> all_codes(rv, c) by {}
        let s = sorted_codes(rv);
        assert(strictly_increasing(s) && forall|c: int| #[trigger] s.contains(c) <==> all_codes(rv, c));
        let lt = |p: int, q: int| p < q;
        assert forall|a: int, b: int| 0 <= a < b < cv.len() implies lt(#[trigger] cv[a], #[trigger] cv[b]) by {}
        assert forall|a: int, b: int| 0 <= a < b < s.len() implies lt(#[trigger] s[a], #[trigger] s[b]) by {}
        lemma_strictly_sorted_unique(cv, s, lt);
    }
    codes
}

/// Every recording is grouped by key.
pub open spec fn all_grouped(recordings: Seq<LabeledRecording>, grouped: Seq<Vec<IdGroup>>) -> bool {
    &&& grouped.len() == recordings.len()
    &&& forall|r: int|
        0 <= r < recordings.len() ==> is_grouping(
            recordings[r].frames@,
            None,
            (#[trigger] grouped[r])@,
        )
}

/// `found[r]` is the index of the group of `key` in recording `r`, if any.
pub open spec fn lookup_facts(
    recordings: Seq<LabeledRecording>,
    grouped: Seq<Vec<IdGroup>>,
    found: Seq<Option<usize>>,
    key: (u32, bool),
) -> bool {
    &&& found.len() == recordings.len()
    &&& forall|r: int|
        #![trigger found[r]]
        0 <= r < found.len() ==> (found[r] is Some <==> has_key(recordings[r].frames@, key))
    &&& forall|r: int|
        #![trigger found[r]]
        0 <= r < found.len() ==> (found[r] matches Some(g) ==> g < grouped[r]@.len()
            && grouped[r]@[g as int].frames@ == group_of(recordings[r].frames@, key)
            && forall|a: int|
            0 <= a < grouped[r]@[g as int].frames@.len() ==> (#[trigger] grouped[r]@[g as int].frames@[a])
                < recordings[r].frames@.len())
}

/// Find the group of `(id, ext)` in every recording.
fn lookup_all(
    recordings: &[LabeledRecording],
    grouped: &Vec<Vec<IdGroup>>,
    id: u32,
    ext: bool,
) -> (found: Vec<Option<usize>>)
    requires
        all_grouped(recordings@, grouped@),
    ensures
        lookup_facts(recordings@, grouped@, found@, (id, ext)),
{
    let mut found: Vec<Option<usize>> = Vec::new();
    let mut r: usize = 0;
    while r < grouped.len()
        invariant
            all_grouped(recordings@, grouped@),
            r <= grouped@.len(),
            lookup_facts(recordings@.take(r as int), grouped@, found@, (id, ext)),
        decreases grouped.len() - r,
    {
        let f = find_group(&grouped[r], id, ext);
        proof {
            let frames = recordings@[r as int].frames@;
            assert(is_grouping(frames, None, grouped@[r as int]@));
            lemma_grouping_lookup(frames, grouped@[r as int]@, (id, ext), f);
            if let Some(g) = f {
                assert(group_upto(
                    frames,
                    None,
                    (grouped@[r as int]@[g as int].can_id, grouped@[r as int]@[g as int].is_extended),
                    grouped@[r as int]@[g as int].frames@,
                    frames.len() as int,
                ));
            }
        }
        found.push(f);
        r = r + 1;
    }
    proof {
        assert(recordings@.take(grouped@.len() as int) =~= recordings@);
    }
    found
}

/// The exclusive-ID entry of `(id, ext)`.
fn exclusive_for(
    recordings: &[LabeledRecording],
    grouped: &Vec<Vec<IdGroup>>,
    found: &Vec<Option<usize>>,
    id: u32,
    ext: bool,
) -> (e: ExclusiveId)
    requires
        all_grouped(recordings@, grouped@),
        lookup_facts(recordings@, grouped@, found@, (id, ext)),
    ensures
        e@ == exclusive_view(recordings_view(recordings@), (id, ext)),
{
    let ghost rv = recordings_view(recordings@);
    let ghost pick = present_pick(rv, (id, ext));
    let ghost rr = rec_range(rv.len());
    let mut present: Vec<(String, u64)> = Vec::new();
    let mut r: usize = 0;
    while r < found.len()
        invariant
            rv == recordings_view(recordings@),
            pick == present_pick(rv, (id, ext)),
            rr == rec_range(rv.len()),
            all_grouped(recordings@, grouped@),
            lookup_facts(recordings@, grouped@, found@, (id, ext)),
            r <= found@.len(),
            label_u64_view(present@) == rr.take(r as int).filter_map(pick),
        decreases found.len() - r,
    {
        proof {
            rr.lemma_filter_map_take_succ(pick, r as int);
        }
        let ghost before = present@;
        match found[r] {
            Some(g) => {
                let n = grouped[r][g].frames.len() as u64;
                let l = recordings[r].label.clone();
                present.push((l, n));
                proof {
                    assert(rv[r as int].0 == recordings@[r as int].label@);
                    assert(label_u64_view(present@) =~= label_u64_view(before).push((l@, n)));
                }
            },
            None => {},
        }
        r = r + 1;
    }
    proof {
        assert(rr.take(rv.len() as int) =~= rr);
    }
    ExclusiveId { can_id: id, is_extended: ext, present_in: present }
}

/// The payloads of `(id, ext)` in every recording, time-ordered.
fn key_payload_sets<'a>(
    recordings: &[LabeledRecording<'a>],
    grouped: &Vec<Vec<IdGroup>>,
    found: &Vec<Option<usize>>,
    id: u32,
    ext: bool,
) -> (pss: Vec<Vec<&'a [u8]>>)
    requires
        all_grouped(recordings@, grouped@),
        lookup_facts(recordings@, grouped@, found@, (id, ext)),
        forall|r: int| 0 <= r < found@.len() ==> #[trigger] found@[r] is Some,
    ensures
        pss@.len() == recordings@.len(),
        forall|r: int|
            0 <= r < pss@.len() ==> (#[trigger] pss@[r])@.map_values(|p: &[u8]| p@) == key_payloads(
                recordings@[r].frames@,
                (id, ext),
            ),
{
    let mut pss: Vec<Vec<&'a [u8]>> = Vec::new();
    let mut r: usize = 0;
    while r < found.len()
        invariant
            all_grouped(recordings@, grouped@),
            lookup_facts(recordings@, grouped@, found@, (id, ext)),
            forall|t: int| 0 <= t < found@.len() ==> #[trigger] found@[t] is Some,
            r <= found@.len(),
            pss@.len() == r,
            forall|t: int|
                0 <= t < r ==> (#[trigger] pss@[t])@.map_values(|p: &[u8]| p@) == key_payloads(
                    recordings@[t].frames@,
                    (id, ext),
                ),
        decreases found.len() - r,
    {
        assert(found@[r as int] is Some);
        let g = match found[r] {
            Some(g) => g,
            None => 0,
        };
        let frames: &'a [CanFrameDto] = recordings[r].frames;
        let ps = payloads_of(frames, &grouped[r][g].frames);
        pss.push(ps);
        r = r + 1;
    }
    pss
}

/// Bits covered by every payload of every set.
fn common_span(pss: &Vec<Vec<&[u8]>>) -> (m: u32)
    requires
        forall|r: int, k: int|
            0 <= r < pss@.len() && 0 <= k < pss@[r]@.len() ==> (#[trigger] pss@[r]@[k])@.len() * 8
                <= u32::MAX,
    ensures
        m as nat == seq_min(
            Seq::new(pss@.len(), |r: int| min_bits(pss@[r]@.map_values(|p: &[u8]| p@))),
        ),
{
    let ghost mins = Seq::new(pss@.len(), |r: int| min_bits(pss@[r]@.map_values(|p: &[u8]| p@)));
    let mut m: u32 = 0;
    let mut r: usize = 0;
    while r < pss.len()
        invariant
            mins == Seq::new(pss@.len(), |t: int| min_bits(pss@[t]@.map_values(|p: &[u8]| p@))),
            forall|t: int, k: int|
                0 <= t < pss@.len() && 0 <= k < pss@[t]@.len() ==> (#[trigger] pss@[t]@[k])@.len()
                    * 8 <= u32::MAX,
            r <= pss@.len(),
            m as nat == seq_min(mins.subrange(0, r as int)),
        decreases pss.len() - r,
    {
        let b = min_bits_of(&pss[r]);
        proof {
            lemma_seq_min_step(mins, r as int);
        }
        if r == 0 || b < m {
            m = b;
        }
        r = r + 1;
    }
    assert(mins.subrange(0, pss@.len() as int) =~= mins);
    m
}

/// Bit activity of every payload set over `span` bits.
fn activities(pss: &Vec<Vec<&[u8]>>, span: u32) -> (acts: Vec<Vec<BitActivityCell>>)
    ensures
        acts@.len() == pss@.len(),
        forall|r: int|
            0 <= r < acts@.len() ==> (#[trigger] acts@[r])@ == spec_bit_activity(
                pss@[r]@.map_values(|p: &[u8]| p@),
                span,
            ),
{
    let mut acts: Vec<Vec<BitActivityCell>> = Vec::new();
    let mut r: usize = 0;
    while r < pss.len()
        invariant
            r <= pss@.len(),
            acts@.len() == r,
            forall|t: int|
                0 <= t < r ==> (#[trigger] acts@[t])@ == spec_bit_activity(
                    pss@[t]@.map_values(|p: &[u8]| p@),
                    span,
                ),
        decreases pss.len() - r,
    {
        let cells = bit_activity(pss[r].as_slice(), span);
        acts.push(cells);
        r = r + 1;
    }
    acts
}

/// The constant value of bit `b` in every recording, if it is constant in all.
fn bit_values(acts: &Vec<Vec<BitActivityCell>>, b: usize) -> (v: Option<Vec<u8>>)
    requires
        forall|r: int| 0 <= r < acts@.len() ==> b < (#[trigger] acts@[r])@.len(),
    ensures
        v is Some <==> forall|r: int|
            0 <= r < acts@.len() ==> (#[trigger] spec_state(acts@[r]@[b as int]) == BitState::Always0
                || spec_state(acts@[r]@[b as int]) == BitState::Always1),
        v matches Some(vals) ==> vals@.len() == acts@.len() && forall|r: int|
            0 <= r < acts@.len() ==> #[trigger] vals@[r] == const_value(spec_state(acts@[r]@[b as int])),
{
    let mut vals: Vec<u8> = Vec::new();
    let mut r: usize = 0;
    while r < acts.len()
        invariant
            forall|t: int| 0 <= t < acts@.len() ==> b < (#[trigger] acts@[t])@.len(),
            r <= acts@.len(),
            vals@.len() == r,
            forall|t: int|
                0 <= t < r ==> (#[trigger] spec_state(acts@[t]@[b as int]) == BitState::Always0
                    || spec_state(acts@[t]@[b as int]) == BitState::Always1),
            forall|t: int|
                0 <= t < r ==> #[trigger] vals@[t] == const_value(spec_state(acts@[t]@[b as int])),
        decreases acts.len() - r,
    {
        let s = acts[r][b].state();
        match s {
            BitState::Always0 => vals.push(0u8),
            BitState::Always1 => vals.push(1u8),
            _ => {
                return None;
            },
        }
        r = r + 1;
    }
    Some(vals)
}

/// Two neighbouring values differ.
fn any_adjacent_differ(v: &Vec<u8>) -> (d: bool)
    ensures
        d == exists|r: int| 1 <= r < v@.len() && #[trigger] v@[r] != v@[r - 1],
{
    let mut r: usize = 1;
    while r < v.len()
        invariant
            1 <= r,
            forall|t: int| 1 <= t < r && t < v@.len() ==> #[trigger] v@[t] == v@[t - 1],
        decreases v.len() - r,
    {
        if v[r] != v[r - 1] {
            assert(v@[r as int] != v@[r as int - 1]);
            return true;
        }
        r = r + 1;
    }
    false
}

/// Recording labels paired with one value each.
fn labeled_values(recordings: &[LabeledRecording], v: &Vec<u8>) -> (out: Vec<(String, u8)>)
    requires
        v@.len() == recordings@.len(),
    ensures
        label_u8_view(out@) == Seq::new(
            recordings@.len(),
            |r: int| (recordings_view(recordings@)[r].0, v@[r]),
        ),
{
    let ghost rv = recordings_view(recordings@);
    let mut out: Vec<(String, u8)> = Vec::new();
    let mut r: usize = 0;
    while r < v.len()
        invariant
            rv == recordings_view(recordings@),
            v@.len() == recordings@.len(),
            r <= v@.len(),
            label_u8_view(out@) =~= Seq::new(r as nat, |t: int| (rv[t].0, v@[t])),
        decreases v.len() - r,
    {
        let l = recordings[r].label.clone();
        let ghost before = out@;
        out.push((l, v[r]));
        proof {
            assert(rv[r as int].0 == recordings@[r as int].label@);
            assert(label_u8_view(out@) =~= label_u8_view(before).push((l@, v@[r as int])));
        }
        r = r + 1;
    }
    out
}

/// Recording labels paired with the frame count of `(id, ext)`.
fn labeled_counts(
    recordings: &[LabeledRecording],
    grouped: &Vec<Vec<IdGroup>>,
    found: &Vec<Option<usize>>,
    id: u32,
    ext: bool,
) -> (out: Vec<(String, u64)>)
    requires
        all_grouped(recordings@, grouped@),
        lookup_facts(recordings@, grouped@, found@, (id, ext)),
        forall|r: int| 0 <= r < found@.len() ==> #[trigger] found@[r] is Some,
    ensures
        label_u64_view(out@) == Seq::new(
            recordings@.len(),
            |r: int|
                (
                    recordings_view(recordings@)[r].0,
                    group_of(recordings_view(recordings@)[r].1, (id, ext)).len() as u64,
                ),
        ),
{
    let ghost rv = recordings_view(recordings@);
    let mut out: Vec<(String, u64)> = Vec::new();
    let mut r: usize = 0;
    while r < found.len()
        invariant
            rv == recordings_view(recordings@),
            all_grouped(recordings@, grouped@),
            lookup_facts(recordings@, grouped@, found@, (id, ext)),
            forall|t: int| 0 <= t < found@.len() ==> #[trigger] found@[t] is Some,
            r <= found@.len(),
            label_u64_view(out@) =~= Seq::new(
                r as nat,
                |t: int| (rv[t].0, group_of(rv[t].1, (id, ext)).len() as u64),
            ),
        decreases found.len() - r,
    {
        assert(found@[r as int] is Some);
        let g = match found[r] {
            Some(g) => g,
            None => 0,
        };
        let n = grouped[r][g].frames.len() as u64;
        let l = recordings[r].label.clone();
        let ghost before = out@;
        out.push((l, n));
        proof {
            assert(rv[r as int] == (recordings@[r as int].label@, recordings@[r as int].frames@));
            assert(label_u64_view(out@) =~= label_u64_view(before).push((l@, n)));
        }
        r = r + 1;
    }
    out
}

/// Every payload's bit count fits in `u32`.
pub open spec fn payloads_fit(recordings: Seq<LabeledRecording>) -> bool {
    forall|r: int, i: int|
        0 <= r < recordings.len() && 0 <= i < recordings[r].frames@.len() ==> (#[trigger] recordings[r].frames@[i]).data@.len()
            * 8 <= u32::MAX
}

/// Bit `b` as a differential bit of `(id, ext)`, when it is one.
fn differential_at(
    recordings: &[LabeledRecording],
    acts: &Vec<Vec<BitActivityCell>>,
    b: u32,
    id: u32,
    ext: bool,
) -> (d: Option<DifferentialBit>)
    requires
        acts@.len() == recordings@.len(),
        forall|r: int| 0 <= r < acts@.len() ==> b < (#[trigger] acts@[r])@.len(),
        forall|r: int|
            0 <= r < acts@.len() ==> spec_state((#[trigger] acts@[r])@[b as int]) == rec_state(
                recordings_view(recordings@)[r].1,
                (id, ext),
                b,
            ),
    ensures
        d is Some <==> is_differential(recordings_view(recordings@), (id, ext), b),
        d matches Some(x) ==> x@ == differential_bit_view(recordings_view(recordings@), (id, ext), b),
{
    let ghost rv = recordings_view(recordings@);
    let ghost key = (id, ext);
    let vals = bit_values(acts, b as usize);
    match vals {
        Some(v) => {
            let differs = any_adjacent_differ(&v);
            if differs {
                let values = labeled_values(recordings, &v);
                let d = DifferentialBit { bit: b, values };
                proof {
                    let r = choose|r: int| 1 <= r < v@.len() && #[trigger] v@[r] != v@[r - 1];
                    assert(const_value(rec_state(rv[r].1, key, b)) != const_value(
                        rec_state(rv[r - 1].1, key, b),
                    ));
                    assert forall|t: int| 0 <= t < rv.len() implies (#[trigger] rec_state(
                        rv[t].1,
                        key,
                        b,
                    ) == BitState::Always0 || rec_state(rv[t].1, key, b) == BitState::Always1) by {
                        assert(spec_state(acts@[t]@[b as int]) == rec_state(rv[t].1, key, b));
                    }
                    assert(is_differential(rv, key, b));
                    assert(d@.values =~= differential_bit_view(rv, key, b).values);
                }
                Some(d)
            } else {
                proof {
                    if is_differential(rv, key, b) {
                        let r = choose|r: int|
                            1 <= r < rv.len() && #[trigger] const_value(rec_state(rv[r].1, key, b))
                                != const_value(rec_state(rv[r - 1].1, key, b));
                        assert(v@[r] == const_value(spec_state(acts@[r]@[b as int])));
                        assert(v@[r - 1] == const_value(spec_state(acts@[r - 1]@[b as int])));
                        assert(v@[r] != v@[r - 1]);
                    }
                }
                None
            }
        },
        None => {
            proof {
                if is_differential(rv, key, b) {
                    assert forall|r: int| 0 <= r < acts@.len() implies (#[trigger] spec_state(
                        acts@[r]@[b as int],
                    ) == BitState::Always0 || spec_state(acts@[r]@[b as int])
                        == BitState::Always1) by {
                        assert(rec_state(rv[r].1, key, b) == BitState::Always0 || rec_state(
                            rv[r].1,
                            key,
                            b,
                        ) == BitState::Always1);
                    }
                }
            }
            None
        },
    }
}

/// The shared-ID entry of `(id, ext)`, present in every recording; `None`
/// when it has no differential bit.
fn shared_for(
    recordings: &[LabeledRecording],
    grouped: &Vec<Vec<IdGroup>>,
    found: &Vec<Option<usize>>,
    id: u32,
    ext: bool,
) -> (d: Option<IdDiff>)
    requires
        all_grouped(recordings@, grouped@),
        lookup_facts(recordings@, grouped@, found@, (id, ext)),
        forall|r: int| 0 <= r < found@.len() ==> #[trigger] found@[r] is Some,
        payloads_fit(recordings@),
    ensures
        d matches Some(x) ==> x@ == id_diff_view(recordings_view(recordings@), (id, ext)),
        d is None <==> diff_bits(recordings_view(recordings@), (id, ext)).len() == 0,
{
    let ghost rv = recordings_view(recordings@);
    let ghost key = (id, ext);
    let pss = key_payload_sets(recordings, grouped, found, id, ext);
    proof {
        assert forall|r: int, k: int|
            0 <= r < pss@.len() && 0 <= k < pss@[r]@.len() implies (#[trigger] pss@[r]@[k])@.len()
                * 8 <= u32::MAX by {
            let frames = recordings@[r].frames@;
            assert(found@[r] is Some);
            let g = found@[r]->0;
            let gi = grouped@[r]@[g as int].frames@;
            assert(pss@[r]@.map_values(|p: &[u8]| p@)[k] == key_payloads(frames, key)[k]);
            assert(gi == group_of(frames, key));
            assert(pss@[r]@.map_values(|p: &[u8]| p@).len() == gi.len());
            assert(gi[k] < frames.len());
            assert(key_payloads(frames, key)[k] == frames[gi[k] as int].data@);
        }
    }
    let span = common_span(&pss);
    proof {
        assert(Seq::new(pss@.len(), |r: int| min_bits(pss@[r]@.map_values(|p: &[u8]| p@)))
            =~= Seq::new(rv.len(), |r: int| min_bits(key_payloads(rv[r].1, key))));
    }
    let acts = activities(&pss, span);
    let ghost pick = diff_pick(rv, key);
    let ghost br = bit_range(span as nat);
    let mut bits: Vec<DifferentialBit> = Vec::new();
    let mut b: u32 = 0;
    while b < span
        invariant
            rv == recordings_view(recordings@),
            key == (id, ext),
            pick == diff_pick(rv, key),
            br == bit_range(span as nat),
            span as nat == common_bits(rv, key),
            acts@.len() == rv.len(),
            forall|r: int|
                0 <= r < acts@.len() ==> (#[trigger] acts@[r])@ == spec_bit_activity(
                    key_payloads(rv[r].1, key),
                    span,
                ),
            b <= span,
            bits@.map_values(|x: DifferentialBit| x@) == br.take(b as int).filter_map(pick),
        decreases span - b,
    {
        proof {
            br.lemma_filter_map_take_succ(pick, b as int);
            assert forall|r: int| 0 <= r < acts@.len() implies spec_state(
                (#[trigger] acts@[r])@[b as int],
            ) == rec_state(rv[r].1, key, b) by {}
        }
        let ghost before = bits@;
        let found_bit = differential_at(recordings, &acts, b, id, ext);
        match found_bit {
            Some(d) => {
                bits.push(d);
                proof {
                    assert(br[b as int] == b);
                    assert(bits@.map_values(|x: DifferentialBit| x@) =~= before.map_values(
                        |x: DifferentialBit| x@,
                    ).push(d@));
                }
            },
            None => {
                assert(br[b as int] == b);
            },
        }
        b = b + 1;
    }
    proof {
        assert(br.take(span as int) =~= br);
    }
    if bits.len() == 0 {
        None
    } else {
        let counts = labeled_counts(recordings, grouped, found, id, ext);
        Some(
            IdDiff {
                can_id: id,
                is_extended: ext,
                frames_per_recording: counts,
                differential_bits: bits,
            },
        )
    }
}

/// Every entry names a group.
fn all_some(found: &Vec<Option<usize>>) -> (r: bool)
    ensures
        r == forall|t: int| 0 <= t < found@.len() ==> #[trigger] found@[t] is Some,
{
    let mut t: usize = 0;
    while t < found.len()
        invariant
            t <= found@.len(),
            forall|u: int| 0 <= u < t ==> #[trigger] found@[u] is Some,
        decreases found.len() - t,
    {
        if found[t].is_none() {
            return false;
        }
        t = t + 1;
    }
    true
}

/// Compare two or more labeled recordings.
///
/// IDs come in ascending order (by CAN ID, standard before extended). An ID
/// missing from some recording is exclusive; an ID present in all of them is
/// listed as shared only when it has a differential bit over the bit span
/// that every one of its frames covers.
pub fn diff_recordings(recordings: &[LabeledRecording]) -> (report: DiffReport)
    requires
        payloads_fit(recordings@),
    ensures
        report@ == spec_diff(recordings_view(recordings@)),
{
    let ghost rv = recordings_view(recordings@);
    let labels = clone_labels(recordings);
    let grouped = group_all(recordings);
    let codes = collect_codes(recordings, &grouped);
    let ghost cv = codes_view(codes@);
    assert(forall|c: int| #[trigger] cv.contains(c) <==> all_codes(rv, c));
    let mut shared: Vec<IdDiff> = Vec::new();
    let mut exclusive: Vec<ExclusiveId> = Vec::new();
    let mut k: usize = 0;
    while k < codes.len()
        invariant
            rv == recordings_view(recordings@),
            cv == codes_view(codes@),
            cv == sorted_codes(rv),
            forall|x: int| #[trigger] cv.contains(x) <==> all_codes(rv, x),
            payloads_fit(recordings@),
            all_grouped(recordings@, grouped@),
            k <= codes@.len(),
            shared@.map_values(|d: IdDiff| d@) == cv.take(k as int).filter_map(shared_pick(rv)),
            exclusive@.map_values(|e: ExclusiveId| e@) == cv.take(k as int).filter_map(
                exclusive_pick(rv),
            ),
        decreases codes.len() - k,
    {
        proof {
            cv.lemma_filter_map_take_succ(shared_pick(rv), k as int);
            cv.lemma_filter_map_take_succ(exclusive_pick(rv), k as int);
        }
        let c = codes[k];
        proof {
            assert(cv[k as int] == c);
            assert(cv.contains(c as int));
            assert(all_codes(rv, c as int));
            let (r, i) = choose|r: int, i: int|
                0 <= r < rv.len() && 0 <= i < rv[r].1.len() && key_code(key_of(#[trigger] rv[r].1[i]))
                    == c as int;
            let key = key_of(rv[r].1[i]);
            assert(c as int == key.0 * 2 + if key.1 { 1int } else { 0int });
            assert(c / 2 == key.0);
            assert((c % 2 == 1) == key.1);
        }
        let id = (c / 2) as u32;
        let ext = c % 2 == 1;
        proof {
            assert(code_key(c as int) == (id, ext));
        }
        let ghost before_s = shared@;
        let ghost before_e = exclusive@;
        let found = lookup_all(recordings, &grouped, id, ext);
        let present = all_some(&found);
        proof {
            assert(present == present_all(rv, (id, ext))) by {
                if present {
                    assert forall|t: int| 0 <= t < rv.len() implies #[trigger] has_key(
                        rv[t].1,
                        (id, ext),
                    ) by {
                        assert(rv[t].1 == recordings@[t].frames@);
                        assert(found@[t] is Some);
                    }
                } else {
                    let t = choose|t: int| 0 <= t < found@.len() && !(#[trigger] found@[t] is Some);
                    assert(rv[t].1 == recordings@[t].frames@);
                    assert(!has_key(rv[t].1, (id, ext)));
                }
            }
        }
        if !present {
            let e = exclusive_for(recordings, &grouped, &found, id, ext);
            exclusive.push(e);
            proof {
                assert(exclusive_entry(rv, c as int) == Some(e@));
                assert(shared_entry(rv, c as int) is None);
                assert(exclusive@.map_values(|x: ExclusiveId| x@) =~= before_e.map_values(
                    |x: ExclusiveId| x@,
                ).push(e@));
            }
        } else {
            let d = shared_for(recordings, &grouped, &found, id, ext);
            proof {
                assert(exclusive_entry(rv, c as int) is None);
            }
            match d {
                Some(x) => {
                    shared.push(x);
                    proof {
                        assert(shared_entry(rv, c as int) == Some(x@));
                        assert(shared@.map_values(|y: IdDiff| y@) =~= before_s.map_values(
                            |y: IdDiff| y@,
                        ).push(x@));
                    }
                },
                None => {
                    assert(shared_entry(rv, c as int) is None);
                },
            }
        }
        k = k + 1;
    }
    proof {
        assert(cv.take(codes@.len() as int) =~= cv);
    }
    DiffReport { labels, shared, exclusive }
}

/// A reported differential bit is constant within every recording, with
/// values that differ between two neighbouring recordings; it lies in the
/// bit span every frame of the ID covers, and the ID is in every recording.
pub proof fn lemma_differential_bits_are_differential(
    recs: Seq<(Seq<char>, Seq<CanFrameDto>)>,
    i: int,
    j: int,
)
    requires
        0 <= i < spec_diff(recs).shared.len(),
        0 <= j < spec_diff(recs).shared[i].differential_bits.len(),
    ensures
        ({
            let d = spec_diff(recs).shared[i];
            let b = d.differential_bits[j];
            &&& is_differential(recs, (d.can_id, d.is_extended), b.bit)
            &&& b.bit < common_bits(recs, (d.can_id, d.is_extended))
            &&& present_all(recs, (d.can_id, d.is_extended))
            &&& b == differential_bit_view(recs, (d.can_id, d.is_extended), b.bit)
        }),
{
    let shared = spec_diff(recs).shared;
    let d = shared[i];
    assert(shared.contains(d));
    sorted_codes(recs).lemma_filter_map_contains(shared_pick(recs), d);
    let c = choose|c: int| #[trigger] sorted_codes(recs).contains(c) && shared_pick(recs)(c) == Some(d);
    let key = code_key(c);
    assert(shared_entry(recs, c) == Some(d));
    assert(d == id_diff_view(recs, key));
    assert(key == (d.can_id, d.is_extended));
    let bits = d.differential_bits;
    let b = bits[j];
    assert(bits.contains(b));
    bit_range(common_bits(recs, key)).lemma_filter_map_contains(diff_pick(recs, key), b);
    let t = choose|t: u32| #[trigger] bit_range(common_bits(recs, key)).contains(t) && diff_pick(recs, key)(t) == Some(b);
    let q = choose|q: int| 0 <= q < bit_range(common_bits(recs, key)).len() && bit_range(common_bits(recs, key))[q] == t;
    assert(t == q as u32);
}

/// An exclusive ID is missing from some recording; a shared one is in all.
pub proof fn lemma_exclusive_ids_are_missing_somewhere(recs: Seq<(Seq<char>, Seq<CanFrameDto>)>, i: int)
    requires
        0 <= i < spec_diff(recs).exclusive.len(),
    ensures
        !present_all(recs, (spec_diff(recs).exclusive[i].can_id, spec_diff(recs).exclusive[i].is_extended)),
{
    let ex = spec_diff(recs).exclusive;
    let e = ex[i];
    assert(ex.contains(e));
    sorted_codes(recs).lemma_filter_map_contains(exclusive_pick(recs), e);
    let c = choose|c: int| #[trigger] sorted_codes(recs).contains(c) && exclusive_pick(recs)(c) == Some(e);
    assert(exclusive_entry(recs, c) == Some(e));
}

} // verus!
