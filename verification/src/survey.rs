//! Per-ID structural survey: measured timing, DLC census, empirical bit
//! activity, and the proven-facts engines (counters, checksums, mux).
//!
//! Every number in the report is a measurement over the supplied frames.
use vstd::prelude::*;

use crate::activity::{bit_activity, payloads_at, spec_bit_activity, spec_state, BitActivityCell, BitState};
use crate::checksum::{distinct_in_order, distinct_payloads, find_checksums, spec_find_checksums, ChecksumProof};
use crate::counter::{prove_counters, spec_prove_counters, CounterProof};
use crate::diff::{datas, min_bits, min_bits_of, payloads_of};
use crate::frame::{filter_view, group_by_id, group_upto, is_grouping, CanFrameDto, IdGroup};
use crate::mux::{mux_facts, spec_mux_facts, MuxFacts, MuxFactsView};
use crate::text::{dec_str, push_dec, push_str};

verus! {

/// Tuning knobs for the survey; defaults are conservative evidence gates.
#[derive(Debug, Clone)]
pub struct SurveyOptions {
    /// Restrict analysis to these CAN IDs (None = all).
    pub id_filter: Option<Vec<u32>>,
    /// Below this many distinct payloads the checksum sweep is skipped.
    pub min_distinct_payloads_for_checksum: usize,
    /// Minimum consecutive-frame transitions for a counter proof.
    pub min_counter_transitions: u64,
    /// Maximum counter width to search, in bits.
    pub max_counter_width: u32,
    /// Mux variants with fewer frames than this are not counted as evidence.
    pub min_frames_per_mux_variant: u64,
    /// Selector candidates with more distinct values than this are skipped.
    pub max_mux_selector_values: usize,
}

impl Default for SurveyOptions {
    fn default() -> (o: Self)
        ensures
            o.id_filter is None,
            o.min_distinct_payloads_for_checksum == 8,
            o.min_counter_transitions == 16,
            o.max_counter_width == 16,
            o.min_frames_per_mux_variant == 20,
            o.max_mux_selector_values == 32,
    {
        SurveyOptions {
            id_filter: None,
            min_distinct_payloads_for_checksum: 8,
            min_counter_transitions: 16,
            max_counter_width: 16,
            min_frames_per_mux_variant: 20,
            max_mux_selector_values: 32,
        }
    }
}

/// Everything measured and proven about one CAN ID.
#[derive(Debug)]
pub struct IdSurvey {
    pub can_id: u32,
    pub is_extended: bool,
    pub channel: String,
    pub frames: u64,
    pub first_timestamp_us: i64,
    pub last_timestamp_us: i64,
    /// Observed DLC values with counts, ascending by DLC (usually one entry).
    pub dlc_counts: Vec<(u8, u64)>,
    /// Inter-arrival gaps in microseconds, in time order (frames − 1 of them).
    pub gaps_us: Vec<u64>,
    pub distinct_payloads: u64,
    /// One cell per bit up to the largest observed payload.
    pub bit_activity: Vec<BitActivityCell>,
    pub counters: Vec<CounterProof>,
    pub checksums: Vec<ChecksumProof>,
    /// Why the checksum sweep was skipped, if it was.
    pub checksum_note: Option<String>,
    pub mux: Vec<MuxFacts>,
}

/// Survey of a whole recording.
#[derive(Debug)]
pub struct SurveyReport {
    pub total_frames: u64,
    pub unique_ids: u64,
    /// Earliest timestamp (`i64::MAX` when there are no frames).
    pub first_timestamp_us: i64,
    /// Latest timestamp (`i64::MIN` when there are no frames).
    pub last_timestamp_us: i64,
    pub ids: Vec<IdSurvey>,
}

pub struct IdSurveyView {
    pub can_id: u32,
    pub is_extended: bool,
    pub channel: Seq<char>,
    pub frames: u64,
    pub first_timestamp_us: i64,
    pub last_timestamp_us: i64,
    pub dlc_counts: Seq<(u8, u64)>,
    pub gaps_us: Seq<u64>,
    pub distinct_payloads: u64,
    pub bit_activity: Seq<BitActivityCell>,
    pub counters: Seq<CounterProof>,
    pub checksums: Seq<ChecksumProof>,
    pub checksum_note: Option<Seq<char>>,
    pub mux: Seq<MuxFactsView>,
}

pub open spec fn note_view(n: Option<String>) -> Option<Seq<char>> {
    match n {
        Some(s) => Some(s@),
        None => None,
    }
}

impl View for IdSurvey {
    type V = IdSurveyView;

    open spec fn view(&self) -> IdSurveyView {
        IdSurveyView {
            can_id: self.can_id,
            is_extended: self.is_extended,
            channel: self.channel@,
            frames: self.frames,
            first_timestamp_us: self.first_timestamp_us,
            last_timestamp_us: self.last_timestamp_us,
            dlc_counts: self.dlc_counts@,
            gaps_us: self.gaps_us@,
            distinct_payloads: self.distinct_payloads,
            bit_activity: self.bit_activity@,
            counters: self.counters@,
            checksums: self.checksums@,
            checksum_note: note_view(self.checksum_note),
            mux: self.mux@.map_values(|m: MuxFacts| m@),
        }
    }
}

/// Maximum of a sequence of naturals (0 when empty).
pub open spec fn seq_max(s: Seq<nat>) -> nat
    decreases s.len(),
{
    if s.len() == 0 {
        0
    } else {
        let m = seq_max(s.drop_last());
        if s.last() > m {
            s.last()
        } else {
            m
        }
    }
}

/// Bits covered by the longest payload (maximum length × 8).
pub open spec fn max_bits(ps: Seq<Seq<u8>>) -> nat {
    seq_max(ps.map_values(|p: Seq<u8>| p.len() * 8))
}

/// Frames of the group, in group order.
pub open spec fn group_frames(frames: Seq<CanFrameDto>, idx: Seq<usize>) -> Seq<CanFrameDto> {
    Seq::new(idx.len(), |a: int| frames[idx[a] as int])
}

/// Frames with DLC `d`.
pub open spec fn count_dlc(gf: Seq<CanFrameDto>, d: u8) -> nat
    decreases gf.len(),
{
    if gf.len() == 0 {
        0
    } else {
        count_dlc(gf.drop_last(), d) + if gf.last().dlc == d {
            1nat
        } else {
            0nat
        }
    }
}

pub open spec fn dlc_pick(gf: Seq<CanFrameDto>) -> spec_fn(u8) -> Option<(u8, u64)> {
    |d: u8|
        if count_dlc(gf, d) > 0 {
            Some((d, count_dlc(gf, d) as u64))
        } else {
            None
        }
}

/// All DLC values 0 ..= 255.
pub open spec fn all_dlcs() -> Seq<u8> {
    Seq::new(256, |d: int| d as u8)
}

/// The observed DLC values with their counts, ascending.
pub open spec fn dlc_census(gf: Seq<CanFrameDto>) -> Seq<(u8, u64)> {
    all_dlcs().filter_map(dlc_pick(gf))
}

/// Inter-arrival gaps of the group, in time order.
pub open spec fn spec_gaps(gf: Seq<CanFrameDto>) -> Seq<u64> {
    if gf.len() < 2 {
        Seq::empty()
    } else {
        Seq::new(
            (gf.len() - 1) as nat,
            |k: int| (gf[k + 1].timestamp_us - gf[k].timestamp_us) as u64,
        )
    }
}

/// Bits whose state is `Toggles`.
pub open spec fn toggle_mask(cells: Seq<BitActivityCell>) -> Seq<bool> {
    cells.map_values(|c: BitActivityCell| spec_state(c) == BitState::Toggles)
}

/// The note for too few distinct payloads.
pub open spec fn few_distinct_note(distinct: nat, needed: nat) -> Seq<char> {
    "skipped: only "@ + dec_str(distinct) + " distinct payloads (need "@ + dec_str(needed) + ")"@
}

/// The survey of one group of frames.
pub open spec fn id_survey_view(
    frames: Seq<CanFrameDto>,
    key: (u32, bool),
    idx: Seq<usize>,
    opts: SurveyOptions,
) -> IdSurveyView {
    let gf = group_frames(frames, idx);
    let ps = payloads_at(datas(frames), idx);
    let bit_span = max_bits(ps) as u32;
    let bit_limit = min_bits(ps) as u32;
    let cells = spec_bit_activity(ps, bit_span);
    let mask = toggle_mask(cells);
    let distinct = distinct_in_order(ps).len();
    let census = dlc_census(gf);
    IdSurveyView {
        can_id: key.0,
        is_extended: key.1,
        channel: gf[0].channel@,
        frames: gf.len() as u64,
        first_timestamp_us: gf[0].timestamp_us,
        last_timestamp_us: gf.last().timestamp_us,
        dlc_counts: census,
        gaps_us: spec_gaps(gf),
        distinct_payloads: distinct as u64,
        bit_activity: cells,
        counters: spec_prove_counters(
            ps,
            mask,
            bit_limit,
            opts.max_counter_width,
            opts.min_counter_transitions,
        ),
        checksums: if census.len() > 1 || distinct < opts.min_distinct_payloads_for_checksum {
            Seq::empty()
        } else {
            spec_find_checksums(ps, opts.min_distinct_payloads_for_checksum as nat)
        },
        checksum_note: if census.len() > 1 {
            Some("skipped: DLC varies"@)
        } else if distinct < opts.min_distinct_payloads_for_checksum {
            Some(few_distinct_note(distinct, opts.min_distinct_payloads_for_checksum as nat))
        } else {
            None
        },
        mux: spec_mux_facts(
            ps,
            mask,
            bit_limit,
            opts.min_frames_per_mux_variant,
            opts.max_mux_selector_values,
        ),
    }
}

proof fn lemma_seq_max_step(s: Seq<nat>, k: int)
    requires
        0 <= k < s.len(),
    ensures
        seq_max(s.subrange(0, k + 1)) == if s[k] > seq_max(s.subrange(0, k)) {
            s[k]
        } else {
            seq_max(s.subrange(0, k))
        },
{
    assert(s.subrange(0, k + 1).drop_last() =~= s.subrange(0, k));
}

/// Bits covered by the longest payload.
pub(crate) fn max_bits_of(ps: &Vec<&[u8]>) -> (m: u32)
    requires
        forall|k: int| 0 <= k < ps@.len() ==> (#[trigger] ps@[k])@.len() * 8 <= u32::MAX,
    ensures
        m as nat == max_bits(ps@.map_values(|p: &[u8]| p@)),
{
    let ghost lens = ps@.map_values(|p: &[u8]| p@).map_values(|p: Seq<u8>| p.len() * 8);
    let mut m: u32 = 0;
    let mut k: usize = 0;
    while k < ps.len()
        invariant
            lens == ps@.map_values(|p: &[u8]| p@).map_values(|p: Seq<u8>| p.len() * 8),
            k <= ps@.len(),
            forall|t: int| 0 <= t < ps@.len() ==> (#[trigger] ps@[t])@.len() * 8 <= u32::MAX,
            m as nat == seq_max(lens.subrange(0, k as int)),
        decreases ps.len() - k,
    {
        let bits = (ps[k].len() * 8) as u32;
        assert(lens[k as int] == bits);
        proof {
            lemma_seq_max_step(lens, k as int);
        }
        if bits > m {
            m = bits;
        }
        k = k + 1;
    }
    assert(lens.subrange(0, ps@.len() as int) =~= lens);
    m
}

/// DLC histogram of the group, as observed values with counts, ascending.
fn dlc_census_of(frames: &[CanFrameDto], idx: &Vec<usize>) -> (c: Vec<(u8, u64)>)
    requires
        forall|a: int| 0 <= a < idx@.len() ==> (#[trigger] idx@[a]) < frames@.len(),
    ensures
        c@ == dlc_census(group_frames(frames@, idx@)),
{
    let ghost gf = group_frames(frames@, idx@);
    let mut counts: Vec<u64> = Vec::new();
    let mut d: usize = 0;
    while d < 256
        invariant
            d <= 256,
            counts@.len() == d,
            forall|t: int| 0 <= t < d ==> #[trigger] counts@[t] == 0,
        decreases 256 - d,
    {
        counts.push(0);
        d = d + 1;
    }
    let mut a: usize = 0;
    while a < idx.len()
        invariant
            gf == group_frames(frames@, idx@),
            forall|t: int| 0 <= t < idx@.len() ==> (#[trigger] idx@[t]) < frames@.len(),
            a <= idx@.len(),
            counts@.len() == 256,
            forall|t: int| 0 <= t < 256 ==> #[trigger] counts@[t] == count_dlc(gf.take(a as int), t as u8),
            forall|t: int| 0 <= t < 256 ==> #[trigger] counts@[t] <= a,
        decreases idx.len() - a,
    {
        let dlc = frames[idx[a]].dlc;
        proof {
            assert(gf.take(a + 1).drop_last() =~= gf.take(a as int));
            assert(gf.take(a + 1).last() == frames@[idx@[a as int] as int]);
        }
        let cur = counts[dlc as usize];
        counts.set(dlc as usize, cur + 1);
        proof {
            assert forall|t: int| 0 <= t < 256 implies #[trigger] counts@[t] == count_dlc(gf.take(a + 1), t as u8) by {
                if t == dlc as int {
                    assert(t as u8 == dlc);
                } else {
                    assert((t as u8) != dlc);
                }
            }
        }
        a = a + 1;
    }
    assert(gf.take(idx@.len() as int) =~= gf);
    let ghost pick = dlc_pick(gf);
    let ghost all = all_dlcs();
    let mut c: Vec<(u8, u64)> = Vec::new();
    let mut d: usize = 0;
    while d < 256
        invariant
            gf == group_frames(frames@, idx@),
            pick == dlc_pick(gf),
            all == all_dlcs(),
            d <= 256,
            counts@.len() == 256,
            forall|t: int| 0 <= t < 256 ==> #[trigger] counts@[t] == count_dlc(gf, t as u8),
            c@ == all.take(d as int).filter_map(pick),
        decreases 256 - d,
    {
        proof {
            all.lemma_filter_map_take_succ(pick, d as int);
            assert(all[d as int] == d as u8);
        }
        if counts[d] > 0 {
            c.push((d as u8, counts[d]));
        }
        d = d + 1;
    }
    assert(all.take(256) =~= all);
    c
}

/// Inter-arrival gaps of a time-ordered group.
fn gaps_of(frames: &[CanFrameDto], idx: &Vec<usize>) -> (g: Vec<u64>)
    requires
        forall|a: int| 0 <= a < idx@.len() ==> (#[trigger] idx@[a]) < frames@.len(),
        forall|a: int, b: int|
            0 <= a < b < idx@.len() ==> frames@[#[trigger] idx@[a] as int].timestamp_us
                <= frames@[#[trigger] idx@[b] as int].timestamp_us,
    ensures
        g@ == spec_gaps(group_frames(frames@, idx@)),
{
    let ghost gf = group_frames(frames@, idx@);
    let mut g: Vec<u64> = Vec::new();
    if idx.len() < 2 {
        assert(g@ =~= spec_gaps(gf));
        return g;
    }
    let mut k: usize = 0;
    while k + 1 < idx.len()
        invariant
            gf == group_frames(frames@, idx@),
            idx@.len() >= 2,
            forall|a: int| 0 <= a < idx@.len() ==> (#[trigger] idx@[a]) < frames@.len(),
            forall|a: int, b: int|
                0 <= a < b < idx@.len() ==> frames@[#[trigger] idx@[a] as int].timestamp_us
                    <= frames@[#[trigger] idx@[b] as int].timestamp_us,
            k + 1 <= idx@.len(),
            g@ =~= Seq::new(
                k as nat,
                |j: int| (gf[j + 1].timestamp_us - gf[j].timestamp_us) as u64,
            ),
        decreases idx.len() - k,
    {
        let t0 = frames[idx[k]].timestamp_us;
        let t1 = frames[idx[k + 1]].timestamp_us;
        assert(t0 <= t1);
        let gap = ((t1 as i128) - (t0 as i128)) as u64;
        g.push(gap);
        k = k + 1;
    }
    g
}

/// `Toggles` flag of every cell.
fn toggle_mask_of(cells: &Vec<BitActivityCell>) -> (m: Vec<bool>)
    ensures
        m@ == toggle_mask(cells@),
{
    let mut m: Vec<bool> = Vec::new();
    let mut i: usize = 0;
    while i < cells.len()
        invariant
            i <= cells@.len(),
            m@ =~= toggle_mask(cells@).take(i as int),
        decreases cells.len() - i,
    {
        let t = cells[i].state() == BitState::Toggles;
        m.push(t);
        i = i + 1;
    }
    assert(toggle_mask(cells@).take(cells@.len() as int) =~= toggle_mask(cells@));
    m
}

/// "skipped: only {distinct} distinct payloads (need {needed})".
fn few_distinct_message(distinct: u64, needed: usize) -> (s: String)
    ensures
        s@ == few_distinct_note(distinct as nat, needed as nat),
{
    let mut s = String::new();
    push_str(&mut s, "skipped: only ");
    push_dec(&mut s, distinct);
    push_str(&mut s, " distinct payloads (need ");
    push_dec(&mut s, needed as u64);
    push_str(&mut s, ")");
    s
}

/// Earliest timestamp (`i64::MAX` for no frames).
pub open spec fn ts_min(frames: Seq<CanFrameDto>) -> i64
    decreases frames.len(),
{
    if frames.len() == 0 {
        i64::MAX
    } else {
        let m = ts_min(frames.drop_last());
        if frames.last().timestamp_us < m {
            frames.last().timestamp_us
        } else {
            m
        }
    }
}

/// Latest timestamp (`i64::MIN` for no frames).
pub open spec fn ts_max(frames: Seq<CanFrameDto>) -> i64
    decreases frames.len(),
{
    if frames.len() == 0 {
        i64::MIN
    } else {
        let m = ts_max(frames.drop_last());
        if frames.last().timestamp_us > m {
            frames.last().timestamp_us
        } else {
            m
        }
    }
}

/// Every payload's bit count fits in `u32`.
pub open spec fn frames_fit(frames: Seq<CanFrameDto>) -> bool {
    forall|i: int| 0 <= i < frames.len() ==> (#[trigger] frames[i]).data@.len() * 8 <= u32::MAX
}

/// Survey one time-ordered group of frames.
fn survey_group(frames: &[CanFrameDto], group: &IdGroup, options: &SurveyOptions) -> (s: IdSurvey)
    requires
        group.frames@.len() > 0,
        forall|a: int| 0 <= a < group.frames@.len() ==> (#[trigger] group.frames@[a]) < frames@.len(),
        forall|a: int, b: int|
            0 <= a < b < group.frames@.len() ==> frames@[#[trigger] group.frames@[a] as int].timestamp_us
                <= frames@[#[trigger] group.frames@[b] as int].timestamp_us,
        frames_fit(frames@),
    ensures
        s@ == id_survey_view(frames@, (group.can_id, group.is_extended), group.frames@, *options),
{
    let idx = &group.frames;
    let ghost gf = group_frames(frames@, idx@);
    let ps = payloads_of(frames, idx);
    let ghost pv = payloads_at(datas(frames@), idx@);
    proof {
        assert forall|k: int| 0 <= k < ps@.len() implies (#[trigger] ps@[k])@.len() * 8 <= u32::MAX by {
            assert(ps@.map_values(|p: &[u8]| p@)[k] == pv[k]);
            assert(pv[k] == frames@[idx@[k] as int].data@);
        }
    }
    let bit_span = max_bits_of(&ps);
    let bit_limit = min_bits_of(&ps);
    let census = dlc_census_of(frames, idx);
    let gaps = gaps_of(frames, idx);
    let cells = bit_activity(ps.as_slice(), bit_span);
    let mask = toggle_mask_of(&cells);
    let distinct = distinct_payloads(ps.as_slice());
    let nd = distinct.len();
    let counters = prove_counters(
        ps.as_slice(),
        mask.as_slice(),
        bit_limit,
        options.max_counter_width,
        options.min_counter_transitions,
    );
    let checksums: Vec<ChecksumProof>;
    let checksum_note: Option<String>;
    if census.len() > 1 {
        checksums = Vec::new();
        checksum_note = Some("skipped: DLC varies".to_owned());
    } else if nd < options.min_distinct_payloads_for_checksum {
        checksums = Vec::new();
        checksum_note = Some(few_distinct_message(nd as u64, options.min_distinct_payloads_for_checksum));
    } else {
        checksums = find_checksums(ps.as_slice(), options.min_distinct_payloads_for_checksum);
        checksum_note = None;
    }
    let mux = mux_facts(
        ps.as_slice(),
        mask.as_slice(),
        bit_limit,
        options.min_frames_per_mux_variant,
        options.max_mux_selector_values,
    );
    let first = &frames[idx[0]];
    let last = &frames[idx[idx.len() - 1]];
    let s = IdSurvey {
        can_id: group.can_id,
        is_extended: group.is_extended,
        channel: first.channel.clone(),
        frames: idx.len() as u64,
        first_timestamp_us: first.timestamp_us,
        last_timestamp_us: last.timestamp_us,
        dlc_counts: census,
        gaps_us: gaps,
        distinct_payloads: nd as u64,
        bit_activity: cells,
        counters,
        checksums,
        checksum_note,
        mux,
    };
    proof {
        assert(gf[0] == frames@[idx@[0] as int]);
        assert(gf.last() == frames@[idx@[idx@.len() - 1] as int]);
        assert(s@.checksum_note == id_survey_view(frames@, (group.can_id, group.is_extended), idx@, *options).checksum_note);
    }
    s
}

/// Run the full structural survey.
///
/// IDs come in ascending order (by CAN ID, standard before extended), each
/// measured over its frames in timestamp order. Counter widths up to the
/// option's maximum are searched (at most 63 bits, the widest raw value).
pub fn survey_frames(frames: &[CanFrameDto], options: &SurveyOptions) -> (report: SurveyReport)
    requires
        frames_fit(frames@),
    ensures
        report.total_frames == frames@.len(),
        report.unique_ids == report.ids@.len(),
        report.first_timestamp_us == ts_min(frames@),
        report.last_timestamp_us == ts_max(frames@),
        exists|groups: Seq<IdGroup>|
            {
                &&& is_grouping(frames@, filter_view(options.id_filter), groups)
                &&& report.ids@.len() == groups.len()
                &&& forall|g: int|
                    0 <= g < groups.len() ==> (#[trigger] report.ids@[g])@ == id_survey_view(
                        frames@,
                        (groups[g].can_id, groups[g].is_extended),
                        groups[g].frames@,
                        *options,
                    )
            },
{
    let groups = group_by_id(frames, &options.id_filter);
    let ghost fl = filter_view(options.id_filter);
    let mut ids: Vec<IdSurvey> = Vec::new();
    let mut g: usize = 0;
    while g < groups.len()
        invariant
            fl == filter_view(options.id_filter),
            is_grouping(frames@, fl, groups@),
            frames_fit(frames@),
                g <= groups@.len(),
            ids@.len() == g,
            forall|h: int|
                0 <= h < g ==> (#[trigger] ids@[h])@ == id_survey_view(
                    frames@,
                    (groups@[h].can_id, groups@[h].is_extended),
                    groups@[h].frames@,
                    *options,
                ),
        decreases groups.len() - g,
    {
        let group = &groups[g];
        proof {
            assert(group_upto(
                frames@,
                fl,
                (group.can_id, group.is_extended),
                group.frames@,
                frames@.len() as int,
            ));
            assert(group.frames@.len() > 0);
            assert forall|a: int, b: int|
                0 <= a < b < group.frames@.len() implies frames@[#[trigger] group.frames@[a] as int].timestamp_us
                    <= frames@[#[trigger] group.frames@[b] as int].timestamp_us by {
                assert(crate::frame::time_before(frames@, group.frames@[a] as int, group.frames@[b] as int));
            }
        }
        let s = survey_group(frames, group, options);
        ids.push(s);
        g = g + 1;
    }
    let mut first: i64 = i64::MAX;
    let mut last: i64 = i64::MIN;
    let mut i: usize = 0;
    while i < frames.len()
        invariant
            i <= frames@.len(),
            first == ts_min(frames@.take(i as int)),
            last == ts_max(frames@.take(i as int)),
        decreases frames.len() - i,
    {
        let t = frames[i].timestamp_us;
        proof {
            assert(frames@.take(i + 1).drop_last() =~= frames@.take(i as int));
        }
        if t < first {
            first = t;
        }
        if t > last {
            last = t;
        }
        i = i + 1;
    }
    assert(frames@.take(frames@.len() as int) =~= frames@);
    let n_ids = ids.len() as u64;
    SurveyReport {
        total_frames: frames.len() as u64,
        unique_ids: n_ids,
        first_timestamp_us: first,
        last_timestamp_us: last,
        ids,
    }
}

} // verus!
