//! Validate a DBC hypothesis against a recorded log.
//!
//! Facts reported per message/signal: observed raw ranges and the decoded raw
//! values (from which physical ranges and range violations follow), signals
//! whose bits never change (unconfirmable from this log), toggling bits no
//! signal covers, DLC mismatches, and the ID coverage in both directions.
//!
//! Raw values are extracted with the same audited bit walker the analysis
//! engines use, not a DBC decode fast path — for a validation tool the
//! extraction must be independently auditable, and multiplexed signals need
//! explicit selector handling.
use vstd::prelude::*;

use crate::activity::{bit_activity, payloads_at, spec_bit_activity, spec_state, BitActivityCell, BitState};
use crate::bits::{extract_raw, occupied_bits, spec_extract_raw, spec_occupied_bits, FieldSpec};
use crate::diff::{datas, find_group, has_key, lemma_grouping_lookup, payloads_of};
use crate::frame::{group_by_id, group_of, group_upto, is_grouping, CanFrameDto, IdGroup};
use crate::helpers::lemma_filter_map_push;
use crate::mux::{bit_numbers, lemma_filter_take_succ};
use crate::survey::{group_frames, max_bits, max_bits_of};

verus! {

/// A DBC signal as the check reads it.
#[derive(Debug)]
pub struct DbcSignalSpec {
    pub name: String,
    pub field: FieldSpec,
    pub is_multiplexer_switch: bool,
    /// The selector value this signal is present for, if multiplexed.
    pub multiplexer_switch_value: Option<u64>,
}

/// A DBC message as the check reads it.
#[derive(Debug)]
pub struct DbcMessageSpec {
    pub id: u32,
    pub is_extended: bool,
    pub name: String,
    pub dlc: u8,
    pub signals: Vec<DbcSignalSpec>,
}

/// Raw facts of one signal over the frames of its message.
#[derive(Debug)]
pub struct SignalCheck {
    pub signal_name: String,
    /// Frames in which the signal was present (mux selector matched) and
    /// extractable.
    pub frames_decoded: u64,
    /// Frames where the payload was too short to extract the signal.
    pub frames_too_short: u64,
    /// Smallest and largest raw value (`i64::MAX` / `i64::MIN` when none).
    pub raw_min: i64,
    pub raw_max: i64,
    /// The decoded raw values, in time order.
    pub raw_values: Vec<i64>,
    /// True when none of the signal's bits ever changed — the log cannot
    /// confirm this signal at all.
    pub never_toggles: bool,
}

#[derive(Debug)]
pub struct IdCheck {
    pub can_id: u32,
    pub is_extended: bool,
    pub message_name: String,
    pub frames: u64,
    pub expected_dlc: u8,
    /// Frames whose DLC differed from the DBC's.
    pub dlc_mismatch_frames: u64,
    /// Bits that toggle in the log but are covered by no signal — undecoded
    /// activity the DBC does not explain.
    pub uncovered_toggling_bits: Vec<u32>,
    pub signals: Vec<SignalCheck>,
}

#[derive(Debug)]
pub struct DbcCheckReport {
    /// Messages present in both DBC and log, with per-signal facts.
    pub covered: Vec<IdCheck>,
    /// IDs on the bus the DBC does not know: (id, extended, frames).
    pub unknown_ids: Vec<(u32, bool, u64)>,
    /// Messages in the DBC never seen on the bus: (id, name).
    pub unseen_messages: Vec<(u32, String)>,
}

pub struct SignalCheckView {
    pub signal_name: Seq<char>,
    pub frames_decoded: u64,
    pub frames_too_short: u64,
    pub raw_min: i64,
    pub raw_max: i64,
    pub raw_values: Seq<i64>,
    pub never_toggles: bool,
}

pub struct IdCheckView {
    pub can_id: u32,
    pub is_extended: bool,
    pub message_name: Seq<char>,
    pub frames: u64,
    pub expected_dlc: u8,
    pub dlc_mismatch_frames: u64,
    pub uncovered_toggling_bits: Seq<u32>,
    pub signals: Seq<SignalCheckView>,
}

impl View for SignalCheck {
    type V = SignalCheckView;

    open spec fn view(&self) -> SignalCheckView {
        SignalCheckView {
            signal_name: self.signal_name@,
            frames_decoded: self.frames_decoded,
            frames_too_short: self.frames_too_short,
            raw_min: self.raw_min,
            raw_max: self.raw_max,
            raw_values: self.raw_values@,
            never_toggles: self.never_toggles,
        }
    }
}

impl View for IdCheck {
    type V = IdCheckView;

    open spec fn view(&self) -> IdCheckView {
        IdCheckView {
            can_id: self.can_id,
            is_extended: self.is_extended,
            message_name: self.message_name@,
            frames: self.frames,
            expected_dlc: self.expected_dlc,
            dlc_mismatch_frames: self.dlc_mismatch_frames,
            uncovered_toggling_bits: self.uncovered_toggling_bits@,
            signals: self.signals@.map_values(|s: SignalCheck| s@),
        }
    }
}

/// The first multiplexer switch signal's field, if any.
pub open spec fn mux_switch(sigs: Seq<DbcSignalSpec>) -> Option<FieldSpec>
    decreases sigs.len(),
{
    if sigs.len() == 0 {
        None
    } else if sigs[0].is_multiplexer_switch {
        Some(sigs[0].field)
    } else {
        mux_switch(sigs.drop_first())
    }
}

/// The payload carries the signal: it is not multiplexed (or the message
/// has no switch), or the switch reads the signal's selector value.
pub open spec fn selector_matches(p: Seq<u8>, mux_value: Option<u64>, switch: Option<FieldSpec>) -> bool {
    match (mux_value, switch) {
        (Some(v), Some(w)) => match spec_extract_raw(p, w) {
            Some(x) => x as u64 == v,
            None => false,
        },
        _ => true,
    }
}

pub open spec fn carries(mux_value: Option<u64>, switch: Option<FieldSpec>) -> spec_fn(Seq<u8>) -> bool {
    |p: Seq<u8>| selector_matches(p, mux_value, switch)
}

pub open spec fn raw_of(field: FieldSpec) -> spec_fn(Seq<u8>) -> Option<i64> {
    |p: Seq<u8>|
        match spec_extract_raw(p, field) {
            Some(x) => Some(x as i64),
            None => None,
        }
}

pub open spec fn too_short_of(field: FieldSpec) -> spec_fn(Seq<u8>) -> bool {
    |p: Seq<u8>| spec_extract_raw(p, field) is None
}

/// Smallest value (`i64::MAX` when none).
pub open spec fn min_of(v: Seq<i64>) -> i64
    decreases v.len(),
{
    if v.len() == 0 {
        i64::MAX
    } else if v.last() < min_of(v.drop_last()) {
        v.last()
    } else {
        min_of(v.drop_last())
    }
}

/// Largest value (`i64::MIN` when none).
pub open spec fn max_of(v: Seq<i64>) -> i64
    decreases v.len(),
{
    if v.len() == 0 {
        i64::MIN
    } else if v.last() > max_of(v.drop_last()) {
        v.last()
    } else {
        max_of(v.drop_last())
    }
}

/// Bit `b` toggles among the payloads (within the longest payload).
pub open spec fn toggles(ps: Seq<Seq<u8>>, b: u32) -> bool {
    b < max_bits(ps) && spec_state(spec_bit_activity(ps, max_bits(ps) as u32)[b as int]) == BitState::Toggles
}

/// Bits of a field.
pub open spec fn field_bits(f: FieldSpec) -> Seq<u32> {
    spec_occupied_bits(f.start_bit, f.length, f.endianness)
}

/// Some signal occupies bit `b`.
pub open spec fn covered_by(sigs: Seq<DbcSignalSpec>, b: u32) -> bool {
    exists|i: int| 0 <= i < sigs.len() && #[trigger] field_bits(sigs[i].field).contains(b)
}

pub open spec fn uncovered_pred(ps: Seq<Seq<u8>>, sigs: Seq<DbcSignalSpec>) -> spec_fn(u32) -> bool {
    |b: u32| toggles(ps, b) && !covered_by(sigs, b)
}

/// The facts of one signal over the payloads of its message.
pub open spec fn signal_view(ps: Seq<Seq<u8>>, sig: DbcSignalSpec, switch: Option<FieldSpec>) -> SignalCheckView {
    let considered = ps.filter(carries(sig.multiplexer_switch_value, switch));
    let values = considered.filter_map(raw_of(sig.field));
    SignalCheckView {
        signal_name: sig.name@,
        frames_decoded: values.len() as u64,
        frames_too_short: considered.filter(too_short_of(sig.field)).len() as u64,
        raw_min: min_of(values),
        raw_max: max_of(values),
        raw_values: values,
        never_toggles: forall|k: int|
            0 <= k < field_bits(sig.field).len() ==> !toggles(ps, #[trigger] field_bits(sig.field)[k]),
    }
}

/// Frames whose DLC differs from `dlc`.
pub open spec fn dlc_mismatches(gf: Seq<CanFrameDto>, dlc: u8) -> nat
    decreases gf.len(),
{
    if gf.len() == 0 {
        0
    } else {
        dlc_mismatches(gf.drop_last(), dlc) + if gf.last().dlc != dlc {
            1nat
        } else {
            0nat
        }
    }
}

/// The facts of one message present in the log.
pub open spec fn id_check_view(frames: Seq<CanFrameDto>, m: DbcMessageSpec) -> IdCheckView {
    let key = (m.id, m.is_extended);
    let idx = group_of(frames, key);
    let ps = payloads_at(datas(frames), idx);
    let sigs = m.signals@;
    let switch = mux_switch(sigs);
    IdCheckView {
        can_id: m.id,
        is_extended: m.is_extended,
        message_name: m.name@,
        frames: idx.len() as u64,
        expected_dlc: m.dlc,
        dlc_mismatch_frames: dlc_mismatches(group_frames(frames, idx), m.dlc) as u64,
        uncovered_toggling_bits: bit_numbers(max_bits(ps) as u32).filter(uncovered_pred(ps, sigs)),
        signals: sigs.map_values(|s: DbcSignalSpec| signal_view(ps, s, switch)),
    }
}

/// A message of the DBC, checked when the log has its ID.
pub open spec fn covered_pick(frames: Seq<CanFrameDto>) -> spec_fn(DbcMessageSpec) -> Option<IdCheckView> {
    |m: DbcMessageSpec|
        if has_key(frames, (m.id, m.is_extended)) {
            Some(id_check_view(frames, m))
        } else {
            None
        }
}

/// The DBC has a message with the key.
pub open spec fn in_dbc(msgs: Seq<DbcMessageSpec>, key: (u32, bool)) -> bool {
    exists|i: int| 0 <= i < msgs.len() && (#[trigger] msgs[i].id, msgs[i].is_extended) == key
}

pub open spec fn unknown_pick(msgs: Seq<DbcMessageSpec>) -> spec_fn(IdGroup) -> Option<(u32, bool, u64)> {
    |g: IdGroup|
        if in_dbc(msgs, (g.can_id, g.is_extended)) {
            None
        } else {
            Some((g.can_id, g.is_extended, g.frames@.len() as u64))
        }
}

pub open spec fn unseen_pick(frames: Seq<CanFrameDto>) -> spec_fn(DbcMessageSpec) -> Option<(u32, Seq<char>)> {
    |m: DbcMessageSpec|
        if has_key(frames, (m.id, m.is_extended)) {
            None
        } else {
            Some((m.id, m.name@))
        }
}

pub open spec fn unseen_view(v: Seq<(u32, String)>) -> Seq<(u32, Seq<char>)> {
    v.map_values(|p: (u32, String)| (p.0, p.1@))
}

/// The first multiplexer switch signal's field, if any.
fn mux_switch_of(sigs: &Vec<DbcSignalSpec>) -> (w: Option<FieldSpec>)
    ensures
        w == mux_switch(sigs@),
{
    let mut i: usize = 0;
    assert(sigs@.subrange(0, sigs@.len() as int) =~= sigs@);
    while i < sigs.len()
        invariant
            i <= sigs@.len(),
            mux_switch(sigs@) == mux_switch(sigs@.subrange(i as int, sigs@.len() as int)),
        decreases sigs.len() - i,
    {
        let ghost rest = sigs@.subrange(i as int, sigs@.len() as int);
        assert(rest[0] == sigs@[i as int]);
        if sigs[i].is_multiplexer_switch {
            return Some(sigs[i].field);
        }
        assert(rest.drop_first() =~= sigs@.subrange(i + 1, sigs@.len() as int));
        i = i + 1;
    }
    assert(sigs@.subrange(i as int, sigs@.len() as int) =~= Seq::<DbcSignalSpec>::empty());
    None
}

proof fn lemma_min_max_push(v: Seq<i64>, x: i64)
    ensures
        min_of(v.push(x)) == if x < min_of(v) {
            x
        } else {
            min_of(v)
        },
        max_of(v.push(x)) == if x > max_of(v) {
            x
        } else {
            max_of(v)
        },
{
    assert(v.push(x).drop_last() =~= v);
}

proof fn lemma_filter_push<A>(s: Seq<A>, pred: spec_fn(A) -> bool, a: A)
    ensures
        s.push(a).filter(pred) == if pred(a) {
            s.filter(pred).push(a)
        } else {
            s.filter(pred)
        },
{
    reveal(Seq::filter);
    assert(s.push(a).drop_last() =~= s);
}

/// Bit `b` toggles, read from the activity cells of the payloads.
fn toggles_at(cells: &Vec<BitActivityCell>, span: u32, b: u32, Ghost(ps): Ghost<Seq<Seq<u8>>>) -> (r: bool)
    requires
        span == max_bits(ps),
        cells@ == spec_bit_activity(ps, span),
    ensures
        r == toggles(ps, b),
{
    b < span && cells[b as usize].state() == BitState::Toggles
}

/// The raw facts of one signal.
fn check_signal(
    ps: &Vec<&[u8]>,
    sig: &DbcSignalSpec,
    switch: Option<FieldSpec>,
    cells: &Vec<BitActivityCell>,
    span: u32,
) -> (c: SignalCheck)
    requires
        span == max_bits(ps@.map_values(|p: &[u8]| p@)),
        cells@ == spec_bit_activity(ps@.map_values(|p: &[u8]| p@), span),
    ensures
        c@ == signal_view(ps@.map_values(|p: &[u8]| p@), *sig, switch),
{
    let ghost pv = ps@.map_values(|p: &[u8]| p@);
    let ghost car = carries(sig.multiplexer_switch_value, switch);
    let ghost raw = raw_of(sig.field);
    let ghost short = too_short_of(sig.field);
    let mut values: Vec<i64> = Vec::new();
    let mut too_short: u64 = 0;
    let mut raw_min: i64 = i64::MAX;
    let mut raw_max: i64 = i64::MIN;
    let mut k: usize = 0;
    while k < ps.len()
        invariant
            pv == ps@.map_values(|p: &[u8]| p@),
            car == carries(sig.multiplexer_switch_value, switch),
            raw == raw_of(sig.field),
            short == too_short_of(sig.field),
            k <= pv.len(),
            values@ == pv.take(k as int).filter(car).filter_map(raw),
            too_short == pv.take(k as int).filter(car).filter(short).len(),
            too_short <= k,
            raw_min == min_of(values@),
            raw_max == max_of(values@),
        decreases ps.len() - k,
    {
        let p = ps[k];
        let ghost before = pv.take(k as int).filter(car);
        proof {
            lemma_filter_take_succ(pv, car, k as int);
            assert(pv[k as int] == p@);
        }
        let carried = match (sig.multiplexer_switch_value, switch) {
            (Some(v), Some(w)) => match extract_raw(p, &w) {
                Some(x) => x as u64 == v,
                None => false,
            },
            _ => true,
        };
        assert(carried == car(p@));
        if carried {
            proof {
                lemma_filter_map_push(before, raw, p@);
                lemma_filter_push(before, short, p@);
            }
            match extract_raw(p, &sig.field) {
                Some(x) => {
                    let ghost vb = values@;
                    values.push(x);
                    proof {
                        lemma_min_max_push(vb, x);
                    }
                    if x < raw_min {
                        raw_min = x;
                    }
                    if x > raw_max {
                        raw_max = x;
                    }
                },
                None => {
                    proof {
                        lemma_filter_len_bound(before, short);
                    }
                    too_short = too_short + 1;
                },
            }
        }
        k = k + 1;
    }
    assert(pv.take(pv.len() as int) =~= pv);
    // Never toggles: no bit of the signal toggles.
    let bits = occupied_bits(sig.field.start_bit, sig.field.length, sig.field.endianness);
    let mut never = true;
    let mut j: usize = 0;
    while j < bits.len()
        invariant
            pv == ps@.map_values(|p: &[u8]| p@),
            span == max_bits(pv),
            cells@ == spec_bit_activity(pv, span),
            bits@ == field_bits(sig.field),
            j <= bits@.len(),
            never == forall|t: int| 0 <= t < j ==> !toggles(pv, #[trigger] bits@[t]),
        decreases bits.len() - j,
    {
        if toggles_at(cells, span, bits[j], Ghost(pv)) {
            never = false;
        }
        j = j + 1;
    }
    let n = values.len() as u64;
    SignalCheck {
        signal_name: sig.name.clone(),
        frames_decoded: n,
        frames_too_short: too_short,
        raw_min,
        raw_max,
        raw_values: values,
        never_toggles: never,
    }
}

proof fn lemma_filter_len_bound<A>(s: Seq<A>, pred: spec_fn(A) -> bool)
    ensures
        s.filter(pred).len() <= s.len(),
{
    s.lemma_filter_len(pred);
}

/// Some signal of the message occupies bit `b`.
fn covered_by_any(sigs: &Vec<DbcSignalSpec>, b: u32) -> (r: bool)
    ensures
        r == covered_by(sigs@, b),
{
    let mut i: usize = 0;
    while i < sigs.len()
        invariant
            i <= sigs@.len(),
            forall|t: int| 0 <= t < i ==> !(#[trigger] field_bits(sigs@[t].field).contains(b)),
        decreases sigs.len() - i,
    {
        let f = sigs[i].field;
        let bits = occupied_bits(f.start_bit, f.length, f.endianness);
        let mut k: usize = 0;
        while k < bits.len()
            invariant
                i < sigs@.len(),
                bits@ == field_bits(sigs@[i as int].field),
                k <= bits@.len(),
                forall|t: int| 0 <= t < k ==> bits@[t] != b,
            decreases bits.len() - k,
        {
            if bits[k] == b {
                assert(bits@[k as int] == b);
                assert(field_bits(sigs@[i as int].field).contains(b));
                return true;
            }
            k = k + 1;
        }
        i = i + 1;
    }
    false
}

/// Toggling bits that no signal covers, ascending.
fn uncovered_bits(
    sigs: &Vec<DbcSignalSpec>,
    cells: &Vec<BitActivityCell>,
    span: u32,
    Ghost(ps): Ghost<Seq<Seq<u8>>>,
) -> (u: Vec<u32>)
    requires
        span == max_bits(ps),
        cells@ == spec_bit_activity(ps, span),
    ensures
        u@ == bit_numbers(span).filter(uncovered_pred(ps, sigs@)),
{
    let ghost bn = bit_numbers(span);
    let ghost pred = uncovered_pred(ps, sigs@);
    let mut u: Vec<u32> = Vec::new();
    let mut b: u32 = 0;
    while b < span
        invariant
            span == max_bits(ps),
            cells@ == spec_bit_activity(ps, span),
            bn == bit_numbers(span),
            pred == uncovered_pred(ps, sigs@),
            b <= span,
            u@ == bn.take(b as int).filter(pred),
        decreases span - b,
    {
        proof {
            lemma_filter_take_succ(bn, pred, b as int);
            assert(bn[b as int] == b);
        }
        if toggles_at(cells, span, b, Ghost(ps)) && !covered_by_any(sigs, b) {
            u.push(b);
        }
        b = b + 1;
    }
    assert(bn.take(span as int) =~= bn);
    u
}

/// Frames of the group whose DLC differs from `dlc`.
fn dlc_mismatch_count(frames: &[CanFrameDto], idx: &Vec<usize>, dlc: u8) -> (n: u64)
    requires
        forall|a: int| 0 <= a < idx@.len() ==> (#[trigger] idx@[a]) < frames@.len(),
    ensures
        n == dlc_mismatches(group_frames(frames@, idx@), dlc),
{
    let ghost gf = group_frames(frames@, idx@);
    let mut n: u64 = 0;
    let mut a: usize = 0;
    while a < idx.len()
        invariant
            gf == group_frames(frames@, idx@),
            forall|t: int| 0 <= t < idx@.len() ==> (#[trigger] idx@[t]) < frames@.len(),
            a <= idx@.len(),
            n == dlc_mismatches(gf.take(a as int), dlc),
            n <= a,
        decreases idx.len() - a,
    {
        proof {
            assert(gf.take(a + 1).drop_last() =~= gf.take(a as int));
            assert(gf.take(a + 1).last() == frames@[idx@[a as int] as int]);
        }
        if frames[idx[a]].dlc != dlc {
            n = n + 1;
        }
        a = a + 1;
    }
    assert(gf.take(idx@.len() as int) =~= gf);
    n
}

/// Every payload's bit count fits in `u32`.
pub open spec fn frames_fit(frames: Seq<CanFrameDto>) -> bool {
    forall|i: int| 0 <= i < frames.len() ==> (#[trigger] frames[i]).data@.len() * 8 <= u32::MAX
}

/// The check of one DBC message, when the log has its ID.
fn check_message(frames: &[CanFrameDto], groups: &Vec<IdGroup>, msg: &DbcMessageSpec) -> (r: Option<IdCheck>)
    requires
        is_grouping(frames@, None, groups@),
        frames_fit(frames@),
    ensures
        r is Some <==> has_key(frames@, (msg.id, msg.is_extended)),
        r matches Some(c) ==> c@ == id_check_view(frames@, *msg),
{
    let ghost key = (msg.id, msg.is_extended);
    let found = find_group(groups, msg.id, msg.is_extended);
    proof {
        lemma_grouping_lookup(frames@, groups@, key, found);
    }
    let g = match found {
        Some(g) => g,
        None => {
            return None;
        },
    };
    let idx = &groups[g].frames;
    proof {
        assert(group_upto(
            frames@,
            None,
            (groups@[g as int].can_id, groups@[g as int].is_extended),
            idx@,
            frames@.len() as int,
        ));
    }
    let ps = payloads_of(frames, idx);
    let ghost pv = payloads_at(datas(frames@), idx@);
    proof {
        assert(ps@.map_values(|p: &[u8]| p@).len() == ps@.len());
        assert forall|k: int| 0 <= k < ps@.len() implies (#[trigger] ps@[k])@.len() * 8 <= u32::MAX by {
            assert(ps@.map_values(|p: &[u8]| p@)[k] == pv[k]);
            assert(idx@[k] < frames@.len());
            assert(pv[k] == frames@[idx@[k] as int].data@);
            assert(frames_fit(frames@));
            assert(frames@[idx@[k] as int].data@.len() * 8 <= u32::MAX);
        }
    }
    let span = max_bits_of(&ps);
    let cells = bit_activity(ps.as_slice(), span);
    let switch = mux_switch_of(&msg.signals);
    let ghost want = msg.signals@.map_values(|s: DbcSignalSpec| signal_view(pv, s, switch));
    let mut signals: Vec<SignalCheck> = Vec::new();
    let mut i: usize = 0;
    while i < msg.signals.len()
        invariant
            pv == ps@.map_values(|p: &[u8]| p@),
            span == max_bits(pv),
            cells@ == spec_bit_activity(pv, span),
            want == msg.signals@.map_values(|s: DbcSignalSpec| signal_view(pv, s, switch)),
            i <= msg.signals@.len(),
            signals@.map_values(|s: SignalCheck| s@) =~= want.take(i as int),
        decreases msg.signals.len() - i,
    {
        let c = check_signal(&ps, &msg.signals[i], switch, &cells, span);
        let ghost before = signals@;
        signals.push(c);
        assert(signals@.map_values(|s: SignalCheck| s@) =~= before.map_values(|s: SignalCheck| s@).push(c@));
        i = i + 1;
    }
    assert(want.take(msg.signals@.len() as int) =~= want);
    let uncovered = uncovered_bits(&msg.signals, &cells, span, Ghost(pv));
    let mismatches = dlc_mismatch_count(frames, idx, msg.dlc);
    Some(
        IdCheck {
            can_id: msg.id,
            is_extended: msg.is_extended,
            message_name: msg.name.clone(),
            frames: idx.len() as u64,
            expected_dlc: msg.dlc,
            dlc_mismatch_frames: mismatches,
            uncovered_toggling_bits: uncovered,
            signals,
        },
    )
}

/// The DBC has a message with the key.
fn in_dbc_exec(messages: &[DbcMessageSpec], id: u32, ext: bool) -> (r: bool)
    ensures
        r == in_dbc(messages@, (id, ext)),
{
    let mut i: usize = 0;
    while i < messages.len()
        invariant
            i <= messages@.len(),
            forall|t: int| 0 <= t < i ==> (#[trigger] messages@[t].id, messages@[t].is_extended) != (id, ext),
        decreases messages.len() - i,
    {
        if messages[i].id == id && messages[i].is_extended == ext {
            assert((messages@[i as int].id, messages@[i as int].is_extended) == (id, ext));
            return true;
        }
        i = i + 1;
    }
    false
}

/// Check every DBC message against the log.
///
/// `covered` follows the DBC's message order; `unknown_ids` the ascending
/// order of the log's IDs (by CAN ID, standard before extended);
/// `unseen_messages` the DBC's order.
pub fn check_dbc(frames: &[CanFrameDto], messages: &[DbcMessageSpec]) -> (r: DbcCheckReport)
    requires
        frames_fit(frames@),
    ensures
        r.covered@.map_values(|c: IdCheck| c@) == messages@.filter_map(covered_pick(frames@)),
        unseen_view(r.unseen_messages@) == messages@.filter_map(unseen_pick(frames@)),
        exists|groups: Seq<IdGroup>|
            is_grouping(frames@, None, groups) && r.unknown_ids@ == groups.filter_map(
                unknown_pick(messages@),
            ),
{
    let groups = group_by_id(frames, &None);
    let ghost cp = covered_pick(frames@);
    let ghost up = unseen_pick(frames@);
    let mut covered: Vec<IdCheck> = Vec::new();
    let mut unseen: Vec<(u32, String)> = Vec::new();
    let mut i: usize = 0;
    while i < messages.len()
        invariant
            is_grouping(frames@, None, groups@),
            frames_fit(frames@),
            cp == covered_pick(frames@),
            up == unseen_pick(frames@),
            i <= messages@.len(),
            covered@.map_values(|c: IdCheck| c@) == messages@.take(i as int).filter_map(cp),
            unseen_view(unseen@) == messages@.take(i as int).filter_map(up),
        decreases messages.len() - i,
    {
        proof {
            messages@.lemma_filter_map_take_succ(cp, i as int);
            messages@.lemma_filter_map_take_succ(up, i as int);
        }
        let msg = &messages[i];
        let ghost bc = covered@;
        let ghost bu = unseen@;
        match check_message(frames, &groups, msg) {
            Some(c) => {
                covered.push(c);
                assert(covered@.map_values(|x: IdCheck| x@) =~= bc.map_values(|x: IdCheck| x@).push(c@));
            },
            None => {
                unseen.push((msg.id, msg.name.clone()));
                assert(unseen_view(unseen@) =~= unseen_view(bu).push((msg.id, msg.name@)));
            },
        }
        i = i + 1;
    }
    assert(messages@.take(messages@.len() as int) =~= messages@);
    let ghost kp = unknown_pick(messages@);
    let mut unknown: Vec<(u32, bool, u64)> = Vec::new();
    let mut g: usize = 0;
    while g < groups.len()
        invariant
            kp == unknown_pick(messages@),
            g <= groups@.len(),
            unknown@ == groups@.take(g as int).filter_map(kp),
        decreases groups.len() - g,
    {
        proof {
            groups@.lemma_filter_map_take_succ(kp, g as int);
        }
        let grp = &groups[g];
        if !in_dbc_exec(messages, grp.can_id, grp.is_extended) {
            unknown.push((grp.can_id, grp.is_extended, grp.frames.len() as u64));
        }
        g = g + 1;
    }
    assert(groups@.take(groups@.len() as int) =~= groups@);
    DbcCheckReport { covered, unknown_ids: unknown, unseen_messages: unseen }
}

} // verus!
