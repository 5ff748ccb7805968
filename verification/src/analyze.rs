//! Rows of the per-ID analysis view: the bit map, one row per payload byte,
//! and the proven facts, one row per fact.
use vstd::prelude::*;

use crate::activity::{spec_state, BitActivityCell, BitState};
use crate::bits::Endianness;
use crate::checksum::{spec_describe, ChecksumProof};
use crate::counter::CounterProof;
use crate::mux::{MuxFacts, MuxFactsView};
use crate::survey::{IdSurvey, IdSurveyView};
use crate::report::{id_text, join};
use crate::text::{dec_str, push_dec, push_hex, push_str};

verus! {

/// Display code of a bit: 0 constant 0, 1 constant 1, 2 toggling,
/// 3 unobserved.
pub open spec fn state_code(c: BitActivityCell) -> i32 {
    match spec_state(c) {
        BitState::Always0 => 0,
        BitState::Always1 => 1,
        BitState::Toggles => 2,
        BitState::Unobserved => 3,
    }
}

/// Codes of byte `byte`, MSB first (bit 7 leftmost); bits past the
/// measured span show as unobserved.
pub open spec fn byte_codes(cells: Seq<BitActivityCell>, byte: int) -> Seq<i32> {
    Seq::new(
        8,
        |k: int|
            if byte * 8 + 7 - k < cells.len() {
                state_code(cells[byte * 8 + 7 - k])
            } else {
                3i32
            },
    )
}

/// Number of byte rows: one per started group of eight cells.
pub open spec fn byte_count(cells: Seq<BitActivityCell>) -> nat {
    ((cells.len() + 7) / 8) as nat
}

pub open spec fn byte_label(byte: int) -> Seq<char> {
    "Byte "@ + dec_str(byte as nat)
}

pub open spec fn endianness_label(e: Endianness) -> Seq<char> {
    match e {
        Endianness::Intel => "Intel"@,
        Endianness::Motorola => "Motorola"@,
    }
}

pub open spec fn counter_row(c: CounterProof) -> (Seq<char>, Seq<char>) {
    (
        "COUNTER"@,
        endianness_label(c.field.endianness) + " start "@ + dec_str(c.field.start_bit as nat) + " len "@
            + dec_str(c.field.length as nat) + " — +1 mod 2^"@ + dec_str(c.field.length as nat)
            + " for all "@ + dec_str(c.transitions as nat) + " transitions ("@ + dec_str(c.wraps as nat)
            + " wraps)"@,
    )
}

pub open spec fn checksum_row(c: ChecksumProof) -> (Seq<char>, Seq<char>) {
    (
        "CHECKSUM"@,
        "byte "@ + dec_str(c.byte_index as nat) + " = "@ + spec_describe(c.algorithm) + " — matched all "@
            + dec_str(c.frames as nat) + " frames ("@ + dec_str(c.distinct_payloads as nat) + " distinct)"@,
    )
}

pub open spec fn mux_row(m: MuxFactsView) -> (Seq<char>, Seq<char>) {
    (
        "MUX"@,
        "selector start "@ + dec_str(m.selector.start_bit as nat) + " len "@ + dec_str(
            m.selector.length as nat,
        ) + " — "@ + dec_str(m.distinct_values as nat) + " values with differing layouts"@,
    )
}

pub open spec fn note_rows(note: Option<Seq<char>>) -> Seq<(Seq<char>, Seq<char>)> {
    match note {
        Some(n) => seq![("note"@, "checksum sweep "@ + n)],
        None => Seq::empty(),
    }
}

/// The fact rows of an ID: its counters, checksums and mux candidates, the
/// checksum-sweep note, or a single placeholder row when there is none.
pub open spec fn fact_rows_of(id: IdSurveyView) -> Seq<(Seq<char>, Seq<char>)> {
    let rows = id.counters.map_values(|c: CounterProof| counter_row(c)) + id.checksums.map_values(
        |c: ChecksumProof| checksum_row(c),
    ) + id.mux.map_values(|m: MuxFactsView| mux_row(m)) + note_rows(id.checksum_note);
    if rows.len() == 0 {
        seq![
            (
                "—"@,
                "No structural proofs for this ID (see the bit map for raw activity)."@,
            ),
        ]
    } else {
        rows
    }
}

pub open spec fn rows_view(rows: Seq<(String, String)>) -> Seq<(Seq<char>, Seq<char>)> {
    rows.map_values(|r: (String, String)| (r.0@, r.1@))
}

fn state_code_of(c: &BitActivityCell) -> (r: i32)
    ensures
        r == state_code(*c),
{
    match c.state() {
        BitState::Always0 => 0,
        BitState::Always1 => 1,
        BitState::Toggles => 2,
        BitState::Unobserved => 3,
    }
}

/// The bit map of an ID: for each payload byte its label (`Byte n`) and the
/// display codes of its eight bits, MSB first.
pub fn bit_rows(id: &IdSurvey) -> (rows: Vec<(String, Vec<i32>)>)
    ensures
        rows@.len() == byte_count(id.bit_activity@),
        forall|b: int|
            0 <= b < rows@.len() ==> (#[trigger] rows@[b]).0@ == byte_label(b) && rows@[b].1@
                == byte_codes(id.bit_activity@, b),
{
    let cells = &id.bit_activity;
    let n = cells.len();
    let nbytes: usize = n / 8 + if n % 8 == 0 {
        0
    } else {
        1
    };
    assert(nbytes == byte_count(cells@));
    let mut rows: Vec<(String, Vec<i32>)> = Vec::new();
    let mut byte: usize = 0;
    while byte < nbytes
        invariant
            cells@ == id.bit_activity@,
            n == cells@.len(),
            nbytes == byte_count(cells@),
            byte <= nbytes,
            rows@.len() == byte,
            forall|b: int|
                0 <= b < byte ==> (#[trigger] rows@[b]).0@ == byte_label(b) && rows@[b].1@ == byte_codes(
                    cells@,
                    b,
                ),
        decreases nbytes - byte,
    {
        let mut label = String::new();
        push_str(&mut label, "Byte ");
        push_dec(&mut label, byte as u64);
        let mut codes: Vec<i32> = Vec::new();
        let mut k: usize = 0;
        while k < 8
            invariant
                cells@ == id.bit_activity@,
                n == cells@.len(),
                byte < nbytes,
                nbytes == byte_count(cells@),
                k <= 8,
                codes@.len() == k,
                forall|j: int| 0 <= j < k ==> #[trigger] codes@[j] == byte_codes(cells@, byte as int)[j],
            decreases 8 - k,
        {
            assert(byte * 8 <= n);
            let base = byte * 8;
            let code = if 7 - k < n - base {
                state_code_of(&cells[base + (7 - k)])
            } else {
                3
            };
            codes.push(code);
            k = k + 1;
        }
        assert(codes@ =~= byte_codes(cells@, byte as int));
        rows.push((label, codes));
        byte = byte + 1;
    }
    rows
}

fn counter_text(c: &CounterProof) -> (s: String)
    ensures
        s@ == counter_row(*c).1,
{
    let mut s = String::new();
    push_str(&mut s, c.field.endianness.label());
    push_str(&mut s, " start ");
    push_dec(&mut s, c.field.start_bit as u64);
    push_str(&mut s, " len ");
    push_dec(&mut s, c.field.length as u64);
    push_str(&mut s, " — +1 mod 2^");
    push_dec(&mut s, c.field.length as u64);
    push_str(&mut s, " for all ");
    push_dec(&mut s, c.transitions);
    push_str(&mut s, " transitions (");
    push_dec(&mut s, c.wraps);
    push_str(&mut s, " wraps)");
    s
}

fn checksum_text(c: &ChecksumProof) -> (s: String)
    ensures
        s@ == checksum_row(*c).1,
{
    let mut s = String::new();
    push_str(&mut s, "byte ");
    push_dec(&mut s, c.byte_index as u64);
    push_str(&mut s, " = ");
    let d = c.algorithm.describe();
    push_str(&mut s, d.as_str());
    push_str(&mut s, " — matched all ");
    push_dec(&mut s, c.frames);
    push_str(&mut s, " frames (");
    push_dec(&mut s, c.distinct_payloads);
    push_str(&mut s, " distinct)");
    s
}

fn mux_text(m: &MuxFacts) -> (s: String)
    ensures
        s@ == mux_row(m@).1,
{
    let mut s = String::new();
    push_str(&mut s, "selector start ");
    push_dec(&mut s, m.selector.start_bit as u64);
    push_str(&mut s, " len ");
    push_dec(&mut s, m.selector.length as u64);
    push_str(&mut s, " — ");
    push_dec(&mut s, m.distinct_values);
    push_str(&mut s, " values with differing layouts");
    s
}

fn text_of(t: &str) -> (s: String)
    ensures
        s@ == t@,
{
    let mut s = String::new();
    push_str(&mut s, t);
    s
}

/// The proven facts of an ID as (kind, text) rows: counters, checksums, mux
/// candidates, the checksum-sweep note; a placeholder row when there is none.
pub fn fact_rows(id: &IdSurvey) -> (rows: Vec<(String, String)>)
    ensures
        rows_view(rows@) == fact_rows_of(id@),
{
    let ghost cr = id.counters@.map_values(|c: CounterProof| counter_row(c));
    let ghost kr = id.checksums@.map_values(|c: ChecksumProof| checksum_row(c));
    let ghost mr = id@.mux.map_values(|m: MuxFactsView| mux_row(m));
    let mut rows: Vec<(String, String)> = Vec::new();
    let mut i: usize = 0;
    while i < id.counters.len()
        invariant
            cr == id.counters@.map_values(|c: CounterProof| counter_row(c)),
            i <= id.counters@.len(),
            cr.len() == id.counters@.len(),
            rows@.len() == i,
            rows_view(rows@) =~= cr.take(i as int),
        decreases id.counters.len() - i,
    {
        let t = counter_text(&id.counters[i]);
        rows.push((text_of("COUNTER"), t));
        proof {
            assert(rows_view(rows@)[i as int] == cr[i as int]);
            assert(rows_view(rows@) =~= cr.take(i as int + 1));
        }
        i = i + 1;
    }
    assert(cr.take(cr.len() as int) =~= cr);
    let mut i: usize = 0;
    while i < id.checksums.len()
        invariant
            cr == id.counters@.map_values(|c: CounterProof| counter_row(c)),
            kr == id.checksums@.map_values(|c: ChecksumProof| checksum_row(c)),
            i <= id.checksums@.len(),
            cr.len() == id.counters@.len(),
            kr.len() == id.checksums@.len(),
            rows@.len() == cr.len() + i,
            rows_view(rows@) =~= cr + kr.take(i as int),
        decreases id.checksums.len() - i,
    {
        let t = checksum_text(&id.checksums[i]);
        let ghost before = rows@;
        rows.push((text_of("CHECKSUM"), t));
        proof {
            let target = cr + kr.take(i as int + 1);
            assert forall|j: int| 0 <= j < rows@.len() implies #[trigger] rows_view(rows@)[j] == target[j] by {
                if j < before.len() {
                    assert(rows@[j] == before[j]);
                    assert(rows_view(before)[j] == (cr + kr.take(i as int))[j]);
                }
            }
            assert(rows_view(rows@) =~= target);
        }
        i = i + 1;
    }
    assert(kr.take(kr.len() as int) =~= kr);
    let mut i: usize = 0;
    while i < id.mux.len()
        invariant
            cr == id.counters@.map_values(|c: CounterProof| counter_row(c)),
            kr == id.checksums@.map_values(|c: ChecksumProof| checksum_row(c)),
            mr == id@.mux.map_values(|m: MuxFactsView| mux_row(m)),
            id@.mux == id.mux@.map_values(|m: MuxFacts| m@),
            i <= id.mux@.len(),
            cr.len() == id.counters@.len(),
            kr.len() == id.checksums@.len(),
            mr.len() == id.mux@.len(),
            rows@.len() == cr.len() + kr.len() + i,
            rows_view(rows@) =~= cr + kr + mr.take(i as int),
        decreases id.mux.len() - i,
    {
        let t = mux_text(&id.mux[i]);
        let ghost before = rows@;
        rows.push((text_of("MUX"), t));
        proof {
            assert(mr[i as int] == mux_row(id.mux@[i as int]@));
            let target = cr + kr + mr.take(i as int + 1);
            assert forall|j: int| 0 <= j < rows@.len() implies #[trigger] rows_view(rows@)[j] == target[j] by {
                if j < before.len() {
                    assert(rows@[j] == before[j]);
                    assert(rows_view(before)[j] == (cr + kr + mr.take(i as int))[j]);
                }
            }
            assert(rows_view(rows@) =~= target);
        }
        i = i + 1;
    }
    assert(mr.take(mr.len() as int) =~= mr);
    match &id.checksum_note {
        Some(note) => {
            let mut t = String::new();
            push_str(&mut t, "checksum sweep ");
            push_str(&mut t, note.as_str());
            rows.push((text_of("note"), t));
        },
        None => {},
    }
    assert(rows_view(rows@) =~= cr + kr + mr + note_rows(id@.checksum_note));
    if rows.len() == 0 {
        rows.push(
            (
                text_of("—"),
                text_of("No structural proofs for this ID (see the bit map for raw activity)."),
            ),
        );
        assert(rows_view(rows@) =~= fact_rows_of(id@));
    }
    rows
}

/// One row of the ID list.
#[derive(Debug)]
pub struct IdRow {
    pub can_id: String,
    pub frames: String,
    pub period: String,
    pub distinct: String,
    /// Counts of the proven facts, e.g. `1 counter(s) · 2 checksum(s)`.
    pub facts: String,
}

pub open spec fn count_part(n: nat, what: Seq<char>) -> Seq<Seq<char>> {
    if n > 0 {
        seq![dec_str(n) + what]
    } else {
        Seq::empty()
    }
}

/// The fact counts of an ID, those that are not zero.
pub open spec fn fact_counts(id: IdSurveyView) -> Seq<Seq<char>> {
    count_part(id.counters.len(), " counter(s)"@) + count_part(id.checksums.len(), " checksum(s)"@)
        + count_part(id.mux.len(), " mux candidate(s)"@)
}

fn push_count_part(parts: &mut Vec<String>, n: usize, what: &str)
    ensures
        final(parts)@.map_values(|p: String| p@) == old(parts)@.map_values(|p: String| p@) + count_part(
            n as nat,
            what@,
        ),
{
    let ghost before = parts@.map_values(|p: String| p@);
    if n > 0 {
        let mut t = String::new();
        push_dec(&mut t, n as u64);
        push_str(&mut t, what);
        parts.push(t);
        assert(parts@.map_values(|p: String| p@) =~= before + count_part(n as nat, what@));
    } else {
        assert(parts@.map_values(|p: String| p@) =~= before + count_part(n as nat, what@));
    }
}

/// The ID-list row of a surveyed ID; `period` is the rendered median
/// period (the caller's floating-point figure, or a dash).
pub fn id_row(id: &IdSurvey, period: &str) -> (r: IdRow)
    ensures
        r.can_id@ == id_text(id.can_id, id.is_extended),
        r.frames@ == dec_str(id.frames as nat),
        r.period@ == period@,
        r.distinct@ == dec_str(id.distinct_payloads as nat),
        r.facts@ == join(fact_counts(id@), " · "@),
{
    let mut can_id = String::new();
    if id.is_extended {
        push_hex(&mut can_id, id.can_id as u64, 8);
        push_str(&mut can_id, "x");
    } else {
        push_hex(&mut can_id, id.can_id as u64, 3);
    }
    let mut frames = String::new();
    push_dec(&mut frames, id.frames);
    let mut distinct = String::new();
    push_dec(&mut distinct, id.distinct_payloads);
    let mut parts: Vec<String> = Vec::new();
    assert(parts@.map_values(|p: String| p@) =~= Seq::<Seq<char>>::empty());
    push_count_part(&mut parts, id.counters.len(), " counter(s)");
    push_count_part(&mut parts, id.checksums.len(), " checksum(s)");
    push_count_part(&mut parts, id.mux.len(), " mux candidate(s)");
    let ghost pv = parts@.map_values(|p: String| p@);
    assert(pv =~= fact_counts(id@));
    let mut facts = String::new();
    let mut i: usize = 0;
    while i < parts.len()
        invariant
            pv == parts@.map_values(|p: String| p@),
            i <= parts@.len(),
            facts@ == join(pv.take(i as int), " · "@),
        decreases parts.len() - i,
    {
        proof {
            assert(pv.take(i + 1).drop_last() =~= pv.take(i as int));
        }
        if i > 0 {
            push_str(&mut facts, " · ");
        }
        push_str(&mut facts, parts[i].as_str());
        i = i + 1;
    }
    assert(pv.take(parts@.len() as int) =~= pv);
    IdRow { can_id, frames, period: text_of(period), distinct, facts }
}

} // verus!
