//! Plain-text rendering of analysis reports.
//!
//! Every stated fact carries its evidence (frame counts, distinct payloads,
//! transitions) so the reader can judge the strength of each proof.
use vstd::prelude::*;

use crate::diff::{
    DiffReport, DiffReportView, DifferentialBit, DifferentialBitView, ExclusiveId, ExclusiveIdView,
    IdDiff, IdDiffView,
};
use crate::activity::{spec_state, BitActivityCell, BitState};
use crate::analyze::{byte_count, endianness_label};
use crate::checksum::{spec_describe, ChecksumProof};
use crate::counter::CounterProof;
use crate::mux::{MuxFacts, MuxFactsView, MuxVariant, MuxVariantView};
use crate::survey::{IdSurvey, IdSurveyView, SurveyReport};
use crate::dbc_check::{DbcCheckReport, IdCheck, IdCheckView, SignalCheck, SignalCheckView};
use crate::text::{dec_str, hex_padded, hex_str, int_str, push_dec, push_hex, push_int, push_str};

verus! {

/// The concatenation of the pieces.
pub open spec fn flat(pieces: Seq<Seq<char>>) -> Seq<char>
    decreases pieces.len(),
{
    if pieces.len() == 0 {
        Seq::empty()
    } else {
        flat(pieces.drop_last()) + pieces.last()
    }
}

/// The pieces separated by `sep` (`[..].join(sep)`).
pub open spec fn join(pieces: Seq<Seq<char>>, sep: Seq<char>) -> Seq<char>
    decreases pieces.len(),
{
    if pieces.len() == 0 {
        Seq::empty()
    } else if pieces.len() == 1 {
        pieces[0]
    } else {
        join(pieces.drop_last(), sep) + sep + pieces.last()
    }
}

/// A CAN ID: three hex digits standard, eight plus `x` extended.
pub open spec fn id_text(can_id: u32, is_extended: bool) -> Seq<char> {
    if is_extended {
        hex_padded(can_id as nat, 8) + "x"@
    } else {
        hex_padded(can_id as nat, 3)
    }
}

pub open spec fn count_text(p: (Seq<char>, u64)) -> Seq<char> {
    p.0 + ": "@ + dec_str(p.1 as nat)
}

pub open spec fn value_text(p: (Seq<char>, u8)) -> Seq<char> {
    p.0 + "="@ + dec_str(p.1 as nat)
}

pub open spec fn present_text(p: (Seq<char>, u64)) -> Seq<char> {
    p.0 + " ("@ + dec_str(p.1 as nat) + " frames)"@
}

pub open spec fn bit_line(b: DifferentialBitView) -> Seq<char> {
    "  bit "@ + dec_str(b.bit as nat) + " (byte "@ + dec_str((b.bit / 8) as nat) + " bit "@ + dec_str(
        (b.bit % 8) as nat,
    ) + "): "@ + join(b.values.map_values(|p: (Seq<char>, u8)| value_text(p)), ", "@) + "\n"@
}

pub open spec fn shared_block(d: IdDiffView) -> Seq<char> {
    "ID "@ + id_text(d.can_id, d.is_extended) + " ("@ + join(
        d.frames_per_recording.map_values(|p: (Seq<char>, u64)| count_text(p)),
        ", "@,
    ) + ")\n"@ + flat(d.differential_bits.map_values(|b: DifferentialBitView| bit_line(b)))
}

pub open spec fn exclusive_line(e: ExclusiveIdView) -> Seq<char> {
    "  "@ + id_text(e.can_id, e.is_extended) + " — only in "@ + join(
        e.present_in.map_values(|p: (Seq<char>, u64)| present_text(p)),
        ", "@,
    ) + "\n"@
}

/// The text of a differential report.
pub open spec fn diff_text(r: DiffReportView) -> Seq<char> {
    "Differential compare of "@ + dec_str(r.labels.len()) + " recordings: "@ + join(r.labels, ", "@)
        + "\n\n"@ + flat(r.shared.map_values(|d: IdDiffView| shared_block(d))) + (if r.shared.len()
        == 0 {
        "No differential bits found.\n"@
    } else {
        Seq::empty()
    }) + (if r.exclusive.len() > 0 {
        "\nIDs not present in every recording:\n"@ + flat(
            r.exclusive.map_values(|e: ExclusiveIdView| exclusive_line(e)),
        )
    } else {
        Seq::empty()
    })
}

proof fn lemma_join_step(pieces: Seq<Seq<char>>, sep: Seq<char>, k: int)
    requires
        0 <= k < pieces.len(),
    ensures
        join(pieces.take(k + 1), sep) == if k == 0 {
            pieces[0]
        } else {
            join(pieces.take(k), sep) + sep + pieces[k]
        },
{
    assert(pieces.take(k + 1).drop_last() =~= pieces.take(k));
}

proof fn lemma_flat_step(pieces: Seq<Seq<char>>, k: int)
    requires
        0 <= k < pieces.len(),
    ensures
        flat(pieces.take(k + 1)) == flat(pieces.take(k)) + pieces[k],
{
    assert(pieces.take(k + 1).drop_last() =~= pieces.take(k));
}

/// Appends a CAN ID.
fn push_id(out: &mut String, can_id: u32, is_extended: bool)
    ensures
        final(out)@ == old(out)@ + id_text(can_id, is_extended),
{
    if is_extended {
        push_hex(out, can_id as u64, 8);
        push_str(out, "x");
    } else {
        push_hex(out, can_id as u64, 3);
    }
}

/// Appends the labels joined by ", ".
fn push_labels(out: &mut String, labels: &Vec<String>)
    ensures
        final(out)@ == old(out)@ + join(labels@.map_values(|s: String| s@), ", "@),
{
    let ghost ls = labels@.map_values(|s: String| s@);
    let ghost start = out@;
    let mut i: usize = 0;
    while i < labels.len()
        invariant
            ls == labels@.map_values(|s: String| s@),
            i <= labels@.len(),
            out@ == start + join(ls.take(i as int), ", "@),
        decreases labels.len() - i,
    {
        proof {
            lemma_join_step(ls, ", "@, i as int);
        }
        if i > 0 {
            push_str(out, ", ");
        }
        push_str(out, labels[i].as_str());
        i = i + 1;
    }
    assert(ls.take(labels@.len() as int) =~= ls);
}

/// Appends "label: n" pairs joined by ", ".
fn push_count_pairs(out: &mut String, counts: &Vec<(String, u64)>)
    ensures
        final(out)@ == old(out)@ + join(
            crate::diff::label_u64_view(counts@).map_values(|p: (Seq<char>, u64)| count_text(p)),
            ", "@,
        ),
{
    let ghost ps = crate::diff::label_u64_view(counts@).map_values(|p: (Seq<char>, u64)| count_text(p));
    let ghost start = out@;
    let mut i: usize = 0;
    while i < counts.len()
        invariant
            ps == crate::diff::label_u64_view(counts@).map_values(|p: (Seq<char>, u64)| count_text(p)),
            i <= counts@.len(),
            out@ == start + join(ps.take(i as int), ", "@),
        decreases counts.len() - i,
    {
        proof {
            lemma_join_step(ps, ", "@, i as int);
        }
        if i > 0 {
            push_str(out, ", ");
        }
        push_str(out, counts[i].0.as_str());
        push_str(out, ": ");
        push_dec(out, counts[i].1);
        i = i + 1;
    }
    assert(ps.take(counts@.len() as int) =~= ps);
}

/// Appends "label (n frames)" pairs joined by ", ".
fn push_present_pairs(out: &mut String, counts: &Vec<(String, u64)>)
    ensures
        final(out)@ == old(out)@ + join(
            crate::diff::label_u64_view(counts@).map_values(|p: (Seq<char>, u64)| present_text(p)),
            ", "@,
        ),
{
    let ghost ps = crate::diff::label_u64_view(counts@).map_values(|p: (Seq<char>, u64)| present_text(p));
    let ghost start = out@;
    let mut i: usize = 0;
    while i < counts.len()
        invariant
            ps == crate::diff::label_u64_view(counts@).map_values(|p: (Seq<char>, u64)| present_text(p)),
            i <= counts@.len(),
            out@ == start + join(ps.take(i as int), ", "@),
        decreases counts.len() - i,
    {
        proof {
            lemma_join_step(ps, ", "@, i as int);
        }
        if i > 0 {
            push_str(out, ", ");
        }
        push_str(out, counts[i].0.as_str());
        push_str(out, " (");
        push_dec(out, counts[i].1);
        push_str(out, " frames)");
        i = i + 1;
    }
    assert(ps.take(counts@.len() as int) =~= ps);
}

/// Appends one differential-bit line.
fn push_bit_line(out: &mut String, b: &DifferentialBit)
    ensures
        final(out)@ == old(out)@ + bit_line(b@),
{
    push_str(out, "  bit ");
    push_dec(out, b.bit as u64);
    push_str(out, " (byte ");
    push_dec(out, (b.bit / 8) as u64);
    push_str(out, " bit ");
    push_dec(out, (b.bit % 8) as u64);
    push_str(out, "): ");
    let ghost ps = b@.values.map_values(|p: (Seq<char>, u8)| value_text(p));
    let ghost start = out@;
    let mut i: usize = 0;
    while i < b.values.len()
        invariant
            ps == b@.values.map_values(|p: (Seq<char>, u8)| value_text(p)),
            i <= b.values@.len(),
            out@ == start + join(ps.take(i as int), ", "@),
        decreases b.values.len() - i,
    {
        proof {
            lemma_join_step(ps, ", "@, i as int);
        }
        if i > 0 {
            push_str(out, ", ");
        }
        push_str(out, b.values[i].0.as_str());
        push_str(out, "=");
        push_dec(out, b.values[i].1 as u64);
        i = i + 1;
    }
    assert(ps.take(b.values@.len() as int) =~= ps);
    push_str(out, "\n");
}

/// Appends the block of one shared ID.
fn push_shared_block(out: &mut String, d: &IdDiff)
    ensures
        final(out)@ == old(out)@ + shared_block(d@),
{
    let ghost o = out@;
    push_str(out, "ID ");
    push_id(out, d.can_id, d.is_extended);
    push_str(out, " (");
    push_count_pairs(out, &d.frames_per_recording);
    push_str(out, ")\n");
    let ghost ls = d@.differential_bits.map_values(|b: DifferentialBitView| bit_line(b));
    let ghost start = out@;
    let mut i: usize = 0;
    while i < d.differential_bits.len()
        invariant
            ls == d@.differential_bits.map_values(|b: DifferentialBitView| bit_line(b)),
            i <= d.differential_bits@.len(),
            out@ == start + flat(ls.take(i as int)),
        decreases d.differential_bits.len() - i,
    {
        proof {
            lemma_flat_step(ls, i as int);
        }
        push_bit_line(out, &d.differential_bits[i]);
        i = i + 1;
    }
    assert(ls.take(d.differential_bits@.len() as int) =~= ls);
    assert(out@ =~= o + shared_block(d@));
}

/// Appends the line of one exclusive ID.
fn push_exclusive_line(out: &mut String, e: &ExclusiveId)
    ensures
        final(out)@ == old(out)@ + exclusive_line(e@),
{
    let ghost o = out@;
    push_str(out, "  ");
    push_id(out, e.can_id, e.is_extended);
    push_str(out, " — only in ");
    push_present_pairs(out, &e.present_in);
    push_str(out, "\n");
    assert(out@ =~= o + exclusive_line(e@));
}

/// Render a differential report as plain text.
pub fn render_diff(report: &DiffReport) -> (s: String)
    ensures
        s@ == diff_text(report@),
{
    let mut out = String::new();
    push_str(&mut out, "Differential compare of ");
    push_dec(&mut out, report.labels.len() as u64);
    push_str(&mut out, " recordings: ");
    push_labels(&mut out, &report.labels);
    push_str(&mut out, "\n\n");
    let ghost blocks = report@.shared.map_values(|d: IdDiffView| shared_block(d));
    let ghost start = out@;
    let mut i: usize = 0;
    while i < report.shared.len()
        invariant
            blocks == report@.shared.map_values(|d: IdDiffView| shared_block(d)),
            i <= report.shared@.len(),
            out@ == start + flat(blocks.take(i as int)),
        decreases report.shared.len() - i,
    {
        proof {
            lemma_flat_step(blocks, i as int);
        }
        push_shared_block(&mut out, &report.shared[i]);
        i = i + 1;
    }
    assert(blocks.take(report.shared@.len() as int) =~= blocks);
    if report.shared.len() == 0 {
        push_str(&mut out, "No differential bits found.\n");
    }
    if report.exclusive.len() > 0 {
        push_str(&mut out, "\nIDs not present in every recording:\n");
        let ghost lines = report@.exclusive.map_values(|e: ExclusiveIdView| exclusive_line(e));
        let ghost mid = out@;
        let mut j: usize = 0;
        while j < report.exclusive.len()
            invariant
                lines == report@.exclusive.map_values(|e: ExclusiveIdView| exclusive_line(e)),
                j <= report.exclusive@.len(),
                out@ == mid + flat(lines.take(j as int)),
            decreases report.exclusive.len() - j,
        {
            proof {
                lemma_flat_step(lines, j as int);
            }
            push_exclusive_line(&mut out, &report.exclusive[j]);
            j = j + 1;
        }
        assert(lines.take(report.exclusive@.len() as int) =~= lines);
    }
    out
}

/// Display character of a bit: `0`/`1` constant, `~` toggling, `.`
/// unobserved.
pub open spec fn bit_char(c: BitActivityCell) -> char {
    match spec_state(c) {
        BitState::Always0 => '0',
        BitState::Always1 => '1',
        BitState::Toggles => '~',
        BitState::Unobserved => '.',
    }
}

/// Cells in byte `byte`: eight, or the rest in the last byte.
pub open spec fn chunk_len(n: nat, byte: int) -> int {
    if n - byte * 8 < 8 {
        n - byte * 8
    } else {
        8
    }
}

/// The row of byte `byte`, its bits MSB first.
pub open spec fn byte_row(cells: Seq<BitActivityCell>, byte: int) -> Seq<char> {
    let m = chunk_len(cells.len(), byte);
    "  byte "@ + dec_str(byte as nat) + ": "@ + Seq::new(
        m as nat,
        |k: int| bit_char(cells[byte * 8 + m - 1 - k]),
    ) + "\n"@
}

pub open spec fn byte_rows_text(cells: Seq<BitActivityCell>) -> Seq<char> {
    flat(Seq::new(byte_count(cells), |b: int| byte_row(cells, b)))
}

pub open spec fn dlc_text(p: (u8, u64)) -> Seq<char> {
    dec_str(p.0 as nat) + " ("@ + dec_str(p.1 as nat) + " frames)"@
}

pub open spec fn counter_line(c: CounterProof) -> Seq<char> {
    "  COUNTER "@ + endianness_label(c.field.endianness) + " start "@ + dec_str(c.field.start_bit as nat)
        + " len "@ + dec_str(c.field.length as nat) + " — +1 mod 2^"@ + dec_str(c.field.length as nat)
        + " held for all "@ + dec_str(c.transitions as nat) + " transitions ("@ + dec_str(
        c.wraps as nat,
    ) + " wraps)\n"@
}

pub open spec fn checksum_line(c: ChecksumProof) -> Seq<char> {
    "  CHECKSUM byte "@ + dec_str(c.byte_index as nat) + " = "@ + spec_describe(c.algorithm)
        + " — matched all "@ + dec_str(c.frames as nat) + " frames ("@ + dec_str(
        c.distinct_payloads as nat,
    ) + " distinct payloads)\n"@
}

pub open spec fn note_line(note: Option<Seq<char>>) -> Seq<char> {
    match note {
        Some(n) => "  checksum sweep "@ + n + "\n"@,
        None => Seq::empty(),
    }
}

pub open spec fn variant_text(v: MuxVariantView) -> Seq<char> {
    "0x"@ + hex_str(v.selector_value as nat) + " ("@ + dec_str(v.frames as nat) + " frames)"@
}

pub open spec fn mux_line(m: MuxFactsView) -> Seq<char> {
    "  MUX-CANDIDATE selector start "@ + dec_str(m.selector.start_bit as nat) + " len "@ + dec_str(
        m.selector.length as nat,
    ) + " — conditional layouts differ across values "@ + join(
        m.variants.map_values(|v: MuxVariantView| variant_text(v)),
        ", "@,
    ) + "\n"@
}

/// The heading of an ID block: ID, frames, distinct payloads, the period
/// text, and the DLC census line.
pub open spec fn id_heading(id: IdSurveyView, timing: Seq<char>) -> Seq<char> {
    "ID "@ + id_text(id.can_id, id.is_extended) + " · "@ + dec_str(id.frames as nat) + " frames · "@
        + dec_str(id.distinct_payloads as nat) + " distinct payloads"@ + timing + "\n"@ + "  DLC: "@
        + join(id.dlc_counts.map_values(|p: (u8, u64)| dlc_text(p)), ", "@) + "\n"@
}

/// The proven facts of an ID block: counters, checksums, the checksum-sweep
/// note and mux candidates, one line each.
pub open spec fn id_facts(id: IdSurveyView) -> Seq<char> {
    flat(id.counters.map_values(|c: CounterProof| counter_line(c))) + flat(
        id.checksums.map_values(|c: ChecksumProof| checksum_line(c)),
    ) + note_line(id.checksum_note) + flat(id.mux.map_values(|m: MuxFactsView| mux_line(m)))
}

/// The text block of one surveyed ID; `timing` is the period text that
/// follows the heading (empty when there is no timing).
#[verifier::opaque]
pub open spec fn id_survey_text(id: IdSurveyView, timing: Seq<char>) -> Seq<char> {
    id_heading(id, timing) + byte_rows_text(id.bit_activity) + id_facts(id)
}

/// The text of a survey: a heading with the duration text, then each ID's
/// block followed by an empty line.
pub open spec fn survey_text(
    total_frames: u64,
    unique_ids: u64,
    ids: Seq<IdSurveyView>,
    duration: Seq<char>,
    timings: Seq<Seq<char>>,
) -> Seq<char> {
    "Survey: "@ + dec_str(total_frames as nat) + " frames, "@ + dec_str(unique_ids as nat) + " IDs, "@
        + duration + " s\n\n"@ + flat(
        Seq::new(ids.len(), |i: int| id_survey_text(ids[i], timings[i]) + "\n"@),
    )
}

fn bit_char_of(c: &BitActivityCell) -> (r: char)
    ensures
        r == bit_char(*c),
{
    match c.state() {
        BitState::Always0 => '0',
        BitState::Always1 => '1',
        BitState::Toggles => '~',
        BitState::Unobserved => '.',
    }
}

/// Appends the bit rows of the cells.
fn push_byte_rows(out: &mut String, cells: &Vec<BitActivityCell>)
    ensures
        final(out)@ == old(out)@ + byte_rows_text(cells@),
{
    let n = cells.len();
    let nbytes: usize = n / 8 + if n % 8 == 0 {
        0
    } else {
        1
    };
    let ghost rows = Seq::new(byte_count(cells@), |b: int| byte_row(cells@, b));
    let ghost start = out@;
    let mut byte: usize = 0;
    while byte < nbytes
        invariant
            n == cells@.len(),
            nbytes == byte_count(cells@),
            rows == Seq::new(byte_count(cells@), |b: int| byte_row(cells@, b)),
            byte <= nbytes,
            out@ == start + flat(rows.take(byte as int)),
        decreases nbytes - byte,
    {
        proof {
            lemma_flat_step(rows, byte as int);
        }
        let ghost before = out@;
        assert(byte * 8 <= n);
        let base = byte * 8;
        let m: usize = if n - base < 8 {
            n - base
        } else {
            8
        };
        push_str(out, "  byte ");
        push_dec(out, byte as u64);
        push_str(out, ": ");
        let ghost mid = out@;
        let mut k: usize = 0;
        while k < m
            invariant
                n == cells@.len(),
                m == chunk_len(n as nat, byte as int),
                base == byte * 8,
                base + m <= n,
                k <= m,
                out@ =~= mid + Seq::new(
                    k as nat,
                    |j: int| bit_char(cells@[byte * 8 + m - 1 - j]),
                ),
            decreases m - k,
        {
            let c = bit_char_of(&cells[base + (m - 1 - k)]);
            push_char_str(out, c);
            k = k + 1;
        }
        push_str(out, "\n");
        assert(out@ =~= before + byte_row(cells@, byte as int));
        byte = byte + 1;
    }
    assert(rows.take(nbytes as int) =~= rows);
}

/// Appends one character.
fn push_char_str(out: &mut String, c: char)
    ensures
        final(out)@ == old(out)@.push(c),
{
    crate::text::push_char(out, c);
}

fn push_dlc_counts(out: &mut String, counts: &Vec<(u8, u64)>)
    ensures
        final(out)@ == old(out)@ + join(counts@.map_values(|p: (u8, u64)| dlc_text(p)), ", "@),
{
    let ghost ps = counts@.map_values(|p: (u8, u64)| dlc_text(p));
    let ghost start = out@;
    let mut i: usize = 0;
    while i < counts.len()
        invariant
            ps == counts@.map_values(|p: (u8, u64)| dlc_text(p)),
            i <= counts@.len(),
            out@ == start + join(ps.take(i as int), ", "@),
        decreases counts.len() - i,
    {
        proof {
            lemma_join_step(ps, ", "@, i as int);
        }
        if i > 0 {
            push_str(out, ", ");
        }
        push_dec(out, counts[i].0 as u64);
        push_str(out, " (");
        push_dec(out, counts[i].1);
        push_str(out, " frames)");
        i = i + 1;
    }
    assert(ps.take(counts@.len() as int) =~= ps);
}

fn push_counter_line(out: &mut String, c: &CounterProof)
    ensures
        final(out)@ == old(out)@ + counter_line(*c),
{
    let ghost o = out@;
    push_str(out, "  COUNTER ");
    push_str(out, c.field.endianness.label());
    push_str(out, " start ");
    push_dec(out, c.field.start_bit as u64);
    push_str(out, " len ");
    push_dec(out, c.field.length as u64);
    push_str(out, " — +1 mod 2^");
    push_dec(out, c.field.length as u64);
    push_str(out, " held for all ");
    push_dec(out, c.transitions);
    push_str(out, " transitions (");
    push_dec(out, c.wraps);
    push_str(out, " wraps)\n");
    assert(out@ =~= o + counter_line(*c));
}

fn push_checksum_line(out: &mut String, c: &ChecksumProof)
    ensures
        final(out)@ == old(out)@ + checksum_line(*c),
{
    let ghost o = out@;
    push_str(out, "  CHECKSUM byte ");
    push_dec(out, c.byte_index as u64);
    push_str(out, " = ");
    let d = c.algorithm.describe();
    push_str(out, d.as_str());
    push_str(out, " — matched all ");
    push_dec(out, c.frames);
    push_str(out, " frames (");
    push_dec(out, c.distinct_payloads);
    push_str(out, " distinct payloads)\n");
    assert(out@ =~= o + checksum_line(*c));
}

fn push_mux_line(out: &mut String, m: &MuxFacts)
    ensures
        final(out)@ == old(out)@ + mux_line(m@),
{
    let ghost o = out@;
    push_str(out, "  MUX-CANDIDATE selector start ");
    push_dec(out, m.selector.start_bit as u64);
    push_str(out, " len ");
    push_dec(out, m.selector.length as u64);
    push_str(out, " — conditional layouts differ across values ");
    let ghost vs = m@.variants;
    let ghost ps = vs.map_values(|v: MuxVariantView| variant_text(v));
    let ghost start = out@;
    let mut i: usize = 0;
    while i < m.variants.len()
        invariant
            vs == m@.variants,
            vs == m.variants@.map_values(|v: MuxVariant| v@),
            ps == vs.map_values(|v: MuxVariantView| variant_text(v)),
            i <= m.variants@.len(),
            out@ == start + join(ps.take(i as int), ", "@),
        decreases m.variants.len() - i,
    {
        proof {
            lemma_join_step(ps, ", "@, i as int);
        }
        if i > 0 {
            push_str(out, ", ");
        }
        let ghost v = vs[i as int];
        assert(v == m.variants@[i as int]@);
        push_str(out, "0x");
        push_hex(out, m.variants[i].selector_value, 0);
        push_str(out, " (");
        push_dec(out, m.variants[i].frames);
        push_str(out, " frames)");
        assert(hex_padded(v.selector_value as nat, 0) == hex_str(v.selector_value as nat));
        i = i + 1;
    }
    assert(ps.take(m.variants@.len() as int) =~= ps);
    push_str(out, "\n");
    assert(out@ =~= o + mux_line(m@));
}

fn push_heading(out: &mut String, id: &IdSurvey, timing: &str)
    ensures
        final(out)@ == old(out)@ + id_heading(id@, timing@),
{
    let ghost o = out@;
    push_str(out, "ID ");
    push_id(out, id.can_id, id.is_extended);
    push_str(out, " · ");
    push_dec(out, id.frames);
    push_str(out, " frames · ");
    push_dec(out, id.distinct_payloads);
    push_str(out, " distinct payloads");
    push_str(out, timing);
    push_str(out, "\n");
    push_str(out, "  DLC: ");
    push_dlc_counts(out, &id.dlc_counts);
    push_str(out, "\n");
    assert(out@ =~= o + id_heading(id@, timing@));
}

fn push_counter_lines(out: &mut String, counters: &Vec<CounterProof>)
    ensures
        final(out)@ == old(out)@ + flat(counters@.map_values(|c: CounterProof| counter_line(c))),
{
    let ghost head = out@;
    let ghost cl = counters@.map_values(|c: CounterProof| counter_line(c));
    let mut i: usize = 0;
    while i < counters.len()
        invariant
            cl == counters@.map_values(|c: CounterProof| counter_line(c)),
            i <= counters@.len(),
            out@ == head + flat(cl.take(i as int)),
        decreases counters.len() - i,
    {
        proof {
            lemma_flat_step(cl, i as int);
        }
        push_counter_line(out, &counters[i]);
        i = i + 1;
    }
    assert(cl.take(counters@.len() as int) =~= cl);
}

fn push_checksum_lines(out: &mut String, checksums: &Vec<ChecksumProof>)
    ensures
        final(out)@ == old(out)@ + flat(checksums@.map_values(|c: ChecksumProof| checksum_line(c))),
{
    let ghost head = out@;
    let ghost kl = checksums@.map_values(|c: ChecksumProof| checksum_line(c));
    let mut i: usize = 0;
    while i < checksums.len()
        invariant
            kl == checksums@.map_values(|c: ChecksumProof| checksum_line(c)),
            i <= checksums@.len(),
            out@ == head + flat(kl.take(i as int)),
        decreases checksums.len() - i,
    {
        proof {
            lemma_flat_step(kl, i as int);
        }
        push_checksum_line(out, &checksums[i]);
        i = i + 1;
    }
    assert(kl.take(checksums@.len() as int) =~= kl);
}

fn push_mux_lines(out: &mut String, mux: &Vec<MuxFacts>)
    ensures
        final(out)@ == old(out)@ + flat(
            mux@.map_values(|m: MuxFacts| m@).map_values(|m: MuxFactsView| mux_line(m)),
        ),
{
    let ghost head = out@;
    let ghost ml = mux@.map_values(|m: MuxFacts| m@).map_values(|m: MuxFactsView| mux_line(m));
    let mut i: usize = 0;
    while i < mux.len()
        invariant
            ml == mux@.map_values(|m: MuxFacts| m@).map_values(|m: MuxFactsView| mux_line(m)),
            i <= mux@.len(),
            out@ == head + flat(ml.take(i as int)),
        decreases mux.len() - i,
    {
        proof {
            lemma_flat_step(ml, i as int);
        }
        push_mux_line(out, &mux[i]);
        i = i + 1;
    }
    assert(ml.take(mux@.len() as int) =~= ml);
}

fn push_facts(out: &mut String, id: &IdSurvey)
    ensures
        final(out)@ == old(out)@ + id_facts(id@),
{
    let ghost o = out@;
    push_counter_lines(out, &id.counters);
    push_checksum_lines(out, &id.checksums);
    match &id.checksum_note {
        Some(note) => {
            push_str(out, "  checksum sweep ");
            push_str(out, note.as_str());
            push_str(out, "\n");
        },
        None => {},
    }
    push_mux_lines(out, &id.mux);
    assert(out@ =~= o + id_facts(id@));
}

/// Appends the text block of one surveyed ID; `timing` is the rendered
/// period statistics that follow the heading.
pub fn render_id_survey(out: &mut String, id: &IdSurvey, timing: &str)
    ensures
        final(out)@ == old(out)@ + id_survey_text(id@, timing@),
{
    let ghost o = out@;
    push_heading(out, id, timing);
    push_byte_rows(out, &id.bit_activity);
    push_facts(out, id);
    proof {
        reveal(id_survey_text);
    }
    assert(out@ =~= o + id_survey_text(id@, timing@));
}

/// Render a survey as plain text. `duration` is the rendered recording
/// length in seconds and `timings[i]` the rendered period statistics of the
/// `i`-th ID (both computed in floating point by the caller).
pub fn render_survey(report: &SurveyReport, duration: &str, timings: &[String]) -> (s: String)
    requires
        timings@.len() == report.ids@.len(),
    ensures
        s@ == survey_text(
            report.total_frames,
            report.unique_ids,
            report.ids@.map_values(|i: IdSurvey| i@),
            duration@,
            timings@.map_values(|t: String| t@),
        ),
{
    let mut out = String::new();
    push_str(&mut out, "Survey: ");
    push_dec(&mut out, report.total_frames);
    push_str(&mut out, " frames, ");
    push_dec(&mut out, report.unique_ids);
    push_str(&mut out, " IDs, ");
    push_str(&mut out, duration);
    push_str(&mut out, " s\n\n");
    let ghost ids = report.ids@.map_values(|i: IdSurvey| i@);
    let ghost ts = timings@.map_values(|t: String| t@);
    let ghost blocks = Seq::new(ids.len(), |i: int| id_survey_text(ids[i], ts[i]) + "\n"@);
    let ghost start = out@;
    let mut i: usize = 0;
    while i < report.ids.len()
        invariant
            ids == report.ids@.map_values(|i: IdSurvey| i@),
            ts == timings@.map_values(|t: String| t@),
            timings@.len() == report.ids@.len(),
            blocks == Seq::new(ids.len(), |i: int| id_survey_text(ids[i], ts[i]) + "\n"@),
            i <= report.ids@.len(),
            out@ == start + flat(blocks.take(i as int)),
        decreases report.ids.len() - i,
    {
        proof {
            lemma_flat_step(blocks, i as int);
        }
        let ghost before = out@;
        render_id_survey(&mut out, &report.ids[i], timings[i].as_str());
        push_str(&mut out, "\n");
        assert(out@ =~= before + blocks[i as int]);
        i = i + 1;
    }
    assert(blocks.take(report.ids@.len() as int) =~= blocks);
    out
}

/// The line of one DBC signal. `phys` is the rendered physical range and
/// the number of frames outside the DBC range.
pub open spec fn signal_line(s: SignalCheckView, phys: (Seq<char>, u64)) -> Seq<char> {
    if s.frames_decoded == 0 {
        "  "@ + s.signal_name + " — never decoded ("@ + dec_str(s.frames_too_short as nat)
            + " frames too short)\n"@
    } else {
        "  "@ + s.signal_name + " — raw ["@ + int_str(s.raw_min as int) + ".."@ + int_str(
            s.raw_max as int,
        ) + "], phys ["@ + phys.0 + "] over "@ + dec_str(s.frames_decoded as nat) + " frames"@ + (if phys.1
            > 0 {
            " · "@ + dec_str(phys.1 as nat) + " RANGE VIOLATIONS"@
        } else {
            Seq::empty()
        }) + (if s.never_toggles {
            " · never toggles (unconfirmable)"@
        } else {
            Seq::empty()
        }) + "\n"@
    }
}

pub open spec fn check_title(c: IdCheckView) -> Seq<char> {
    id_text(c.can_id, c.is_extended) + " "@ + c.message_name + " · "@ + dec_str(c.frames as nat)
        + " frames\n"@
}

pub open spec fn mismatch_line(c: IdCheckView) -> Seq<char> {
    if c.dlc_mismatch_frames > 0 {
        "  DLC MISMATCH: "@ + dec_str(c.dlc_mismatch_frames as nat) + " frames differ from DBC DLC "@
            + dec_str(c.expected_dlc as nat) + "\n"@
    } else {
        Seq::empty()
    }
}

pub open spec fn uncovered_line(bits: Seq<u32>) -> Seq<char> {
    if bits.len() > 0 {
        "  UNEXPLAINED ACTIVITY: bits "@ + join(bits.map_values(|b: u32| dec_str(b as nat)), ", "@)
            + " toggle but no signal covers them\n"@
    } else {
        Seq::empty()
    }
}

/// The heading lines of a covered DBC message: ID, name and frames, the
/// DLC mismatch and the unexplained toggling bits when there are any.
pub open spec fn id_check_head(c: IdCheckView) -> Seq<char> {
    check_title(c) + mismatch_line(c) + uncovered_line(c.uncovered_toggling_bits)
}

/// The block of one covered DBC message, followed by an empty line.
#[verifier::opaque]
pub open spec fn id_check_block(c: IdCheckView, phys: Seq<(Seq<char>, u64)>) -> Seq<char> {
    id_check_head(c) + flat(Seq::new(c.signals.len(), |j: int| signal_line(c.signals[j], phys[j])))
        + "\n"@
}

pub open spec fn unknown_line(u: (u32, bool, u64)) -> Seq<char> {
    "  "@ + id_text(u.0, u.1) + " ("@ + dec_str(u.2 as nat) + " frames)\n"@
}

pub open spec fn unseen_line(u: (u32, Seq<char>)) -> Seq<char> {
    "  "@ + id_text(u.0, false) + " "@ + u.1 + "\n"@
}

/// The text of a DBC check: each covered message's block, then the IDs on
/// the bus the DBC lacks, then the DBC messages never seen.
pub open spec fn dbc_check_text(
    covered: Seq<IdCheckView>,
    phys: Seq<Seq<(Seq<char>, u64)>>,
    unknown: Seq<(u32, bool, u64)>,
    unseen: Seq<(u32, Seq<char>)>,
) -> Seq<char> {
    flat(Seq::new(covered.len(), |i: int| id_check_block(covered[i], phys[i]))) + (if unknown.len() > 0 {
        "On bus but not in DBC:\n"@ + flat(unknown.map_values(|u: (u32, bool, u64)| unknown_line(u)))
    } else {
        Seq::empty()
    }) + (if unseen.len() > 0 {
        "In DBC but never seen on bus:\n"@ + flat(
            unseen.map_values(|u: (u32, Seq<char>)| unseen_line(u)),
        )
    } else {
        Seq::empty()
    })
}

pub open spec fn phys_view(v: Vec<(String, u64)>) -> Seq<(Seq<char>, u64)> {
    v@.map_values(|p: (String, u64)| (p.0@, p.1))
}

fn push_signal_line(out: &mut String, s: &SignalCheck, phys: &(String, u64))
    ensures
        final(out)@ == old(out)@ + signal_line(s@, (phys.0@, phys.1)),
{
    let ghost o = out@;
    push_str(out, "  ");
    push_str(out, s.signal_name.as_str());
    if s.frames_decoded == 0 {
        push_str(out, " — never decoded (");
        push_dec(out, s.frames_too_short);
        push_str(out, " frames too short)\n");
    } else {
        push_str(out, " — raw [");
        push_int(out, s.raw_min);
        push_str(out, "..");
        push_int(out, s.raw_max);
        push_str(out, "], phys [");
        push_str(out, phys.0.as_str());
        push_str(out, "] over ");
        push_dec(out, s.frames_decoded);
        push_str(out, " frames");
        if phys.1 > 0 {
            push_str(out, " · ");
            push_dec(out, phys.1);
            push_str(out, " RANGE VIOLATIONS");
        }
        if s.never_toggles {
            push_str(out, " · never toggles (unconfirmable)");
        }
        push_str(out, "\n");
    }
    assert(out@ =~= o + signal_line(s@, (phys.0@, phys.1)));
}

fn push_bit_list(out: &mut String, bits: &Vec<u32>)
    ensures
        final(out)@ == old(out)@ + join(bits@.map_values(|b: u32| dec_str(b as nat)), ", "@),
{
    let ghost ps = bits@.map_values(|b: u32| dec_str(b as nat));
    let ghost start = out@;
    let mut i: usize = 0;
    while i < bits.len()
        invariant
            ps == bits@.map_values(|b: u32| dec_str(b as nat)),
            i <= bits@.len(),
            out@ == start + join(ps.take(i as int), ", "@),
        decreases bits.len() - i,
    {
        proof {
            lemma_join_step(ps, ", "@, i as int);
        }
        if i > 0 {
            push_str(out, ", ");
        }
        push_dec(out, bits[i] as u64);
        i = i + 1;
    }
    assert(ps.take(bits@.len() as int) =~= ps);
}

fn push_signal_lines(out: &mut String, c: &IdCheck, phys: &Vec<(String, u64)>)
    requires
        phys@.len() == c.signals@.len(),
    ensures
        final(out)@ == old(out)@ + flat(
            Seq::new(c@.signals.len(), |j: int| signal_line(c@.signals[j], phys_view(*phys)[j])),
        ),
{
    let ghost lines = Seq::new(c@.signals.len(), |j: int| signal_line(c@.signals[j], phys_view(*phys)[j]));
    let ghost start = out@;
    let mut j: usize = 0;
    while j < c.signals.len()
        invariant
            phys@.len() == c.signals@.len(),
            lines == Seq::new(
                c@.signals.len(),
                |j: int| signal_line(c@.signals[j], phys_view(*phys)[j]),
            ),
            j <= c.signals@.len(),
            out@ == start + flat(lines.take(j as int)),
        decreases c.signals.len() - j,
    {
        proof {
            lemma_flat_step(lines, j as int);
        }
        push_signal_line(out, &c.signals[j], &phys[j]);
        assert(c@.signals[j as int] == c.signals@[j as int]@);
        j = j + 1;
    }
    assert(lines.take(c.signals@.len() as int) =~= lines);
}

fn push_check_title(out: &mut String, c: &IdCheck)
    ensures
        final(out)@ == old(out)@ + check_title(c@),
{
    let ghost o = out@;
    push_id(out, c.can_id, c.is_extended);
    push_str(out, " ");
    push_str(out, c.message_name.as_str());
    push_str(out, " · ");
    push_dec(out, c.frames);
    push_str(out, " frames\n");
    assert(out@ =~= o + check_title(c@));
}

fn push_mismatch_line(out: &mut String, c: &IdCheck)
    ensures
        final(out)@ == old(out)@ + mismatch_line(c@),
{
    let ghost o = out@;
    if c.dlc_mismatch_frames > 0 {
        push_str(out, "  DLC MISMATCH: ");
        push_dec(out, c.dlc_mismatch_frames);
        push_str(out, " frames differ from DBC DLC ");
        push_dec(out, c.expected_dlc as u64);
        push_str(out, "\n");
    }
    assert(out@ =~= o + mismatch_line(c@));
}

fn push_uncovered_line(out: &mut String, bits: &Vec<u32>)
    ensures
        final(out)@ == old(out)@ + uncovered_line(bits@),
{
    let ghost o = out@;
    if bits.len() > 0 {
        push_str(out, "  UNEXPLAINED ACTIVITY: bits ");
        push_bit_list(out, bits);
        push_str(out, " toggle but no signal covers them\n");
    }
    assert(out@ =~= o + uncovered_line(bits@));
}

fn push_id_check_head(out: &mut String, c: &IdCheck)
    ensures
        final(out)@ == old(out)@ + id_check_head(c@),
{
    let ghost o = out@;
    push_check_title(out, c);
    push_mismatch_line(out, c);
    push_uncovered_line(out, &c.uncovered_toggling_bits);
    assert(out@ =~= o + id_check_head(c@));
}

fn push_id_check_block(out: &mut String, c: &IdCheck, phys: &Vec<(String, u64)>)
    requires
        phys@.len() == c.signals@.len(),
    ensures
        final(out)@ == old(out)@ + id_check_block(c@, phys_view(*phys)),
{
    let ghost o = out@;
    push_id_check_head(out, c);
    push_signal_lines(out, c, phys);
    push_str(out, "\n");
    proof {
        reveal(id_check_block);
    }
    assert(out@ =~= o + id_check_block(c@, phys_view(*phys)));
}

/// Render a DBC check as plain text. `physical[i][j]` is the rendered
/// physical range of signal `j` of covered message `i` and its count of
/// range violations (both computed in floating point by the caller).
pub fn render_dbc_check(report: &DbcCheckReport, physical: &[Vec<(String, u64)>]) -> (s: String)
    requires
        physical@.len() == report.covered@.len(),
        forall|i: int| 0 <= i < physical@.len() ==> (#[trigger] physical@[i])@.len() == report.covered@[i].signals@.len(),
    ensures
        s@ == dbc_check_text(
            report.covered@.map_values(|c: IdCheck| c@),
            physical@.map_values(|v: Vec<(String, u64)>| phys_view(v)),
            report.unknown_ids@,
            crate::dbc_check::unseen_view(report.unseen_messages@),
        ),
{
    let mut out = String::new();
    let ghost cv = report.covered@.map_values(|c: IdCheck| c@);
    let ghost pv = physical@.map_values(|v: Vec<(String, u64)>| phys_view(v));
    let ghost blocks = Seq::new(cv.len(), |i: int| id_check_block(cv[i], pv[i]));
    let mut i: usize = 0;
    while i < report.covered.len()
        invariant
            cv == report.covered@.map_values(|c: IdCheck| c@),
            pv == physical@.map_values(|v: Vec<(String, u64)>| phys_view(v)),
            blocks == Seq::new(cv.len(), |i: int| id_check_block(cv[i], pv[i])),
            physical@.len() == report.covered@.len(),
            forall|i: int| 0 <= i < physical@.len() ==> (#[trigger] physical@[i])@.len() == report.covered@[i].signals@.len(),
            i <= report.covered@.len(),
            out@ == flat(blocks.take(i as int)),
        decreases report.covered.len() - i,
    {
        proof {
            lemma_flat_step(blocks, i as int);
        }
        push_id_check_block(&mut out, &report.covered[i], &physical[i]);
        i = i + 1;
    }
    assert(blocks.take(report.covered@.len() as int) =~= blocks);
    let ghost mid = out@;
    if report.unknown_ids.len() > 0 {
        push_str(&mut out, "On bus but not in DBC:\n");
        let ghost lines = report.unknown_ids@.map_values(|u: (u32, bool, u64)| unknown_line(u));
        let ghost st = out@;
        let mut j: usize = 0;
        while j < report.unknown_ids.len()
            invariant
                lines == report.unknown_ids@.map_values(|u: (u32, bool, u64)| unknown_line(u)),
                j <= report.unknown_ids@.len(),
                out@ == st + flat(lines.take(j as int)),
            decreases report.unknown_ids.len() - j,
        {
            proof {
                lemma_flat_step(lines, j as int);
            }
            let (id, ext, frames) = report.unknown_ids[j];
            push_str(&mut out, "  ");
            push_id(&mut out, id, ext);
            push_str(&mut out, " (");
            push_dec(&mut out, frames);
            push_str(&mut out, " frames)\n");
            j = j + 1;
        }
        assert(lines.take(report.unknown_ids@.len() as int) =~= lines);
    }
    let ghost mid2 = out@;
    if report.unseen_messages.len() > 0 {
        push_str(&mut out, "In DBC but never seen on bus:\n");
        let ghost uv = crate::dbc_check::unseen_view(report.unseen_messages@);
        let ghost lines = uv.map_values(|u: (u32, Seq<char>)| unseen_line(u));
        let ghost st = out@;
        let mut j: usize = 0;
        while j < report.unseen_messages.len()
            invariant
                uv == crate::dbc_check::unseen_view(report.unseen_messages@),
                lines == uv.map_values(|u: (u32, Seq<char>)| unseen_line(u)),
                j <= report.unseen_messages@.len(),
                out@ == st + flat(lines.take(j as int)),
            decreases report.unseen_messages.len() - j,
        {
            proof {
                lemma_flat_step(lines, j as int);
            }
            push_str(&mut out, "  ");
            push_id(&mut out, report.unseen_messages[j].0, false);
            push_str(&mut out, " ");
            push_str(&mut out, report.unseen_messages[j].1.as_str());
            push_str(&mut out, "\n");
            j = j + 1;
        }
        assert(lines.take(report.unseen_messages@.len() as int) =~= lines);
    }
    out
}

} // verus!
