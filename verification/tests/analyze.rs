use sigma_diagnostics::activity::BitActivityCell;
use sigma_diagnostics::analyze::{bit_rows, fact_rows, id_row};
use sigma_diagnostics::bits::{Endianness, FieldSpec};
use sigma_diagnostics::checksum::{ChecksumAlgorithm, ChecksumProof};
use sigma_diagnostics::counter::CounterProof;
use sigma_diagnostics::mux::{MuxFacts, MuxVariant};
use sigma_diagnostics::report::render_survey;
use sigma_diagnostics::survey::{IdSurvey, SurveyReport};

fn cell(bit: u32, ones: u64, zeros: u64) -> BitActivityCell {
    BitActivityCell { bit, ones, zeros, transitions: 0 }
}

fn bare_survey(bit_activity: Vec<BitActivityCell>) -> IdSurvey {
    IdSurvey {
        can_id: 0x123,
        is_extended: false,
        channel: "can0".to_string(),
        frames: 10,
        first_timestamp_us: 0,
        last_timestamp_us: 9,
        dlc_counts: vec![(2, 10)],
        gaps_us: vec![1; 9],
        distinct_payloads: 1,
        bit_activity,
        counters: vec![],
        checksums: vec![],
        checksum_note: None,
        mux: vec![],
    }
}

#[test]
fn bit_rows_are_msb_first_per_byte() {
    // Byte 0: bit 0 toggles, bit 7 constant 1, others constant 0.
    // Byte 1: only bits 8 and 9 measured.
    let mut cells: Vec<BitActivityCell> = (0..8).map(|b| cell(b, 0, 5)).collect();
    cells[0] = cell(0, 2, 3);
    cells[7] = cell(7, 5, 0);
    cells.push(cell(8, 5, 0));
    cells.push(cell(9, 0, 0));
    let rows = bit_rows(&bare_survey(cells));
    assert_eq!(rows.len(), 2);
    assert_eq!(rows[0].0, "Byte 0");
    assert_eq!(rows[0].1, vec![1, 0, 0, 0, 0, 0, 0, 2]);
    assert_eq!(rows[1].0, "Byte 1");
    assert_eq!(rows[1].1, vec![3, 3, 3, 3, 3, 3, 3, 1]);
}

#[test]
fn bit_rows_of_no_cells_is_empty() {
    assert!(bit_rows(&bare_survey(vec![])).is_empty());
}

#[test]
fn fact_rows_list_every_fact_in_order() {
    let mut id = bare_survey(vec![]);
    id.counters.push(CounterProof {
        field: FieldSpec { start_bit: 0, length: 8, endianness: Endianness::Intel, signed: false },
        transitions: 299,
        wraps: 1,
    });
    id.checksums.push(ChecksumProof {
        byte_index: 7,
        algorithm: ChecksumAlgorithm::XorConst { constant: 0x5A },
        frames: 200,
        distinct_payloads: 150,
    });
    id.mux.push(MuxFacts {
        selector: FieldSpec { start_bit: 0, length: 4, endianness: Endianness::Intel, signed: false },
        distinct_values: 3,
        variants: vec![MuxVariant { selector_value: 1, frames: 30, toggling_bits: vec![12] }],
        variant_layouts_differ: true,
    });
    id.checksum_note = Some("skipped: DLC varies".to_string());
    let rows = fact_rows(&id);
    assert_eq!(rows.len(), 4);
    assert_eq!(rows[0].0, "COUNTER");
    assert_eq!(
        rows[0].1,
        "Intel start 0 len 8 — +1 mod 2^8 for all 299 transitions (1 wraps)"
    );
    assert_eq!(rows[1].0, "CHECKSUM");
    assert_eq!(rows[1].1, "byte 7 = XOR ^ 0x5A — matched all 200 frames (150 distinct)");
    assert_eq!(rows[2].0, "MUX");
    assert_eq!(rows[2].1, "selector start 0 len 4 — 3 values with differing layouts");
    assert_eq!(rows[3].0, "note");
    assert_eq!(rows[3].1, "checksum sweep skipped: DLC varies");
}

#[test]
fn fact_rows_without_facts_show_placeholder() {
    let rows = fact_rows(&bare_survey(vec![cell(0, 1, 1)]));
    assert_eq!(rows.len(), 1);
    assert_eq!(rows[0].0, "—");
    assert_eq!(
        rows[0].1,
        "No structural proofs for this ID (see the bit map for raw activity)."
    );
}

#[test]
fn survey_text_renders_every_fact_with_its_evidence() {
    let mut id = bare_survey(vec![

        cell(0, 2, 3),
        cell(1, 0, 5),
        cell(2, 5, 0),
        cell(3, 0, 0),
        cell(4, 0, 5),
        cell(5, 0, 5),
        cell(6, 0, 5),
        cell(7, 5, 0),
        cell(8, 1, 1),
    ]);
    id.counters.push(CounterProof {
        field: FieldSpec { start_bit: 4, length: 4, endianness: Endianness::Intel, signed: false },
        transitions: 9,
        wraps: 0,
    });
    id.mux.push(MuxFacts {
        selector: FieldSpec { start_bit: 0, length: 2, endianness: Endianness::Intel, signed: false },
        distinct_values: 2,
        variants: vec![
            MuxVariant { selector_value: 0x1A, frames: 20, toggling_bits: vec![] },
            MuxVariant { selector_value: 2, frames: 25, toggling_bits: vec![9] },
        ],
        variant_layouts_differ: true,
    });
    id.checksum_note = Some("skipped: only 1 distinct payloads (need 8)".to_string());
    let report = SurveyReport {
        total_frames: 10,
        unique_ids: 1,
        first_timestamp_us: 0,
        last_timestamp_us: 9,
        ids: vec![id],
    };
    let text = render_survey(&report, "0.0", &[" · period median 1.0 ms".to_string()]);
    let expected = "Survey: 10 frames, 1 IDs, 0.0 s\n\n\
ID 123 · 10 frames · 1 distinct payloads · period median 1.0 ms\n  \
DLC: 2 (10 frames)\n  \
byte 0: 1000.10~\n  \
byte 1: ~\n  \
COUNTER Intel start 4 len 4 — +1 mod 2^4 held for all 9 transitions (0 wraps)\n  \
checksum sweep skipped: only 1 distinct payloads (need 8)\n  \
MUX-CANDIDATE selector start 0 len 2 — conditional layouts differ across values 0x1A (20 frames), 0x2 (25 frames)\n\n";
    assert_eq!(text, expected);
}

#[test]
fn id_rows_summarise_the_facts() {
    let mut id = bare_survey(vec![]);
    let row = id_row(&id, "—");
    assert_eq!(row.can_id, "123");
    assert_eq!(row.frames, "10");
    assert_eq!(row.period, "—");
    assert_eq!(row.distinct, "1");
    assert_eq!(row.facts, "");

    id.is_extended = true;
    id.counters.push(CounterProof {
        field: FieldSpec { start_bit: 0, length: 4, endianness: Endianness::Intel, signed: false },
        transitions: 9,
        wraps: 0,
    });
    id.mux.push(MuxFacts {
        selector: FieldSpec { start_bit: 0, length: 2, endianness: Endianness::Intel, signed: false },
        distinct_values: 2,
        variants: vec![],
        variant_layouts_differ: true,
    });
    let row = id_row(&id, "10.0 ms");
    assert_eq!(row.can_id, "00000123x");
    assert_eq!(row.period, "10.0 ms");
    assert_eq!(row.facts, "1 counter(s) · 1 mux candidate(s)");
}
