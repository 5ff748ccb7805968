use sigma_diagnostics::bits::{Endianness, FieldSpec};
use sigma_diagnostics::dbc_check::{check_dbc, DbcMessageSpec, DbcSignalSpec};
use sigma_diagnostics::frame::CanFrameDto;
use sigma_diagnostics::report::render_dbc_check;

fn frame(can_id: u32, timestamp_us: i64, data: &[u8]) -> CanFrameDto {
    CanFrameDto {
        timestamp_us,
        channel: "can0".to_string(),
        can_id,
        is_extended: false,
        is_fd: false,
        brs: false,
        esi: false,
        dlc: data.len() as u8,
        data: data.to_vec(),
    }
}

fn signal(name: &str, start_bit: u32, length: u32) -> DbcSignalSpec {
    DbcSignalSpec {
        name: name.to_string(),
        field: FieldSpec { start_bit, length, endianness: Endianness::Intel, signed: false },
        is_multiplexer_switch: false,
        multiplexer_switch_value: None,
    }
}

/// BO_ 256 ENGINE : 3 ECU with Rpm 0|16@1+ [0|8000] and Flag 16|1@1+.
fn engine() -> DbcMessageSpec {
    DbcMessageSpec {
        id: 256,
        is_extended: false,
        name: "ENGINE".to_string(),
        dlc: 3,
        signals: vec![signal("Rpm", 0, 16), signal("Flag", 16, 1)],
    }
}

#[test]
fn reports_range_violations_and_coverage() {
    let mut frames: Vec<CanFrameDto> = (0..100u32)
        .map(|i| {
            let rpm = (i * 100) as u16; // up to 9900 -> violates [0|8000]
            let mut data = rpm.to_le_bytes().to_vec();
            // Bit 17 toggles but no signal covers it.
            data.push(if i % 2 == 0 { 0b10 } else { 0b00 });
            frame(0x100, i as i64 * 10_000, &data)
        })
        .collect();
    frames.push(frame(0x400, 1_500_000, &[0xFF])); // unknown ID

    let report = check_dbc(&frames, &[engine()]);
    assert_eq!(report.covered.len(), 1);
    let engine = &report.covered[0];
    assert_eq!(engine.message_name, "ENGINE");
    assert_eq!(engine.frames, 100);
    assert_eq!(engine.uncovered_toggling_bits, vec![17]);

    let rpm = &engine.signals[0];
    assert_eq!(rpm.signal_name, "Rpm");
    assert_eq!(rpm.frames_decoded, 100);
    assert_eq!(rpm.raw_max, 9900);
    // Factor 1, offset 0, range [0|8000]: 8100..=9900 step 100 -> 19 violating frames
    let violations = rpm
        .raw_values
        .iter()
        .filter(|v| (**v as f64) < 0.0 || (**v as f64) > 8000.0)
        .count();
    assert_eq!(violations, 19);

    let flag = &engine.signals[1];
    assert!(flag.never_toggles);

    assert_eq!(report.unknown_ids, vec![(0x400, false, 1)]);
    assert!(report.unseen_messages.is_empty());
}

#[test]
fn mux_selected_signals_short_frames_and_unseen_messages() {
    let mut sel = signal("Page", 0, 8);
    sel.is_multiplexer_switch = true;
    let mut page1 = signal("P1", 8, 8);
    page1.multiplexer_switch_value = Some(1);
    let mut wide = signal("Wide", 16, 16);
    wide.multiplexer_switch_value = Some(2);
    let msg = DbcMessageSpec {
        id: 0x200,
        is_extended: false,
        name: "MUXED".to_string(),
        dlc: 4,
        signals: vec![sel, page1, wide],
    };
    let unseen = DbcMessageSpec { id: 0x300, is_extended: false, name: "GONE".to_string(), dlc: 8, signals: vec![] };
    let frames = vec![
        frame(0x200, 0, &[1, 10, 0, 0]),
        frame(0x200, 1, &[2, 20, 0x34]),
        frame(0x200, 2, &[1, 30, 0, 0]),
    ];
    let report = check_dbc(&frames, &[msg, unseen]);
    let m = &report.covered[0];
    assert_eq!(m.dlc_mismatch_frames, 1);
    assert_eq!(m.signals[1].raw_values, vec![10, 30]);
    assert_eq!((m.signals[1].raw_min, m.signals[1].raw_max), (10, 30));
    // The page-2 frame is too short for the 16-bit signal.
    assert_eq!(m.signals[2].frames_decoded, 0);
    assert_eq!(m.signals[2].frames_too_short, 1);
    assert_eq!((m.signals[2].raw_min, m.signals[2].raw_max), (i64::MAX, i64::MIN));
    assert_eq!(report.unseen_messages, vec![(0x300, "GONE".to_string())]);
    assert!(report.unknown_ids.is_empty());
}

#[test]
fn dbc_check_text_lists_facts_with_physical_ranges() {
    let mut frames: Vec<CanFrameDto> = (0..4u32)
        .map(|i| {
            let mut data = ((i * 3000) as u16).to_le_bytes().to_vec();
            data.push(if i % 2 == 0 { 0b10 } else { 0b00 });
            frame(0x100, i as i64 * 10_000, &data)
        })
        .collect();
    frames.push(frame(0x400, 50_000, &[0xFF]));
    let unseen = DbcMessageSpec {
        id: 0x321,
        is_extended: false,
        name: "BODY".to_string(),
        dlc: 8,
        signals: vec![],
    };
    let report = check_dbc(&frames, &[engine(), unseen]);
    let physical = vec![vec![
        ("0.000..9000.000".to_string(), 1u64),
        ("0.000..0.000".to_string(), 0u64),
    ]];
    let text = render_dbc_check(&report, &physical);
    let expected = "100 ENGINE · 4 frames\n  \
UNEXPLAINED ACTIVITY: bits 17 toggle but no signal covers them\n  \
Rpm — raw [0..9000], phys [0.000..9000.000] over 4 frames · 1 RANGE VIOLATIONS\n  \
Flag — raw [0..0], phys [0.000..0.000] over 4 frames · never toggles (unconfirmable)\n\n\
On bus but not in DBC:\n  400 (1 frames)\n\
In DBC but never seen on bus:\n  321 BODY\n";
    assert_eq!(text, expected);
}
