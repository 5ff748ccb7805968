use sigma_diagnostics::activity::BitState;
use sigma_diagnostics::frame::CanFrameDto;
use sigma_diagnostics::survey::{survey_frames, SurveyOptions};

fn frame(can_id: u32, timestamp_us: i64, data: &[u8]) -> CanFrameDto {
    CanFrameDto {
        timestamp_us,
        channel: "can0".to_string(),
        can_id,
        is_extended: false,
        is_fd: false,
        brs: false,
        esi: false,
        dlc: data.len() as u8,
        data: data.to_vec(),
    }
}

fn median_ms(gaps_us: &[u64]) -> f64 {
    let mut d: Vec<f64> = gaps_us.iter().map(|g| *g as f64 / 1000.0).collect();
    d.sort_by(|a, b| a.total_cmp(b));
    let n = d.len();
    if n % 2 == 1 {
        d[n / 2]
    } else {
        (d[n / 2 - 1] + d[n / 2]) / 2.0
    }
}

#[test]
fn survey_measures_timing_and_bits() {
    // 10 ms period, byte 0 counts, byte 1 constant 0xAA.
    let frames: Vec<CanFrameDto> = (0..300u32)
        .map(|i| frame(0x123, i as i64 * 10_000, &[(i % 256) as u8, 0xAA]))
        .collect();
    let report = survey_frames(&frames, &SurveyOptions::default());
    assert_eq!(report.total_frames, 300);
    assert_eq!(report.unique_ids, 1);
    let id = &report.ids[0];
    assert_eq!(id.can_id, 0x123);
    assert_eq!(id.frames, 300);
    assert_eq!(id.dlc_counts, vec![(2, 300)]);
    assert!((median_ms(&id.gaps_us) - 10.0).abs() < 1e-6);
    assert_eq!(id.gaps_us.len(), 299);

    // Byte 0 bits toggle; byte 1 = 0xAA pattern is constant.
    assert_eq!(id.bit_activity[0].state(), BitState::Toggles);
    assert_eq!(id.bit_activity[8].state(), BitState::Always0);
    assert_eq!(id.bit_activity[9].state(), BitState::Always1);

    // The counting byte is proven as an 8-bit counter.
    assert_eq!(id.counters.len(), 1);
    assert_eq!(id.counters[0].field.start_bit, 0);
    assert_eq!(id.counters[0].field.length, 8);
}

#[test]
fn checksum_skip_notes_are_reported() {
    let frames: Vec<CanFrameDto> = (0..50u32)
        .map(|i| frame(0x200, i as i64 * 100_000, &[0x01, 0x02]))
        .collect();
    let report = survey_frames(&frames, &SurveyOptions::default());
    let id = &report.ids[0];
    assert!(id.checksums.is_empty());
    assert!(id
        .checksum_note
        .as_ref()
        .unwrap()
        .contains("distinct payloads"));
    assert_eq!(
        id.checksum_note.as_deref(),
        Some("skipped: only 1 distinct payloads (need 8)")
    );
    assert_eq!(id.distinct_payloads, 1);
}

#[test]
fn survey_orders_ids_and_notes_varying_dlc() {
    let frames = vec![
        frame(0x300, 30, &[1, 2, 3]),
        frame(0x100, 10, &[1]),
        frame(0x300, 20, &[1, 2]),
        frame(0x100, 5, &[2]),
    ];
    let options = SurveyOptions::default();
    let report = survey_frames(&frames, &options);
    assert_eq!(report.total_frames, 4);
    assert_eq!(report.unique_ids, 2);
    assert_eq!(report.first_timestamp_us, 5);
    assert_eq!(report.last_timestamp_us, 30);
    assert_eq!(report.ids[0].can_id, 0x100);
    assert_eq!(report.ids[0].first_timestamp_us, 5);
    assert_eq!(report.ids[0].last_timestamp_us, 10);
    assert_eq!(report.ids[0].gaps_us, vec![5]);
    let id300 = &report.ids[1];
    assert_eq!(id300.dlc_counts, vec![(2, 1), (3, 1)]);
    assert_eq!(id300.checksum_note.as_deref(), Some("skipped: DLC varies"));
    // Bit cells span the longest payload.
    assert_eq!(id300.bit_activity.len(), 24);
    assert_eq!(id300.bit_activity[16].state(), BitState::Always1);

    let filtered = survey_frames(
        &frames,
        &SurveyOptions { id_filter: Some(vec![0x300]), ..SurveyOptions::default() },
    );
    assert_eq!(filtered.unique_ids, 1);
    assert_eq!(filtered.ids[0].can_id, 0x300);
    assert_eq!(filtered.total_frames, 4);

    let empty = survey_frames(&[], &options);
    assert_eq!(empty.unique_ids, 0);
    assert_eq!(empty.first_timestamp_us, i64::MAX);
    assert_eq!(empty.last_timestamp_us, i64::MIN);
}
