use sigma_diagnostics::diff::{diff_recordings, LabeledRecording};
use sigma_diagnostics::frame::CanFrameDto;

fn frame(can_id: u32, timestamp_us: i64, data: &[u8]) -> CanFrameDto {
    CanFrameDto {
        timestamp_us,
        channel: "can0".to_string(),
        can_id,
        is_extended: false,
        is_fd: false,
        brs: false,
        esi: false,
        dlc: data.len() as u8,
        data: data.to_vec(),
    }
}

#[test]
fn finds_differential_bit() {
    // Bit 16 (byte 2, bit 0) is 0 in "off" and 1 in "on"; byte 0 counts
    // (not constant → excluded); byte 1 constant and equal (→ excluded).
    let off: Vec<CanFrameDto> = (0..100u32)
        .map(|i| frame(0x321, i as i64 * 10_000, &[(i % 16) as u8, 0x77, 0x00]))
        .collect();
    let on: Vec<CanFrameDto> = (0..100u32)
        .map(|i| frame(0x321, i as i64 * 10_000, &[(i % 16) as u8, 0x77, 0x01]))
        .collect();
    let report = diff_recordings(&[
        LabeledRecording { label: "off".into(), frames: &off },
        LabeledRecording { label: "on".into(), frames: &on },
    ]);
    assert_eq!(report.shared.len(), 1);
    let id = &report.shared[0];
    assert_eq!(id.can_id, 0x321);
    assert_eq!(id.differential_bits.len(), 1);
    assert_eq!(id.differential_bits[0].bit, 16);
    assert_eq!(
        id.differential_bits[0].values,
        vec![("off".to_string(), 0), ("on".to_string(), 1)]
    );
    assert!(report.exclusive.is_empty());
}

#[test]
fn exclusive_ids_reported() {
    let a = vec![frame(0x100, 0, &[0]), frame(0x200, 100_000, &[0])];
    let b = vec![frame(0x100, 0, &[0])];
    let report = diff_recordings(&[
        LabeledRecording { label: "a".into(), frames: &a },
        LabeledRecording { label: "b".into(), frames: &b },
    ]);
    assert_eq!(report.exclusive.len(), 1);
    assert_eq!(report.exclusive[0].can_id, 0x200);
    assert_eq!(report.exclusive[0].present_in, vec![("a".to_string(), 1)]);
}

#[test]
fn shared_counts_and_labels_follow_input_order() {
    let a = vec![frame(0x10, 0, &[0x01]), frame(0x10, 5, &[0x01]), frame(0x05, 1, &[0])];
    let b = vec![frame(0x10, 0, &[0x00])];
    let c = vec![frame(0x10, 0, &[0x01, 0xFF])];
    let report = diff_recordings(&[
        LabeledRecording { label: "a".into(), frames: &a },
        LabeledRecording { label: "b".into(), frames: &b },
        LabeledRecording { label: "c".into(), frames: &c },
    ]);
    assert_eq!(report.labels, vec!["a".to_string(), "b".to_string(), "c".to_string()]);
    assert_eq!(report.shared.len(), 1);
    let id = &report.shared[0];
    assert_eq!(
        id.frames_per_recording,
        vec![("a".to_string(), 2), ("b".to_string(), 1), ("c".to_string(), 1)]
    );
    // Only the 8 bits every frame covers are compared; bit 0 differs.
    assert_eq!(id.differential_bits.len(), 1);
    assert_eq!(id.differential_bits[0].bit, 0);
    assert_eq!(
        id.differential_bits[0].values,
        vec![("a".to_string(), 1), ("b".to_string(), 0), ("c".to_string(), 1)]
    );
    assert_eq!(report.exclusive.len(), 1);
    assert_eq!(report.exclusive[0].can_id, 0x05);
}

#[test]
fn identical_recordings_have_no_shared_facts() {
    let a = vec![frame(0x10, 0, &[0xAA]), frame(0x10, 1, &[0x55])];
    let report = diff_recordings(&[
        LabeledRecording { label: "x".into(), frames: &a },
        LabeledRecording { label: "y".into(), frames: &a },
    ]);
    assert!(report.shared.is_empty());
    assert!(report.exclusive.is_empty());
    let none = diff_recordings(&[]);
    assert!(none.labels.is_empty() && none.shared.is_empty() && none.exclusive.is_empty());
}

use sigma_diagnostics::report::render_diff;

#[test]
fn diff_report_renders_evidence() {
    let off: Vec<CanFrameDto> = (0..4u32).map(|i| frame(0x321, i as i64, &[0x00])).collect();
    let on: Vec<CanFrameDto> = (0..3u32).map(|i| frame(0x321, i as i64, &[0x01])).collect();
    let mut extra = frame(0x1234, 9, &[0]);
    extra.is_extended = true;
    let mut on2 = on.clone_frames();
    on2.push(extra);
    let report = diff_recordings(&[
        LabeledRecording { label: "off".into(), frames: &off },
        LabeledRecording { label: "on".into(), frames: &on2 },
    ]);
    let text = render_diff(&report);
    assert_eq!(
        text,
        "Differential compare of 2 recordings: off, on\n\n\
         ID 321 (off: 4, on: 3)\n  bit 0 (byte 0 bit 0): off=0, on=1\n\
         \nIDs not present in every recording:\n  00001234x — only in on (1 frames)\n"
    );
    let empty = render_diff(&diff_recordings(&[]));
    assert_eq!(empty, "Differential compare of 0 recordings: \n\nNo differential bits found.\n");
}

trait CloneFrames {
    fn clone_frames(&self) -> Vec<CanFrameDto>;
}

impl CloneFrames for Vec<CanFrameDto> {
    fn clone_frames(&self) -> Vec<CanFrameDto> {
        self.iter()
            .map(|f| CanFrameDto {
                timestamp_us: f.timestamp_us,
                channel: f.channel.clone(),
                can_id: f.can_id,
                is_extended: f.is_extended,
                is_fd: f.is_fd,
                brs: f.brs,
                esi: f.esi,
                dlc: f.dlc,
                data: f.data.clone(),
            })
            .collect()
    }
}
