use sigma_diagnostics::frame::CanFrameDto;
use sigma_diagnostics::stats::{calculate_frame_stats, detect_dlc, DlcDetectionResult, FrameStats};

fn make_frame(id: u32, timestamp_us: i64, data: Vec<u8>) -> CanFrameDto {
    CanFrameDto {
        timestamp_us,
        channel: "vcan0".to_string(),
        can_id: id,
        is_extended: false,
        is_fd: false,
        brs: false,
        esi: false,
        dlc: data.len() as u8,
        data,
    }
}

/// Frames per second over the recent window, as the statistics define it.
fn frame_rate(stats: &FrameStats) -> f64 {
    if stats.recent_frames >= 2 && stats.recent_span_us > 0 {
        (stats.recent_frames - 1) as f64 / (stats.recent_span_us as f64 / 1_000_000.0)
    } else {
        0.0
    }
}

fn confidence(r: &DlcDetectionResult) -> f64 {
    if r.sample_count == 0 {
        0.0
    } else {
        r.dlc_frames as f64 / r.sample_count as f64
    }
}

#[test]
fn test_calculate_frame_stats_empty() {
    let stats = calculate_frame_stats(vec![]);
    assert_eq!(stats.unique_messages, 0);
    assert_eq!(frame_rate(&stats), 0.0);
}

#[test]
fn test_calculate_frame_stats() {
    let frames = vec![
        make_frame(0x100, 0, vec![0, 1, 2, 3, 4, 5, 6, 7]),
        make_frame(0x100, 1_000, vec![0, 1, 2, 3, 4, 5, 6, 7]),
        make_frame(0x200, 2_000, vec![0, 1, 2, 3, 4, 5, 6, 7]),
    ];
    let stats = calculate_frame_stats(frames);
    assert_eq!(stats.unique_messages, 2);
    assert!(frame_rate(&stats) > 0.0);
}

#[test]
fn frame_stats_use_the_last_hundred_frames() {
    // 150 frames, 1 ms apart; IDs alternate between three values.
    let frames: Vec<CanFrameDto> = (0..150i64)
        .map(|i| make_frame(0x100 + (i % 3) as u32, i * 1_000, vec![]))
        .collect();
    let stats = calculate_frame_stats(frames);
    assert_eq!(stats.unique_messages, 3);
    assert_eq!(stats.recent_frames, 100);
    assert_eq!(stats.recent_span_us, 99_000);
    assert!((frame_rate(&stats) - 1000.0).abs() < 1e-9);
}

#[test]
fn frame_stats_of_one_frame_have_no_span() {
    let stats = calculate_frame_stats(vec![make_frame(0x7, 5, vec![1])]);
    assert_eq!(stats, FrameStats { unique_messages: 1, recent_frames: 1, recent_span_us: 0 });
}

#[test]
fn test_detect_dlc() {
    let frames = vec![
        make_frame(0x100, 0, vec![0; 8]),
        make_frame(0x100, 1_000, vec![0; 8]),
        make_frame(0x100, 2_000, vec![0; 4]),
        make_frame(0x200, 3_000, vec![0; 2]),
    ];
    let result = detect_dlc(frames, 0x100, false);
    assert_eq!(result.detected_dlc, 8);
    assert!(confidence(&result) > 0.6); // 2/3 = 0.666
    assert_eq!(result.sample_count, 3);
    assert_eq!(result.dlc_frames, 2);
}

#[test]
fn detect_dlc_without_frames_defaults_to_eight() {
    let frames = vec![make_frame(0x200, 0, vec![0; 2])];
    let result = detect_dlc(frames, 0x100, false);
    assert_eq!(result, DlcDetectionResult { detected_dlc: 8, dlc_frames: 0, sample_count: 0 });
    assert_eq!(confidence(&result), 0.0);
}

#[test]
fn detect_dlc_separates_extended_ids() {
    let mut ext = make_frame(0x100, 0, vec![0; 3]);
    ext.is_extended = true;
    let frames = vec![ext, make_frame(0x100, 10, vec![0; 5])];
    let result = detect_dlc(frames, 0x100, true);
    assert_eq!(result, DlcDetectionResult { detected_dlc: 3, dlc_frames: 1, sample_count: 1 });
}
