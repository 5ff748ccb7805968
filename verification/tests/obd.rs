use sigma_diagnostics::pids::{parse_supported_bitmask, pid_def_name, scalable_pids, service01_request};
use sigma_diagnostics::poll::{
    next_mask_pid, next_poll_pid, request_payload, response_data, supported_from_responses,
};

#[test]
fn supported_bitmask() {
    // 0xBE1FA813 is the classic example: PIDs 1,2,3,4,6,7,8,12,...
    let pids = parse_supported_bitmask(0x00, &[0xBE, 0x1F, 0xA8, 0x13]);
    assert!(pids.contains(&0x01));
    assert!(!pids.contains(&0x02));
    assert!(pids.contains(&0x0C));
    assert!(pids.contains(&0x0D));
    assert!(pids.contains(&0x20));
    assert_eq!(
        pids.len(),
        0xBEu8.count_ones() as usize
            + 0x1Fu8.count_ones() as usize
            + 0xA8u8.count_ones() as usize
            + 0x13u8.count_ones() as usize
    );
}

#[test]
fn bitmask_reads_at_most_four_bytes_from_base() {
    assert_eq!(parse_supported_bitmask(0x20, &[0x80, 0, 0, 0x01, 0xFF]), vec![0x21, 0x40]);
    assert_eq!(parse_supported_bitmask(0x40, &[0x40]), vec![0x42]);
    assert!(parse_supported_bitmask(0x00, &[]).is_empty());
}

#[test]
fn request_payload_is_a_valid_single_frame() {
    let p = request_payload(0x0C);
    assert_eq!(p[0], 0x02); // length
    assert_eq!(p[1], 0x01); // service
    assert_eq!(p[2], 0x0C); // pid
    assert_eq!(&p[3..], &[0, 0, 0, 0, 0]); // padding
}

#[test]
fn pid_names_and_requests() {
    assert_eq!(pid_def_name(0x0C), Some("EngineRpm"));
    assert_eq!(pid_def_name(0x05), Some("CoolantTemp"));
    assert_eq!(pid_def_name(0x5C), Some("EngineOilTemp"));
    assert_eq!(pid_def_name(0x01), None);
    assert_eq!(service01_request(0x0D), [0x01, 0x0D]);
}

#[test]
fn response_frames_are_matched_to_requests() {
    let rpm = [0x04, 0x41, 0x0C, 0x1A, 0xF8, 0xAA, 0xAA, 0xAA];
    assert_eq!(response_data(false, 0x7E8, &rpm, 0x0C), Some(vec![0x0C, 0x1A, 0xF8]));
    assert_eq!(response_data(false, 0x7E9, &rpm, 0x0C), None);
    assert_eq!(response_data(true, 0x7E8, &rpm, 0x0C), None);
    assert_eq!(response_data(false, 0x7E8, &rpm, 0x0D), None);
    // A declared length beyond the frame is capped by the frame.
    assert_eq!(response_data(false, 0x7E8, &[0x07, 0x41, 0x0D, 0x32], 0x0D), Some(vec![0x0D, 0x32]));
}

#[test]
fn discovery_stops_at_first_missing_mask() {
    let r0 = Some(vec![0x00, 0x80, 0x00, 0x00, 0x01]);
    let r1 = Some(vec![0x20, 0x00, 0x00, 0x00, 0x01]);
    let s = supported_from_responses(&[r0.clone(), r1, None, Some(vec![0x60, 0xFF, 0xFF, 0xFF, 0xFF])]);
    assert_eq!(s.pids, vec![0x01, 0x20, 0x40]);
    let short = supported_from_responses(&[Some(vec![0x00, 0xC0]), r0]);
    assert!(short.pids.is_empty());
    assert_eq!(next_poll_pid(&[0x0C, 0x0D], 3), 0x0D);
}

#[test]
fn mask_requests_follow_full_answers_only() {
    let full = |b: u8| Some(vec![b, 0x00, 0x00, 0x00, 0x01]);
    assert_eq!(next_mask_pid(&[]), Some(0x00));
    assert_eq!(next_mask_pid(&[full(0x00)]), Some(0x20));
    assert_eq!(next_mask_pid(&[full(0x00), full(0x20)]), Some(0x40));
    assert_eq!(next_mask_pid(&[full(0x00), full(0x20), full(0x40)]), Some(0x60));
    assert_eq!(next_mask_pid(&[full(0x00), full(0x20), full(0x40), full(0x60)]), None);
    assert_eq!(next_mask_pid(&[full(0x00), None]), None);
    assert_eq!(next_mask_pid(&[Some(vec![0x00, 0xC0])]), None);
}

use sigma_diagnostics::extract::extract_obd_responses;
use sigma_diagnostics::frame::CanFrameDto;
use sigma_diagnostics::pids::pid_data_bytes;

fn response_frame(timestamp_us: i64, data: &[u8]) -> CanFrameDto {
    CanFrameDto {
        timestamp_us,
        channel: "can0".to_string(),
        can_id: 0x7E8,
        is_extended: false,
        is_fd: false,
        brs: false,
        esi: false,
        dlc: 8,
        data: data.to_vec(),
    }
}

#[test]
fn extracts_rpm_and_speed_series() {
    let frames = vec![
        // RPM = 0x1AF8 / 4 = 1726
        response_frame(1_000_000, &[0x04, 0x41, 0x0C, 0x1A, 0xF8, 0x00, 0x00, 0x00]),
        // Speed = 60 km/h
        response_frame(1_100_000, &[0x03, 0x41, 0x0D, 0x3C, 0x00, 0x00, 0x00, 0x00]),
        // Negative response (0x7F) is skipped
        response_frame(1_200_000, &[0x03, 0x7F, 0x01, 0x12, 0x00, 0x00, 0x00, 0x00]),
    ];
    let responses = extract_obd_responses(&frames, None);
    assert_eq!(responses.len(), 2);
    assert_eq!(responses[0].pid, 0x0C);
    let rpm = u16::from_be_bytes([responses[0].data[0], responses[0].data[1]]) as f64 / 4.0;
    assert_eq!(rpm, 1726.0);
    assert_eq!(responses[0].timestamp_us, 1_000_000);
    assert_eq!(responses[1].pid, 0x0D);
    assert_eq!(responses[1].data, vec![0x3C]);
}

#[test]
fn responses_are_reassembled_in_time_order_for_the_given_id() {
    let mut other = response_frame(0, &[0x04, 0x41, 0x0C, 0x00, 0x10]);
    other.can_id = 0x7E9;
    let frames = vec![
        // Second half arrives first in the list but later in time.
        response_frame(20, &[0x21, 0x00, 0x05, 0xAA, 0xAA, 0xAA, 0xAA, 0xAA]),
        response_frame(10, &[0x10, 0x08, 0x41, 0x0C, 0x01, 0x02, 0x41, 0x0D]),
        other,
    ];
    let responses = extract_obd_responses(&frames, None);
    assert_eq!(responses.len(), 1);
    assert_eq!((responses[0].timestamp_us, responses[0].pid), (20, 0x0C));
    assert_eq!(responses[0].data, vec![0x01, 0x02]);
    let other_only = extract_obd_responses(&frames, Some(0x7E9));
    assert_eq!(other_only.len(), 1);
    assert_eq!(other_only[0].data, vec![0x00, 0x10]);
    assert_eq!(pid_data_bytes(0x0C), Some(2));
    assert_eq!(pid_data_bytes(0x0D), Some(1));
    assert_eq!(pid_data_bytes(0x01), None);
}

#[test]
fn only_pids_with_standard_scaling_are_usable() {
    assert_eq!(scalable_pids(&[0x01, 0x0C, 0x20, 0x0D, 0x05, 0xA6]), vec![0x0C, 0x0D, 0x05]);
    assert!(scalable_pids(&[]).is_empty());
}
