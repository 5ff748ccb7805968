use sigma_diagnostics::isotp::{encode_single_frame, flow_control_cts, IsotpReassembler};

#[test]
fn single_frame_roundtrip() {
    let frame = encode_single_frame(&[0x01, 0x0C]).unwrap();
    assert_eq!(frame[0], 0x02);
    let mut r = IsotpReassembler::new();
    let msg = r.push(1_000_000, &frame).unwrap();
    assert_eq!(msg.data, vec![0x01, 0x0C]);
    assert_eq!(msg.timestamp_us, 1_000_000);
}

#[test]
fn multi_frame_reassembly_with_padding() {
    // 12-byte message: FF carries 6, CF carries the rest (+ padding).
    let mut r = IsotpReassembler::new();
    assert!(r.push(1_000_000, &[0x10, 0x0C, 0x41, 0x02, 1, 2, 3, 4]).is_none());
    let msg = r
        .push(1_100_000, &[0x21, 5, 6, 7, 8, 9, 10, 0xAA])
        .expect("complete");
    assert_eq!(msg.data, vec![0x41, 0x02, 1, 2, 3, 4, 5, 6, 7, 8, 9, 10]);
    assert_eq!(msg.timestamp_us, 1_100_000);
}

#[test]
fn out_of_sequence_resets() {
    let mut r = IsotpReassembler::new();
    assert!(r.push(1_000_000, &[0x10, 0x0C, 0x41, 0x02, 1, 2, 3, 4]).is_none());
    // Wrong sequence number (0x22 instead of 0x21) drops the transfer.
    assert!(r.push(1_100_000, &[0x22, 5, 6, 7, 8, 9, 10, 11]).is_none());
    assert!(r.push(1_200_000, &[0x21, 5, 6, 7, 8, 9, 10, 11]).is_none());
}

#[test]
fn flow_control_is_ignored() {
    let mut r = IsotpReassembler::new();
    assert!(r.push(1_000_000, &flow_control_cts()).is_none());
    assert_eq!(flow_control_cts(), [0x30, 0, 0, 0, 0, 0, 0, 0]);
}

#[test]
fn encode_rejects_empty_and_long_payloads() {
    assert!(encode_single_frame(&[]).is_none());
    assert!(encode_single_frame(&[0; 8]).is_none());
    assert_eq!(
        encode_single_frame(&[1, 2, 3, 4, 5, 6, 7]).unwrap(),
        [7, 1, 2, 3, 4, 5, 6, 7]
    );
    assert_eq!(encode_single_frame(&[0xAB]).unwrap(), [1, 0xAB, 0, 0, 0, 0, 0, 0]);
}

#[test]
fn three_frame_transfer_and_malformed_frames() {
    let mut r = IsotpReassembler::new();
    // 20 bytes: 6 + 7 + 7.
    assert!(r.push(0, &[0x10, 20, 0, 1, 2, 3, 4, 5]).is_none());
    assert!(r.push(1, &[0x21, 6, 7, 8, 9, 10, 11, 12]).is_none());
    let msg = r.push(2, &[0x22, 13, 14, 15, 16, 17, 18, 19]).unwrap();
    assert_eq!(msg.data, (0u8..20).collect::<Vec<_>>());
    // A consecutive frame without a transfer is ignored.
    assert!(r.push(3, &[0x21, 1, 2]).is_none());
    // A first frame announcing 7 bytes or fewer is malformed.
    assert!(r.push(4, &[0x10, 7, 1, 2, 3, 4, 5, 6]).is_none());
    // A zero-length single frame yields nothing; an empty payload too.
    assert!(r.push(5, &[0x00, 1]).is_none());
    assert!(r.push(6, &[]).is_none());
    // A single frame shorter than announced yields nothing.
    assert!(r.push(7, &[0x03, 1]).is_none());
    // A single frame in the middle of a transfer cancels it.
    assert!(r.push(8, &[0x10, 9, 1, 2, 3, 4, 5, 6]).is_none());
    assert_eq!(r.push(9, &[0x01, 0x55]).unwrap().data, vec![0x55]);
    assert!(r.push(10, &[0x21, 7, 8, 9]).is_none());
}

/// Segment a payload into a first frame and zero-padded consecutive frames.
fn segment(payload: &[u8]) -> Vec<[u8; 8]> {
    let len = payload.len();
    let mut padded = payload.to_vec();
    padded.extend_from_slice(&[0; 7]);
    let mut frames = vec![[
        0x10 | (len >> 8) as u8,
        (len & 0xFF) as u8,
        payload[0],
        payload[1],
        payload[2],
        payload[3],
        payload[4],
        payload[5],
    ]];
    for k in 1..=len / 7 {
        let mut f = [0u8; 8];
        f[0] = 0x20 | (k % 16) as u8;
        f[1..].copy_from_slice(&padded[7 * k - 1..7 * k + 6]);
        frames.push(f);
    }
    frames
}

#[test]
fn segmented_transfers_reassemble_unchanged() {
    for len in [8usize, 13, 14, 20, 21, 111, 112, 300, 4095] {
        let payload: Vec<u8> = (0..len).map(|i| (i * 7 + 3) as u8).collect();
        let frames = segment(&payload);
        let mut r = IsotpReassembler::new();
        let last = frames.len() - 1;
        for (i, f) in frames.iter().enumerate() {
            let m = r.push(i as i64, f);
            if i < last {
                assert!(m.is_none(), "len {len} frame {i}");
            } else {
                let m = m.expect("last frame completes the transfer");
                assert_eq!(m.data, payload, "len {len}");
                assert_eq!(m.timestamp_us, last as i64);
            }
        }
    }
}
