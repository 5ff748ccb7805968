use sigma_diagnostics::bits::{Endianness, FieldSpec};
use sigma_diagnostics::correlate::{align_sample, field_candidates};

#[test]
fn samples_align_with_the_latest_frame_inside_the_window() {
    let times = [0i64, 100, 200];
    assert_eq!(align_sample(&times, 150, 60), Some(1));
    assert_eq!(align_sample(&times, 150, 40), None);
    assert_eq!(align_sample(&times, 100, 0), Some(1));
    assert_eq!(align_sample(&times, -5, 1_000), None);
    assert_eq!(align_sample(&times, 1_000, 1_000), Some(2));
    assert_eq!(align_sample(&[], 10, 1_000), None);
    // Equal timestamps: the latest of them.
    assert_eq!(align_sample(&[5, 5, 5, 9], 7, 10), Some(2));
}

fn intel(start_bit: u32, length: u32, signed: bool) -> FieldSpec {
    FieldSpec { start_bit, length, endianness: Endianness::Intel, signed }
}

#[test]
fn candidates_cover_toggling_bits_once_per_reading() {
    // One byte counting through every value: all eight bits toggle.
    let data: Vec<Vec<u8>> = (0..=255u8).map(|b| vec![b]).collect();
    let payloads: Vec<&[u8]> = data.iter().map(|d| d.as_slice()).collect();
    let c = field_candidates(&payloads, 4, 8);
    // Motorola fields inside the byte read the same bits as Intel ones and
    // are dropped; those leaving the byte lie outside the payload.
    assert_eq!(c.len(), 30);
    assert!(c.iter().all(|s| s.endianness == Endianness::Intel));
    assert_eq!(c[0], intel(0, 4, false));
    assert_eq!(c[1], intel(0, 4, true));
    assert_eq!(c[2], intel(0, 5, false));
    assert_eq!(c[29], intel(4, 4, true));
}

#[test]
fn candidates_skip_constant_bits_and_short_payloads() {
    // Low nibble counts, high nibble constant; one payload is shorter.
    let mut data: Vec<Vec<u8>> = (0..16u8).map(|b| vec![0xA0 | b, 0x00]).collect();
    let payloads: Vec<&[u8]> = data.iter().map(|d| d.as_slice()).collect();
    let c = field_candidates(&payloads, 4, 8);
    assert_eq!(c, vec![intel(0, 4, false), intel(0, 4, true)]);

    data.push(vec![0x00]);
    let payloads: Vec<&[u8]> = data.iter().map(|d| d.as_slice()).collect();
    assert_eq!(field_candidates(&payloads, 4, 8), vec![intel(0, 4, false), intel(0, 4, true)]);
    assert!(field_candidates(&[], 4, 8).is_empty());
    assert!(field_candidates(&payloads, 9, 8).is_empty());
}
