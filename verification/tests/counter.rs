use sigma_diagnostics::bits::Endianness;
use sigma_diagnostics::counter::prove_counters;

fn counter_payloads(count: usize) -> Vec<Vec<u8>> {
    (0..count).map(|i| vec![0x55, (i % 16) as u8, 0xAA]).collect()
}

fn as_refs(payloads: &[Vec<u8>]) -> Vec<&[u8]> {
    payloads.iter().map(|p| p.as_slice()).collect()
}

fn toggle_mask_for(payloads: &[&[u8]]) -> Vec<bool> {
    let bits = payloads[0].len() * 8;
    (0..bits)
        .map(|b| {
            let first = payloads[0][b / 8] >> (b % 8) & 1;
            payloads.iter().any(|p| p[b / 8] >> (b % 8) & 1 != first)
        })
        .collect()
}

#[test]
fn proves_4bit_counter() {
    let payloads = counter_payloads(100);
    let refs = as_refs(&payloads);
    let mask = toggle_mask_for(&refs);
    let proofs = prove_counters(&refs, &mask, 24, 16, 16);
    assert_eq!(proofs.len(), 1, "expected exactly one maximal proof: {proofs:?}");
    let p = &proofs[0];
    assert_eq!(p.field.start_bit, 8);
    assert_eq!(p.field.length, 4);
    assert_eq!(p.field.endianness, Endianness::Intel);
    assert_eq!(p.transitions, 99);
    assert_eq!(p.wraps, 99 / 16);
}

#[test]
fn single_corrupt_frame_kills_proof() {
    let mut payloads = counter_payloads(100);
    payloads[50][1] = payloads[50][1].wrapping_add(2);
    let refs = as_refs(&payloads);
    let mask = toggle_mask_for(&refs);
    assert!(prove_counters(&refs, &mask, 24, 16, 16).is_empty());
}

#[test]
fn no_wrap_means_no_proof() {
    let payloads: Vec<Vec<u8>> = (5..8u8).map(|i| vec![i]).collect();
    let refs = as_refs(&payloads);
    let mask = toggle_mask_for(&refs);
    assert!(prove_counters(&refs, &mask, 8, 16, 2).is_empty());
}

#[test]
fn full_byte_counter_is_maximal() {
    let payloads: Vec<Vec<u8>> = (0..600usize).map(|i| vec![(i % 256) as u8]).collect();
    let refs = as_refs(&payloads);
    let mask = toggle_mask_for(&refs);
    let proofs = prove_counters(&refs, &mask, 8, 16, 16);
    assert_eq!(proofs.len(), 1);
    assert_eq!(proofs[0].field.length, 8);
    assert_eq!(proofs[0].wraps, 2);
}

#[test]
fn too_few_transitions_or_frames_prove_nothing() {
    let payloads: Vec<Vec<u8>> = (0..40usize).map(|i| vec![(i % 4) as u8]).collect();
    let refs = as_refs(&payloads);
    let mask = toggle_mask_for(&refs);
    // 39 transitions < 40 required.
    assert!(prove_counters(&refs, &mask, 8, 16, 40).is_empty());
    let proofs = prove_counters(&refs, &mask, 8, 16, 39);
    assert_eq!(proofs.len(), 1);
    assert_eq!(proofs[0].field.length, 2);
    assert_eq!(proofs[0].wraps, 9);
    assert!(prove_counters(&refs[..1], &mask, 8, 16, 0).is_empty());
}

#[test]
fn widths_beyond_the_widest_field_search_the_same() {
    let payloads = counter_payloads(100);
    let refs = as_refs(&payloads);
    let mask = toggle_mask_for(&refs);
    let narrow = prove_counters(&refs, &mask, 24, 16, 16);
    assert_eq!(prove_counters(&refs, &mask, 24, 63, 16), narrow);
    assert_eq!(prove_counters(&refs, &mask, 24, u32::MAX, 16), narrow);
}

#[test]
fn sixty_three_bit_counter_wraps() {
    let top: u64 = (1u64 << 63) - 1;
    let values = [top - 2, top - 1, top, 0, 1];
    let payloads: Vec<Vec<u8>> = values.iter().map(|v| v.to_le_bytes().to_vec()).collect();
    let refs = as_refs(&payloads);
    let mask = toggle_mask_for(&refs);
    let proofs = prove_counters(&refs, &mask, 64, 64, 4);
    assert_eq!(proofs.len(), 1, "{proofs:?}");
    assert_eq!(proofs[0].field.start_bit, 0);
    assert_eq!(proofs[0].field.length, 63);
    assert_eq!(proofs[0].field.endianness, Endianness::Intel);
    assert_eq!(proofs[0].wraps, 1);
    assert_eq!(proofs[0].transitions, 4);
}

#[test]
fn every_counting_field_lies_inside_a_reported_counter() {
    // A 3-bit counter in byte 0 and a 2-bit counter stepping every frame in
    // byte 2; both are found, and nothing that only covers part of one is.
    let payloads: Vec<Vec<u8>> = (0..40usize).map(|i| vec![(i % 8) as u8, 0x00, ((i % 4) as u8) << 4]).collect();
    let refs = as_refs(&payloads);
    let mask = toggle_mask_for(&refs);
    let proofs = prove_counters(&refs, &mask, 24, 16, 16);
    assert_eq!(proofs.len(), 2, "{proofs:?}");
    let spans: Vec<(u32, u32)> = proofs.iter().map(|p| (p.field.start_bit, p.field.length)).collect();
    assert!(spans.contains(&(0, 3)));
    assert!(spans.contains(&(20, 2)));
    for p in &proofs {
        assert!(!p.field.signed);
        assert_eq!(p.field.endianness, Endianness::Intel);
        assert_eq!(p.transitions, 39);
    }
}
