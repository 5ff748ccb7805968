use sigma_diagnostics::mux::mux_facts;

fn toggle_mask_for(payloads: &[&[u8]], bit_limit: u32) -> Vec<bool> {
    (0..bit_limit as usize)
        .map(|b| {
            let first = payloads[0][b / 8] >> (b % 8) & 1;
            payloads.iter().any(|p| p[b / 8] >> (b % 8) & 1 != first)
        })
        .collect()
}

#[test]
fn detects_byte0_mux() {
    // Selector byte 0 ∈ {1, 2}: page 1 toggles byte 1, page 2 toggles byte 2.
    let mut payloads = Vec::new();
    for i in 0u8..100 {
        payloads.push(vec![1, i, 0x00, 0xFF]);
        payloads.push(vec![2, 0x00, i, 0xFF]);
    }
    let refs: Vec<&[u8]> = payloads.iter().map(|p| p.as_slice()).collect();
    let mask = toggle_mask_for(&refs, 32);
    let facts = mux_facts(&refs, &mask, 32, 20, 32);
    let byte0 = facts
        .iter()
        .find(|f| f.selector.start_bit == 0 && f.selector.length == 8)
        .expect("byte 0 selector facts");
    assert!(byte0.variant_layouts_differ);
    assert_eq!(byte0.variants.len(), 2);
    // i only reaches 99, so the MSB of the counting byte never sets.
    assert_eq!(byte0.variants[0].toggling_bits, (8..15).collect::<Vec<_>>());
    assert_eq!(byte0.variants[1].toggling_bits, (16..23).collect::<Vec<_>>());
}

#[test]
fn plain_counter_byte_is_not_a_mux() {
    // Byte 0 counts 0..4; the rest of the payload toggles identically
    // regardless of the "selector" value.
    let mut payloads = Vec::new();
    for i in 0u32..400 {
        payloads.push(vec![(i % 4) as u8, (i % 2) as u8, 0x55]);
    }
    let refs: Vec<&[u8]> = payloads.iter().map(|p| p.as_slice()).collect();
    let mask = toggle_mask_for(&refs, 24);
    let facts = mux_facts(&refs, &mask, 24, 20, 32);
    assert!(
        facts
            .iter()
            .all(|f| f.selector.start_bit != 0 || f.selector.length != 8),
        "facts: {facts:?}"
    );
}

#[test]
fn mux_counts_distinct_values_and_respects_limits() {
    let mut payloads = Vec::new();
    for i in 0u8..30 {
        payloads.push(vec![1, i, 0x00]);
        payloads.push(vec![2, 0x00, i]);
    }
    let refs: Vec<&[u8]> = payloads.iter().map(|p| p.as_slice()).collect();
    let mask = toggle_mask_for(&refs, 24);
    let facts = mux_facts(&refs, &mask, 24, 20, 32);
    let byte0 = facts
        .iter()
        .find(|f| f.selector.start_bit == 0 && f.selector.length == 8)
        .expect("byte 0 selector facts");
    assert_eq!(byte0.distinct_values, 2);
    assert_eq!(byte0.variants[0].selector_value, 1);
    assert_eq!(byte0.variants[0].frames, 30);
    assert_eq!(byte0.variants[1].selector_value, 2);
    // Too few selector values allowed: the candidate is skipped.
    let capped = mux_facts(&refs, &mask, 24, 20, 1);
    assert!(capped.iter().all(|f| f.selector.start_bit != 0 || f.selector.length != 8));
    // Too many frames demanded per variant: nothing is counted.
    assert!(mux_facts(&refs, &mask, 24, 31, 32).is_empty());
    // No payloads, no facts.
    assert!(mux_facts(&[], &[], 24, 1, 32).is_empty());
}
