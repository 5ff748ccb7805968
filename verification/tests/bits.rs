use sigma_diagnostics::bits::{
    endianness_for, extract_raw, occupied_bits, occupied_bits_msb_first, signal_occupied_bits, Endianness,
    FieldSpec,
};

#[test]
fn bits_motorola_rpm_style_16_from_bit_7() {
    let bits = signal_occupied_bits(7, 16, "big_endian");
    assert_eq!(bits, vec![7, 6, 5, 4, 3, 2, 1, 0, 15, 14, 13, 12, 11, 10, 9, 8]);
}

#[test]
fn bits_intel_oil_pressure_32_len_16() {
    let bits = signal_occupied_bits(32, 16, "little_endian");
    assert_eq!(bits, (32..48).collect::<Vec<_>>());
}

#[test]
fn bits_engine_data_signals_do_not_overlap() {
    // Matches sample.dbc EngineData packing
    let rpm = signal_occupied_bits(7, 16, "big_endian");
    let temp = signal_occupied_bits(23, 8, "big_endian");
    let throttle = signal_occupied_bits(31, 8, "big_endian");
    let oil = signal_occupied_bits(32, 16, "little_endian");
    let mut all = std::collections::HashSet::new();
    for set in [&rpm, &temp, &throttle, &oil] {
        for b in set {
            assert!(all.insert(*b), "overlap on bit {b}");
        }
    }
    assert_eq!(all.len(), 48);
}

#[test]
fn dbc_motorola_rpm_style_16_from_bit_7() {
    let bits = signal_occupied_bits(7, 16, "big_endian");
    assert_eq!(bits, vec![7, 6, 5, 4, 3, 2, 1, 0, 15, 14, 13, 12, 11, 10, 9, 8]);
}

#[test]
fn dbc_intel_oil_pressure_32_len_16() {
    let bits = signal_occupied_bits(32, 16, "little_endian");
    assert_eq!(bits, (32..48).collect::<Vec<_>>());
}

#[test]
fn dbc_engine_data_signals_do_not_overlap() {
    let rpm = signal_occupied_bits(7, 16, "big_endian");
    let temp = signal_occupied_bits(23, 8, "big_endian");
    let throttle = signal_occupied_bits(31, 8, "big_endian");
    let oil = signal_occupied_bits(32, 16, "little_endian");
    let mut all = std::collections::HashSet::new();
    for set in [&rpm, &temp, &throttle, &oil] {
        for b in set {
            assert!(all.insert(*b), "overlap on bit {b}");
        }
    }
    assert_eq!(all.len(), 48);
}

#[test]
fn extract_intel_16bit() {
    let spec = FieldSpec { start_bit: 0, length: 16, endianness: Endianness::Intel, signed: false };
    assert_eq!(extract_raw(&[0x34, 0x12], &spec), Some(0x1234));
}

#[test]
fn extract_motorola_16bit() {
    let spec = FieldSpec { start_bit: 7, length: 16, endianness: Endianness::Motorola, signed: false };
    assert_eq!(extract_raw(&[0x12, 0x34], &spec), Some(0x1234));
}

#[test]
fn extract_signed_sign_extends() {
    let spec = FieldSpec { start_bit: 0, length: 8, endianness: Endianness::Intel, signed: true };
    assert_eq!(extract_raw(&[0xFF], &spec), Some(-1));
    assert_eq!(extract_raw(&[0x7F], &spec), Some(127));
}

#[test]
fn extract_out_of_range_is_none() {
    let spec = FieldSpec { start_bit: 8, length: 8, endianness: Endianness::Intel, signed: false };
    assert_eq!(extract_raw(&[0x00], &spec), None);
}

#[test]
fn extract_intel_partial_nibble() {
    let spec = FieldSpec { start_bit: 4, length: 4, endianness: Endianness::Intel, signed: false };
    assert_eq!(extract_raw(&[0xA5], &spec), Some(0xA));
}

#[test]
fn motorola_walk_wraps_to_next_byte_msb() {
    assert_eq!(occupied_bits(3, 6, Endianness::Motorola), vec![3, 2, 1, 0, 15, 14]);
}

#[test]
fn intel_range_stops_at_u32_max() {
    assert_eq!(occupied_bits(u32::MAX - 2, 5, Endianness::Intel), vec![u32::MAX - 2, u32::MAX - 1]);
}

#[test]
fn msb_first_reverses_intel_only() {
    let intel = FieldSpec { start_bit: 8, length: 4, endianness: Endianness::Intel, signed: false };
    assert_eq!(occupied_bits_msb_first(&intel), vec![11, 10, 9, 8]);
    let moto = FieldSpec { start_bit: 11, length: 4, endianness: Endianness::Motorola, signed: false };
    assert_eq!(occupied_bits_msb_first(&moto), vec![11, 10, 9, 8]);
    // Same bits in the same order: same value (Intel 8|4 and Motorola 11|4).
    assert_eq!(extract_raw(&[0, 0xB7], &intel), extract_raw(&[0, 0xB7], &moto));
}

#[test]
fn extract_length_limits() {
    let zero = FieldSpec { start_bit: 0, length: 0, endianness: Endianness::Intel, signed: false };
    assert_eq!(extract_raw(&[0xFF; 8], &zero), None);
    let wide = FieldSpec { start_bit: 0, length: 64, endianness: Endianness::Intel, signed: false };
    assert_eq!(extract_raw(&[0xFF; 8], &wide), None);
    let max = FieldSpec { start_bit: 0, length: 63, endianness: Endianness::Intel, signed: true };
    assert_eq!(extract_raw(&[0xFF; 8], &max), Some(-1));
    let min = FieldSpec { start_bit: 0, length: 63, endianness: Endianness::Intel, signed: true };
    assert_eq!(
        extract_raw(&[0, 0, 0, 0, 0, 0, 0, 0x40], &min),
        Some(-(1i64 << 62))
    );
}

#[test]
fn endianness_labels() {
    assert_eq!(Endianness::Intel.label(), "Intel");
    assert_eq!(Endianness::Motorola.label(), "Motorola");
    assert_eq!(signal_occupied_bits(7, 2, "motorola"), vec![7, 6]);
    assert_eq!(signal_occupied_bits(7, 2, "Motorola"), vec![7, 8]);
}

#[test]
fn byte_order_strings_name_the_endianness() {
    assert_eq!(endianness_for("big_endian"), Endianness::Motorola);
    assert_eq!(endianness_for("motorola"), Endianness::Motorola);
    assert_eq!(endianness_for("little_endian"), Endianness::Intel);
    assert_eq!(endianness_for("Motorola"), Endianness::Intel);
    assert_eq!(endianness_for(""), Endianness::Intel);
}
