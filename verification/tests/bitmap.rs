use sigma_diagnostics::bitmap::{build_bit_map, BitCell, MapSignal};

fn sig(name: &str, start_bit: u32, length: u32, byte_order: &str) -> MapSignal {
    MapSignal {
        name: name.to_string(),
        start_bit,
        length,
        byte_order: byte_order.to_string(),
    }
}

fn engine_data() -> Vec<MapSignal> {
    vec![
        sig("EngineRPM", 7, 16, "big_endian"),
        sig("CoolantTemp", 23, 8, "big_endian"),
        sig("Throttle", 31, 8, "big_endian"),
        sig("OilPressure", 32, 16, "little_endian"),
    ]
}

#[test]
fn engine_data_grid_has_no_conflicts() {
    let (rows, summary) = build_bit_map(&engine_data(), 8, -1, None);
    assert_eq!(rows.len(), 8);
    assert_eq!(rows[0].0, "Byte 0");
    assert_eq!(summary, "DLC 8 · 64 bits · used 48 · free 16");
    // Byte 0 belongs to the RPM signal, MSB first.
    assert!(rows[0].1.iter().all(|c| *c == BitCell { state: 1, signal_index: 0 }));
    // Bytes 6 and 7 are free.
    assert!(rows[6].1.iter().all(|c| *c == BitCell { state: 0, signal_index: -1 }));
    assert!(rows.iter().flat_map(|r| r.1.iter()).all(|c| c.state != 3));
}

#[test]
fn selection_overlap_and_past_dlc() {
    let signals = vec![
        sig("A", 0, 8, "little_endian"),
        sig("B", 4, 8, "little_endian"),
        sig("C", 20, 8, "little_endian"),
    ];
    let (rows, summary) = build_bit_map(&signals, 2, 1, None);
    // Bits 4..8 overlap; C lies past the 2-byte DLC (bits 20..28).
    assert_eq!(
        summary,
        "DLC 2 · 16 bits · used 12 · free 4 · overlap 4 · past DLC 8 · B [4–11 Intel]"
    );
    assert_eq!(rows.len(), 4);
    assert_eq!(rows[2].0, "+2");
    // Byte 0, displayed MSB first: bits 7..4 overlap (shown as B, selected), bits 3..0 are A.
    assert_eq!(rows[0].1[0], BitCell { state: 3, signal_index: 1 });
    assert_eq!(rows[0].1[7], BitCell { state: 1, signal_index: 0 });
    // Byte 1: bits 8..11 selected B, 12..15 free.
    assert_eq!(rows[1].1[7], BitCell { state: 2, signal_index: 1 });
    assert_eq!(rows[1].1[0], BitCell { state: 0, signal_index: -1 });
    // Past the DLC, occupied bits conflict.
    assert_eq!(rows[2].1[3], BitCell { state: 3, signal_index: 2 });
}

#[test]
fn live_edit_replaces_selected_placement() {
    let live = (16u32, 4u32, "Edited".to_string());
    let (rows, summary) = build_bit_map(&engine_data(), 8, 1, Some(&live));
    assert!(summary.ends_with(" · Edited [start 16 len 4 Motorola]"));
    // Motorola 16|4 covers bits 16, 31, 30, 29; the last three overlap Throttle.
    assert_eq!(rows[2].1[7], BitCell { state: 2, signal_index: 1 });
    assert_eq!(rows[2].1[0], BitCell { state: 0, signal_index: -1 });
    assert_eq!(rows[3].1[0], BitCell { state: 3, signal_index: 1 });
    let (_, none_selected) = build_bit_map(&[], 0, 0, None);
    assert_eq!(none_selected, "DLC 0 · 0 bits · used 0 · free 0");
}
