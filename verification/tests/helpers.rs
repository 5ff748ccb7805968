use sigma_diagnostics::filter::{match_data_pattern, parse_data_pattern};
use sigma_diagnostics::capture::{kernel_filter_words, list_can_interfaces, CanBpfFilter};
use sigma_diagnostics::helpers::{format_can_id, format_data_hex, parse_can_ids, parse_hex_id};

#[test]
fn can_ids_render_with_fixed_width() {
    assert_eq!(format_can_id(0x7E8, false), "0x7E8");
    assert_eq!(format_can_id(0x12, false), "0x012");
    assert_eq!(format_can_id(0x18DAF110, true), "0x18DAF110");
    assert_eq!(format_can_id(0x1, true), "0x00000001");
    assert_eq!(format_can_id(0xABCD, false), "0xABCD");
}

#[test]
fn payloads_render_as_spaced_hex() {
    assert_eq!(format_data_hex(&[0x01, 0xAB, 0xFF]), "01 AB FF");
    assert_eq!(format_data_hex(&[]), "");
    assert_eq!(format_data_hex(&[0x0]), "00");
}

#[test]
fn hex_ids_parse_with_or_without_prefix() {
    assert_eq!(parse_hex_id("7E8"), Some(0x7E8));
    assert_eq!(parse_hex_id("  0x7e8\n"), Some(0x7E8));
    assert_eq!(parse_hex_id("0X1FFFFFFF"), Some(0x1FFFFFFF));
    assert_eq!(parse_hex_id("0x0x10"), Some(0x10));
    assert_eq!(parse_hex_id("+ff"), Some(0xFF));
    assert_eq!(parse_hex_id("FFFFFFFF"), Some(u32::MAX));
    assert_eq!(parse_hex_id("100000000"), None);
    assert_eq!(parse_hex_id("0x"), None);
    assert_eq!(parse_hex_id(""), None);
    assert_eq!(parse_hex_id("12G"), None);
}

#[test]
fn id_lists_split_on_commas_spaces_and_semicolons() {
    assert_eq!(parse_can_ids("100, 0x200;7E8 bogus,,"), vec![0x100, 0x200, 0x7E8]);
    assert!(parse_can_ids("").is_empty());
}

#[test]
fn can_interfaces_by_type_or_name_without_repeats() {
    let entries = vec![
        ("lo".to_string(), Some("772\n".to_string())),
        ("can0".to_string(), Some("280\n".to_string())),
        ("slcan0".to_string(), Some(" 280 ".to_string())),
        ("vcan1".to_string(), None),
        ("eth0".to_string(), Some("1\n".to_string())),
        ("can0".to_string(), Some("280\n".to_string())),
        ("cannot".to_string(), None),
    ];
    assert_eq!(
        list_can_interfaces(&entries),
        vec!["can0".to_string(), "slcan0".to_string(), "vcan1".to_string(), "cannot".to_string()]
    );
    assert!(list_can_interfaces(&[]).is_empty());
}

#[test]
fn payload_matches_the_pattern_of_its_own_text() {
    let data = [0x00u8, 0x0F, 0xA5, 0xFF, 0x10];
    let text = format_data_hex(&data);
    assert_eq!(text, "00 0F A5 FF 10");
    let pattern = parse_data_pattern(&text);
    assert_eq!(pattern, vec![Some(0x00), Some(0x0F), Some(0xA5), Some(0xFF), Some(0x10)]);
    assert!(match_data_pattern(&data, &pattern));
    assert!(!match_data_pattern(&[0x00, 0x0F, 0xA5, 0xFF, 0x11], &pattern));
}

#[test]
fn ids_read_back_in_every_rendering() {
    for id in [0u32, 0x7E8, 0x18DA_F110, u32::MAX] {
        assert_eq!(parse_hex_id(&format_can_id(id, id > 0x7FF)), Some(id));
        assert_eq!(parse_hex_id(&format!("{:X}", id)), Some(id));
        assert_eq!(parse_hex_id(&format!(" 0x{:x} ", id)), Some(id));
    }
}

#[test]
fn extended_filters_carry_the_eff_flag() {
    assert_filter_words(CanBpfFilter { can_id: 0x18DA_F110, mask: 0x1FFF_FFFF, is_extended: true, inverted: false }, (0x98DA_F110, 0x9FFF_FFFF));
    assert_filter_words(CanBpfFilter { can_id: 0x7E8, mask: 0x7FF, is_extended: false, inverted: true }, (0x7E8, 0x7FF));
}

fn assert_filter_words(f: CanBpfFilter, words: (u32, u32)) {
    assert_eq!(kernel_filter_words(&f), words);
}
