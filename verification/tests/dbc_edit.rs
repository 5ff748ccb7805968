use sigma_diagnostics::args::{parse_dec_u8, HexError};
use sigma_diagnostics::dbc_edit::{
    apply_message_edits_values, apply_node_edits_values, endian_label, endian_storage, message_row,
    next_message_id, node_row, MessageFields, NodeFields,
};

#[test]
fn byte_order_labels_and_storage_agree() {
    assert_eq!(endian_label("big_endian"), "Motorola");
    assert_eq!(endian_label("motorola"), "Motorola");
    assert_eq!(endian_label("Motorola"), "Motorola");
    assert_eq!(endian_label("little_endian"), "Intel");
    assert_eq!(endian_label(""), "Intel");
    assert_eq!(endian_storage("Motorola"), "big_endian");
    assert_eq!(endian_storage("Intel"), "little_endian");
    assert_eq!(endian_storage("motorola"), "big_endian");
    for s in ["big_endian", "little_endian", "Motorola", "Intel", "x"] {
        assert_eq!(endian_label(endian_storage(s)), endian_label(s));
        assert_eq!(endian_storage(endian_label(s)), endian_storage(s));
    }
}

#[test]
fn new_messages_get_the_next_free_id() {
    assert_eq!(next_message_id(&[]), 256);
    assert_eq!(next_message_id(&[5]), 6);
    assert_eq!(next_message_id(&[0x100, 0x7FF, 0x200]), 0x800);
}

fn one_message() -> Vec<MessageFields> {
    vec![MessageFields {
        id: 0x100,
        is_extended: false,
        name: "Engine".to_string(),
        dlc: 8,
        sender: "ECU".to_string(),
    }]
}

#[test]
fn message_edits_read_id_and_dlc() {
    let mut msgs = one_message();
    apply_message_edits_values(&mut msgs, 0, "0x7E8", "Brake", "4", "GW");
    assert_eq!(msgs[0].id, 0x7E8);
    assert!(!msgs[0].is_extended);
    assert_eq!(msgs[0].name, "Brake");
    assert_eq!(msgs[0].dlc, 4);
    assert_eq!(msgs[0].sender, "GW");

    apply_message_edits_values(&mut msgs, 0, " 18DAF110 ", "Brake", "+5", "GW");
    assert_eq!(msgs[0].id, 0x18DA_F110);
    assert!(msgs[0].is_extended);
    assert_eq!(msgs[0].dlc, 5);

    // An unreadable ID keeps the old one; an unreadable DLC becomes 8.
    apply_message_edits_values(&mut msgs, 0, "zz", "X", "x", "");
    assert_eq!(msgs[0].id, 0x18DA_F110);
    assert!(msgs[0].is_extended);
    assert_eq!(msgs[0].dlc, 8);
    apply_message_edits_values(&mut msgs, 0, "0x7FF", "X", "300", "");
    assert_eq!(msgs[0].id, 0x7FF);
    assert!(!msgs[0].is_extended);
    assert_eq!(msgs[0].dlc, 8);
    assert_eq!(msgs[0].sender, "");
}

#[test]
fn message_edits_out_of_range_change_nothing() {
    let mut msgs = one_message();
    apply_message_edits_values(&mut msgs, 1, "0x7E8", "B", "4", "GW");
    apply_message_edits_values(&mut msgs, -1, "0x7E8", "B", "4", "GW");
    assert_eq!(msgs.len(), 1);
    assert_eq!(msgs[0].id, 0x100);
    assert_eq!(msgs[0].name, "Engine");
    assert_eq!(msgs[0].dlc, 8);
    assert_eq!(msgs[0].sender, "ECU");
}

#[test]
fn node_edits_drop_an_empty_comment() {
    let mut nodes = vec![NodeFields { name: "ECU".to_string(), comment: Some("old".to_string()) }];
    apply_node_edits_values(&mut nodes, 0, "GW", "");
    assert_eq!(nodes[0].name, "GW");
    assert_eq!(nodes[0].comment, None);
    apply_node_edits_values(&mut nodes, 0, "GW", "gateway");
    assert_eq!(nodes[0].comment, Some("gateway".to_string()));
    apply_node_edits_values(&mut nodes, 3, "X", "y");
    apply_node_edits_values(&mut nodes, -2, "X", "y");
    assert_eq!(nodes[0].name, "GW");
    assert_eq!(node_row(&nodes[0]), ("GW".to_string(), "gateway".to_string()));
    let bare = NodeFields { name: "N".to_string(), comment: None };
    assert_eq!(node_row(&bare), ("N".to_string(), String::new()));
}

#[test]
fn message_rows_show_hex_id_and_decimal_counts() {
    let m = MessageFields {
        id: 0x7E8,
        is_extended: false,
        name: "Resp".to_string(),
        dlc: 8,
        sender: "ECU".to_string(),
    };
    let r = message_row(&m, 12);
    assert_eq!(r.id, "0x7E8");
    assert_eq!(r.name, "Resp");
    assert_eq!(r.dlc, "8");
    assert_eq!(r.sender, "ECU");
    assert_eq!(r.signal_count, "12");
    let z = MessageFields { id: 0, is_extended: false, name: String::new(), dlc: 0, sender: String::new() };
    let r = message_row(&z, 0);
    assert_eq!(r.id, "0x0");
    assert_eq!(r.dlc, "0");
    assert_eq!(r.signal_count, "0");
}

#[test]
fn decimal_bytes_parse_like_str_parse() {
    assert_eq!(parse_dec_u8("255"), Ok(255));
    assert_eq!(parse_dec_u8("0"), Ok(0));
    assert_eq!(parse_dec_u8("+7"), Ok(7));
    assert_eq!(parse_dec_u8("007"), Ok(7));
    assert_eq!(parse_dec_u8("256"), Err(HexError::PosOverflow));
    assert_eq!(parse_dec_u8(""), Err(HexError::Empty));
    assert_eq!(parse_dec_u8("+"), Err(HexError::InvalidDigit));
    assert_eq!(parse_dec_u8("-1"), Err(HexError::InvalidDigit));
    assert_eq!(parse_dec_u8("1a"), Err(HexError::InvalidDigit));
    assert_eq!(parse_dec_u8(" 1"), Err(HexError::InvalidDigit));
    for (text, want) in [("8", 8u8), ("64", 64), ("200", 200)] {
        assert_eq!(text.parse::<u8>(), Ok(want));
        assert_eq!(parse_dec_u8(text), Ok(want));
    }
}
