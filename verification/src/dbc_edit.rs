//! Small rules of the DBC editor: byte-order labels and storage names, the
//! ID a new message gets, applying edited message and node fields, and the
//! rows the message and node lists show.
use vstd::prelude::*;

use crate::args::{parse_dec_u8, radix10, HexError};
use crate::helpers::{hex_id, parse_hex_id};
use crate::text::{dec_str, hex_str, push_dec, push_hex, push_str, str_eq};

verus! {

/// A stored or displayed byte order that means Motorola.
pub open spec fn names_motorola(s: Seq<char>) -> bool {
    s == "big_endian"@ || s == "motorola"@ || s == "Motorola"@
}

/// The label shown for a stored byte order.
pub open spec fn endian_label_of(byte_order: Seq<char>) -> Seq<char> {
    if names_motorola(byte_order) {
        "Motorola"@
    } else {
        "Intel"@
    }
}

/// The stored byte order for a label.
pub open spec fn endian_storage_of(label: Seq<char>) -> Seq<char> {
    if names_motorola(label) {
        "big_endian"@
    } else {
        "little_endian"@
    }
}

fn is_motorola_name(s: &str) -> (r: bool)
    ensures
        r == names_motorola(s@),
{
    str_eq(s, "big_endian") || str_eq(s, "motorola") || str_eq(s, "Motorola")
}

/// The label shown for a stored byte order: `Motorola` or `Intel`.
pub fn endian_label(byte_order: &str) -> (r: &'static str)
    ensures
        r@ == endian_label_of(byte_order@),
{
    if is_motorola_name(byte_order) {
        "Motorola"
    } else {
        "Intel"
    }
}

/// The stored byte order for a label: `big_endian` or `little_endian`.
pub fn endian_storage(label: &str) -> (r: &'static str)
    ensures
        r@ == endian_storage_of(label@),
{
    if is_motorola_name(label) {
        "big_endian"
    } else {
        "little_endian"
    }
}

/// Storing a byte order through its label keeps its meaning, and so does
/// showing a stored label: the two conversions agree on what is Motorola.
pub proof fn lemma_endian_label_storage(s: Seq<char>)
    ensures
        endian_label_of(endian_storage_of(s)) == endian_label_of(s),
        endian_storage_of(endian_label_of(s)) == endian_storage_of(s),
{
    reveal_strlit("big_endian");
    reveal_strlit("little_endian");
    reveal_strlit("motorola");
    reveal_strlit("Motorola");
    reveal_strlit("Intel");
    assert("little_endian"@.len() == 13 && "big_endian"@.len() == 10 && "motorola"@.len() == 8);
    assert("little_endian"@ != "big_endian"@);
    assert("little_endian"@ != "motorola"@);
    assert("little_endian"@ != "Motorola"@);
    assert("Intel"@.len() == 5 && "Motorola"@.len() == 8);
    assert("Intel"@ != "big_endian"@);
    assert("Intel"@ != "motorola"@);
    assert("Intel"@ != "Motorola"@);
}

/// The largest of the IDs.
pub open spec fn max_id(ids: Seq<u32>) -> u32
    decreases ids.len(),
{
    if ids.len() == 0 {
        0
    } else {
        let m = max_id(ids.drop_last());
        if ids.len() == 1 || ids.last() > m {
            ids.last()
        } else {
            m
        }
    }
}

/// The ID of a new message: one past the largest existing ID, or 256 in an
/// empty database.
pub fn next_message_id(ids: &[u32]) -> (r: u32)
    requires
        ids@.len() == 0 || max_id(ids@) < u32::MAX,
    ensures
        r == (if ids@.len() == 0 {
            256
        } else {
            max_id(ids@) + 1
        }),
{
    if ids.len() == 0 {
        return 256;
    }
    let mut m: u32 = ids[0];
    let mut i: usize = 1;
    assert(ids@.take(1).drop_last() =~= Seq::<u32>::empty());
    while i < ids.len()
        invariant
            1 <= i <= ids@.len(),
            m == max_id(ids@.take(i as int)),
        decreases ids.len() - i,
    {
        assert(ids@.take(i + 1).drop_last() =~= ids@.take(i as int));
        if ids[i] > m {
            m = ids[i];
        }
        i = i + 1;
    }
    assert(ids@.take(ids@.len() as int) =~= ids@);
    m + 1
}

/// The fields of a DBC message that the editor changes.
#[derive(Debug)]
pub struct MessageFields {
    pub id: u32,
    pub is_extended: bool,
    pub name: String,
    pub dlc: u8,
    pub sender: String,
}

/// A DBC node as the editor changes it.
#[derive(Debug)]
pub struct NodeFields {
    pub name: String,
    pub comment: Option<String>,
}

pub struct MessageFieldsView {
    pub id: u32,
    pub is_extended: bool,
    pub name: Seq<char>,
    pub dlc: u8,
    pub sender: Seq<char>,
}

impl View for MessageFields {
    type V = MessageFieldsView;

    open spec fn view(&self) -> MessageFieldsView {
        MessageFieldsView {
            id: self.id,
            is_extended: self.is_extended,
            name: self.name@,
            dlc: self.dlc,
            sender: self.sender@,
        }
    }
}

pub open spec fn comment_view(c: Option<String>) -> Option<Seq<char>> {
    match c {
        Some(s) => Some(s@),
        None => None,
    }
}

impl View for NodeFields {
    type V = (Seq<char>, Option<Seq<char>>);

    open spec fn view(&self) -> (Seq<char>, Option<Seq<char>>) {
        (self.name@, comment_view(self.comment))
    }
}

/// A message after an edit: the ID when the text is a hex ID (extended
/// above 0x7FF), else unchanged; name and sender as typed; the DLC as typed
/// in decimal, else 8.
pub open spec fn edited_message(
    m: MessageFieldsView,
    id_text: Seq<char>,
    name: Seq<char>,
    dlc: Seq<char>,
    sender: Seq<char>,
) -> MessageFieldsView {
    MessageFieldsView {
        id: match hex_id(id_text) {
            Some(i) => i,
            None => m.id,
        },
        is_extended: match hex_id(id_text) {
            Some(i) => i > 0x7FF,
            None => m.is_extended,
        },
        name,
        dlc: match radix10(dlc, 255) {
            Ok(v) => v as u8,
            Err(_) => 8,
        },
        sender,
    }
}

/// A node after an edit: the name as typed; no comment when the typed
/// comment is empty.
pub open spec fn edited_node(name: Seq<char>, comment: Seq<char>) -> (Seq<char>, Option<Seq<char>>) {
    (
        name,
        if comment.len() == 0 {
            None
        } else {
            Some(comment)
        },
    )
}

fn owned(t: &str) -> (s: String)
    ensures
        s@ == t@,
{
    let mut s = String::new();
    push_str(&mut s, t);
    s
}

/// Apply edited message fields to message `idx` (nothing when there is no
/// such message).
pub fn apply_message_edits_values(
    messages: &mut Vec<MessageFields>,
    idx: i32,
    id_text: &str,
    name: &str,
    dlc: &str,
    sender: &str,
)
    ensures
        final(messages)@.map_values(|m: MessageFields| m@) == if 0 <= idx < old(messages)@.len() {
            old(messages)@.map_values(|m: MessageFields| m@).update(
                idx as int,
                edited_message(old(messages)@[idx as int]@, id_text@, name@, dlc@, sender@),
            )
        } else {
            old(messages)@.map_values(|m: MessageFields| m@)
        },
{
    if idx < 0 || idx as usize >= messages.len() {
        return;
    }
    let i = idx as usize;
    let (id, is_extended) = match parse_hex_id(id_text) {
        Some(v) => (v, v > 0x7FF),
        None => (messages[i].id, messages[i].is_extended),
    };
    let d: u8 = match parse_dec_u8(dlc) {
        Ok(v) => v,
        Err(_) => 8,
    };
    let ghost before = messages@;
    let m = MessageFields { id, is_extended, name: owned(name), dlc: d, sender: owned(sender) };
    assert(m@ == edited_message(before[i as int]@, id_text@, name@, dlc@, sender@));
    messages.set(i, m);
    assert(messages@.map_values(|m: MessageFields| m@) =~= before.map_values(|m: MessageFields| m@).update(
        i as int,
        edited_message(before[i as int]@, id_text@, name@, dlc@, sender@),
    ));
}

/// Apply edited node fields to node `idx` (nothing when there is no such
/// node).
pub fn apply_node_edits_values(nodes: &mut Vec<NodeFields>, idx: i32, name: &str, comment: &str)
    ensures
        final(nodes)@.map_values(|n: NodeFields| n@) == if 0 <= idx < old(nodes)@.len() {
            old(nodes)@.map_values(|n: NodeFields| n@).update(idx as int, edited_node(name@, comment@))
        } else {
            old(nodes)@.map_values(|n: NodeFields| n@)
        },
{
    if idx < 0 || idx as usize >= nodes.len() {
        return;
    }
    let i = idx as usize;
    let c = if comment.unicode_len() == 0 {
        None
    } else {
        Some(owned(comment))
    };
    let ghost before = nodes@;
    let n = NodeFields { name: owned(name), comment: c };
    assert(n@ == edited_node(name@, comment@));
    nodes.set(i, n);
    assert(nodes@.map_values(|n: NodeFields| n@) =~= before.map_values(|n: NodeFields| n@).update(
        i as int,
        edited_node(name@, comment@),
    ));
}

/// One row of the message list.
#[derive(Debug)]
pub struct MessageRow {
    pub id: String,
    pub name: String,
    pub dlc: String,
    pub sender: String,
    pub signal_count: String,
}

/// The message-list row of a message with `signal_count` signals: the ID as
/// `0x` and upper-case hex, the DLC and the count in decimal.
pub fn message_row(m: &MessageFields, signal_count: usize) -> (r: MessageRow)
    ensures
        r.id@ == "0x"@ + hex_str(m.id as nat),
        r.name@ == m.name@,
        r.dlc@ == dec_str(m.dlc as nat),
        r.sender@ == m.sender@,
        r.signal_count@ == dec_str(signal_count as nat),
{
    let mut id = String::new();
    push_str(&mut id, "0x");
    push_hex(&mut id, m.id as u64, 0);
    assert(crate::text::hex_padded(m.id as nat, 0) == hex_str(m.id as nat));
    let mut dlc = String::new();
    push_dec(&mut dlc, m.dlc as u64);
    let mut count = String::new();
    push_dec(&mut count, signal_count as u64);
    MessageRow {
        id,
        name: owned(m.name.as_str()),
        dlc,
        sender: owned(m.sender.as_str()),
        signal_count: count,
    }
}

/// The node-list row of a node: its name and its comment (empty when it has
/// none).
pub fn node_row(n: &NodeFields) -> (r: (String, String))
    ensures
        r.0@ == n.name@,
        r.1@ == match n.comment {
            Some(c) => c@,
            None => Seq::<char>::empty(),
        },
{
    let comment = match &n.comment {
        Some(c) => owned(c.as_str()),
        None => String::new(),
    };
    (owned(n.name.as_str()), comment)
}

} // verus!
