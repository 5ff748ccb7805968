//! Occupancy grid of a DBC message's signals for the editor: which bits are
//! free, used, selected, or in conflict (overlap or past the DLC), by byte.
use vstd::prelude::*;

use crate::bits::{endianness_of, signal_occupied_bits, spec_occupied_bits, Endianness};
use crate::text::{dec_str, push_dec, push_str, str_eq};

verus! {

/// A signal as the grid sees it.
#[derive(Debug)]
pub struct MapSignal {
    pub name: String,
    pub start_bit: u32,
    pub length: u32,
    /// DBC byte order: `big_endian` / `motorola` for Motorola, else Intel.
    pub byte_order: String,
}

/// One grid cell: state 0 free, 1 used, 2 selected, 3 conflict; the signal
/// shown for the bit, or -1.
#[derive(Debug, Clone, Copy, PartialEq, Eq, Structural)]
pub struct BitCell {
    pub state: i32,
    pub signal_index: i32,
}

/// Start and length of signal `i`: the live edit for the selected signal,
/// else the stored ones.
pub open spec fn placement(
    sigs: Seq<MapSignal>,
    i: int,
    selected: i32,
    live: Option<(u32, u32, Seq<char>)>,
) -> (u32, u32) {
    match live {
        Some(l) if selected == i => (l.0, l.1),
        _ => (sigs[i].start_bit, sigs[i].length),
    }
}

/// Bits of every signal, by signal.
pub open spec fn signal_lists(
    sigs: Seq<MapSignal>,
    selected: i32,
    live: Option<(u32, u32, Seq<char>)>,
) -> Seq<Seq<u32>> {
    Seq::new(
        sigs.len(),
        |i: int|
            spec_occupied_bits(
                placement(sigs, i, selected, live).0,
                placement(sigs, i, selected, live).1,
                endianness_of(sigs[i].byte_order@),
            ),
    )
}

/// Occurrences of bit `b` in a list.
pub open spec fn count_of(s: Seq<u32>, b: int) -> nat
    decreases s.len(),
{
    if s.len() == 0 {
        0
    } else {
        count_of(s.drop_last(), b) + if s.last() == b {
            1nat
        } else {
            0nat
        }
    }
}

/// Signals occupying bit `b` (with multiplicity).
pub open spec fn occupancy(lists: Seq<Seq<u32>>, b: int) -> nat
    decreases lists.len(),
{
    if lists.len() == 0 {
        0
    } else {
        occupancy(lists.drop_last(), b) + count_of(lists.last(), b)
    }
}

/// The first signal occupying bit `b`, or -1.
pub open spec fn first_owner(lists: Seq<Seq<u32>>, b: int) -> int
    decreases lists.len(),
{
    if lists.len() == 0 {
        -1
    } else {
        let f = first_owner(lists.drop_last(), b);
        if f >= 0 {
            f
        } else if count_of(lists.last(), b) > 0 {
            lists.len() - 1
        } else {
            -1
        }
    }
}

/// Bit `b` belongs to the selected signal.
pub open spec fn in_selected(lists: Seq<Seq<u32>>, selected: i32, b: int) -> bool {
    0 <= selected < lists.len() && count_of(lists[selected as int], b) > 0
}

/// The highest occupied bit plus one (0 when none).
pub open spec fn list_top(s: Seq<u32>) -> nat
    decreases s.len(),
{
    if s.len() == 0 {
        0
    } else if s.last() + 1 > list_top(s.drop_last()) {
        (s.last() + 1) as nat
    } else {
        list_top(s.drop_last())
    }
}

pub open spec fn top_bit(lists: Seq<Seq<u32>>) -> nat
    decreases lists.len(),
{
    if lists.len() == 0 {
        0
    } else if list_top(lists.last()) > top_bit(lists.drop_last()) {
        list_top(lists.last())
    } else {
        top_bit(lists.drop_last())
    }
}

/// Bytes shown: enough for every occupied bit, at least the DLC.
pub open spec fn display_bytes(lists: Seq<Seq<u32>>, dlc: u8) -> nat {
    let capacity = dlc * 8;
    let max_bit = if top_bit(lists) > capacity {
        top_bit(lists)
    } else {
        capacity as nat
    };
    let bytes = (max_bit + 7) / 8;
    if bytes > dlc {
        bytes as nat
    } else {
        dlc as nat
    }
}

/// The cell of bit `b`.
pub open spec fn cell(lists: Seq<Seq<u32>>, dlc: u8, selected: i32, b: int) -> BitCell {
    let past_dlc = b >= dlc * 8;
    let occ = occupancy(lists, b);
    let sel = in_selected(lists, selected, b);
    let state = if (past_dlc && occ > 0) || occ >= 2 {
        3i32
    } else if past_dlc {
        0i32
    } else if sel {
        2i32
    } else if occ > 0 {
        1i32
    } else {
        0i32
    };
    let signal_index = if sel {
        selected
    } else {
        first_owner(lists, b) as i32
    };
    BitCell { state, signal_index }
}

/// Bits in `lo .. hi` with at least `min` occupants.
pub open spec fn bits_with(lists: Seq<Seq<u32>>, lo: int, hi: int, min: nat) -> nat
    decreases hi - lo,
{
    if hi <= lo {
        0
    } else {
        bits_with(lists, lo, hi - 1, min) + if occupancy(lists, hi - 1) >= min {
            1nat
        } else {
            0nat
        }
    }
}

/// The label of a byte row.
pub open spec fn row_label(byte: nat, dlc: u8) -> Seq<char> {
    if byte < dlc {
        "Byte "@ + dec_str(byte)
    } else {
        "+"@ + dec_str(byte)
    }
}

/// The grid rows: one per byte, MSB first.
pub open spec fn grid_rows(lists: Seq<Seq<u32>>, dlc: u8, selected: i32) -> Seq<(Seq<char>, Seq<BitCell>)> {
    Seq::new(
        display_bytes(lists, dlc),
        |byte: int|
            (
                row_label(byte as nat, dlc),
                Seq::new(8, |col: int| cell(lists, dlc, selected, byte * 8 + (7 - col))),
            ),
    )
}

/// The bit range of the selected signal as the summary states it.
pub open spec fn range_text(start: u32, length: u32, motorola: bool) -> Seq<char> {
    if motorola {
        "start "@ + dec_str(start as nat) + " len "@ + dec_str(length as nat) + " Motorola"@
    } else {
        let last = if length >= 1 {
            length - 1
        } else {
            0
        };
        let end = if start + last > u32::MAX {
            u32::MAX as int
        } else {
            start + last
        };
        dec_str(start as nat) + "–"@ + dec_str(end as nat) + " Intel"@
    }
}

/// The name shown for the selected signal.
pub open spec fn selected_name(sigs: Seq<MapSignal>, selected: i32, live: Option<(u32, u32, Seq<char>)>) -> Seq<char> {
    if 0 <= selected < sigs.len() {
        match live {
            Some(l) => l.2,
            None => sigs[selected as int].name@,
        }
    } else {
        Seq::empty()
    }
}

/// The summary line.
pub open spec fn summary_text(
    sigs: Seq<MapSignal>,
    dlc: u8,
    selected: i32,
    live: Option<(u32, u32, Seq<char>)>,
) -> Seq<char> {
    let lists = signal_lists(sigs, selected, live);
    let capacity = dlc * 8;
    let bit_count = display_bytes(lists, dlc) * 8;
    let used = bits_with(lists, 0, capacity, 1);
    let overlap = bits_with(lists, 0, capacity, 2);
    let past = bits_with(lists, capacity, bit_count as int, 1);
    let name = selected_name(sigs, selected, live);
    "DLC "@ + dec_str(dlc as nat) + " · "@ + dec_str(capacity as nat) + " bits · used "@ + dec_str(used)
        + " · free "@ + dec_str((capacity - used) as nat) + (if overlap > 0 {
        " · overlap "@ + dec_str(overlap)
    } else {
        Seq::empty()
    }) + (if past > 0 {
        " · past DLC "@ + dec_str(past)
    } else {
        Seq::empty()
    }) + (if selected >= 0 && name.len() > 0 {
        " · "@ + name + " ["@ + range_text(
            placement(sigs, selected as int, selected, live).0,
            placement(sigs, selected as int, selected, live).1,
            endianness_of(sigs[selected as int].byte_order@) == Endianness::Motorola,
        ) + "]"@
    } else {
        Seq::empty()
    })
}

/// Every occupied bit leaves room for a byte of display above it.
pub open spec fn bits_fit(lists: Seq<Seq<u32>>) -> bool {
    top_bit(lists) + 16 <= usize::MAX
}

pub open spec fn live_view(live: Option<&(u32, u32, String)>) -> Option<(u32, u32, Seq<char>)> {
    match live {
        Some(t) => Some((t.0, t.1, t.2@)),
        None => None,
    }
}

pub open spec fn lists_view(lists: Seq<Vec<u32>>) -> Seq<Seq<u32>> {
    lists.map_values(|v: Vec<u32>| v@)
}

/// The bits of every signal, with the live edit applied to the selected one.
fn signal_bit_lists(signals: &[MapSignal], selected: i32, live: Option<&(u32, u32, String)>) -> (lists: Vec<Vec<u32>>)
    ensures
        lists_view(lists@) == signal_lists(signals@, selected, live_view(live)),
{
    let ghost want = signal_lists(signals@, selected, live_view(live));
    let mut lists: Vec<Vec<u32>> = Vec::new();
    let mut i: usize = 0;
    while i < signals.len()
        invariant
            want == signal_lists(signals@, selected, live_view(live)),
            i <= signals@.len(),
            lists_view(lists@) =~= want.take(i as int),
        decreases signals.len() - i,
    {
        let sig = &signals[i];
        let (start, length) = match live {
            Some(l) => if selected >= 0 && selected as usize == i {
                (l.0, l.1)
            } else {
                (sig.start_bit, sig.length)
            },
            None => (sig.start_bit, sig.length),
        };
        let bits = signal_occupied_bits(start, length, sig.byte_order.as_str());
        let ghost before = lists@;
        lists.push(bits);
        proof {
            assert(placement(signals@, i as int, selected, live_view(live)) == (start, length));
            assert(lists_view(lists@) =~= lists_view(before).push(bits@));
        }
        i = i + 1;
    }
    assert(want.take(signals@.len() as int) =~= want);
    lists
}

proof fn lemma_list_top_step(s: Seq<u32>, k: int)
    requires
        0 <= k < s.len(),
    ensures
        list_top(s.take(k + 1)) == if s[k] + 1 > list_top(s.take(k)) {
            (s[k] + 1) as nat
        } else {
            list_top(s.take(k))
        },
{
    assert(s.take(k + 1).drop_last() =~= s.take(k));
}

proof fn lemma_top_step(l: Seq<Seq<u32>>, i: int)
    requires
        0 <= i < l.len(),
    ensures
        top_bit(l.take(i + 1)) == if list_top(l[i]) > top_bit(l.take(i)) {
            list_top(l[i])
        } else {
            top_bit(l.take(i))
        },
{
    assert(l.take(i + 1).drop_last() =~= l.take(i));
}

proof fn lemma_list_top_bound(s: Seq<u32>)
    ensures
        list_top(s) <= u32::MAX + 1,
    decreases s.len(),
{
    if s.len() > 0 {
        lemma_list_top_bound(s.drop_last());
    }
}

/// The highest occupied bit plus one.
fn top_of(lists: &Vec<Vec<u32>>) -> (t: u64)
    ensures
        t == top_bit(lists_view(lists@)),
{
    let ghost l = lists_view(lists@);
    let mut t: u64 = 0;
    let mut i: usize = 0;
    while i < lists.len()
        invariant
            l == lists_view(lists@),
            i <= lists@.len(),
            t == top_bit(l.take(i as int)),
        decreases lists.len() - i,
    {
        let list = &lists[i];
        assert(list@ == l[i as int]);
        let mut m: u64 = 0;
        let mut k: usize = 0;
        while k < list.len()
            invariant
                k <= list@.len(),
                m == list_top(list@.take(k as int)),
            decreases list.len() - k,
        {
            proof {
                lemma_list_top_step(list@, k as int);
                lemma_list_top_bound(list@.take(k as int));
            }
            let b = list[k] as u64 + 1;
            if b > m {
                m = b;
            }
            k = k + 1;
        }
        assert(list@.take(list@.len() as int) =~= list@);
        proof {
            lemma_top_step(l, i as int);
        }
        if m > t {
            t = m;
        }
        i = i + 1;
    }
    assert(l.take(lists@.len() as int) =~= l);
    t
}

proof fn lemma_count_step(s: Seq<u32>, k: int, b: int)
    requires
        0 <= k < s.len(),
    ensures
        count_of(s.take(k + 1), b) == count_of(s.take(k), b) + if s[k] == b {
            1nat
        } else {
            0nat
        },
{
    assert(s.take(k + 1).drop_last() =~= s.take(k));
}

proof fn lemma_occupancy_step(l: Seq<Seq<u32>>, i: int, b: int)
    requires
        0 <= i < l.len(),
    ensures
        occupancy(l.take(i + 1), b) == occupancy(l.take(i), b) + count_of(l[i], b),
        first_owner(l.take(i + 1), b) == if first_owner(l.take(i), b) >= 0 {
            first_owner(l.take(i), b)
        } else if count_of(l[i], b) > 0 {
            i
        } else {
            -1
        },
{
    assert(l.take(i + 1).drop_last() =~= l.take(i));
}

proof fn lemma_first_owner_range(l: Seq<Seq<u32>>, b: int)
    ensures
        -1 <= first_owner(l, b) < l.len(),
    decreases l.len(),
{
    if l.len() > 0 {
        lemma_first_owner_range(l.drop_last(), b);
    }
}

/// Occurrences of `b` in a list, capped at 2.
fn count_capped(list: &Vec<u32>, b: u64) -> (c: u8)
    ensures
        c == if count_of(list@, b as int) >= 2 {
            2
        } else {
            count_of(list@, b as int)
        },
{
    let mut c: u8 = 0;
    let mut k: usize = 0;
    while k < list.len()
        invariant
            k <= list@.len(),
            c == if count_of(list@.take(k as int), b as int) >= 2 {
                2
            } else {
                count_of(list@.take(k as int), b as int)
            },
        decreases list.len() - k,
    {
        proof {
            lemma_count_step(list@, k as int, b as int);
        }
        if list[k] as u64 == b && c < 2 {
            c = c + 1;
        }
        k = k + 1;
    }
    assert(list@.take(list@.len() as int) =~= list@);
    c
}

/// The cell of bit `b`, with its occupancy capped at 2.
fn cell_at(lists: &Vec<Vec<u32>>, dlc: u8, selected: i32, b: u64) -> (r: (BitCell, u8))
    requires
        lists@.len() <= i32::MAX,
    ensures
        r.0 == cell(lists_view(lists@), dlc, selected, b as int),
        r.1 == if occupancy(lists_view(lists@), b as int) >= 2 {
            2
        } else {
            occupancy(lists_view(lists@), b as int)
        },
{
    let ghost l = lists_view(lists@);
    let mut occ: u8 = 0;
    let mut owner: i64 = -1;
    let mut i: usize = 0;
    while i < lists.len()
        invariant
            l == lists_view(lists@),
            lists@.len() <= i32::MAX,
            i <= lists@.len(),
            occ == if occupancy(l.take(i as int), b as int) >= 2 {
                2
            } else {
                occupancy(l.take(i as int), b as int)
            },
            owner == first_owner(l.take(i as int), b as int),
        decreases lists.len() - i,
    {
        let c = count_capped(&lists[i], b);
        proof {
            assert(lists@[i as int]@ == l[i as int]);
            lemma_occupancy_step(l, i as int, b as int);
        }
        let sum = occ + c;
        occ = if sum >= 2 {
            2
        } else {
            sum
        };
        if owner < 0 && c > 0 {
            owner = i as i64;
        }
        i = i + 1;
    }
    assert(l.take(lists@.len() as int) =~= l);
    proof {
        lemma_first_owner_range(l, b as int);
    }
    let sel = selected >= 0 && (selected as usize) < lists.len() && count_capped(&lists[selected as usize], b) > 0;
    proof {
        if selected >= 0 && (selected as usize) < lists.len() {
            assert(lists@[selected as int]@ == l[selected as int]);
        }
        assert(sel == in_selected(l, selected, b as int));
    }
    let past_dlc = b >= (dlc as u64) * 8;
    let state: i32 = if (past_dlc && occ > 0) || occ >= 2 {
        3
    } else if past_dlc {
        0
    } else if sel {
        2
    } else if occ > 0 {
        1
    } else {
        0
    };
    let signal_index: i32 = if sel {
        selected
    } else {
        owner as i32
    };
    (BitCell { state, signal_index }, occ)
}

pub open spec fn rows_view(rows: Seq<(String, Vec<BitCell>)>) -> Seq<(Seq<char>, Seq<BitCell>)> {
    rows.map_values(|r: (String, Vec<BitCell>)| (r.0@, r.1@))
}

proof fn lemma_bits_with_step(l: Seq<Seq<u32>>, lo: int, hi: int, min: nat)
    requires
        lo <= hi,
    ensures
        bits_with(l, lo, hi + 1, min) == bits_with(l, lo, hi, min) + if occupancy(l, hi) >= min {
            1nat
        } else {
            0nat
        },
{
}

proof fn lemma_bits_with_bound(l: Seq<Seq<u32>>, lo: int, hi: int, min: nat)
    requires
        lo <= hi,
    ensures
        bits_with(l, lo, hi, min) <= hi - lo,
    decreases hi - lo,
{
    if hi > lo {
        lemma_bits_with_bound(l, lo, hi - 1, min);
    }
}

/// Bits in `lo .. hi` whose capped occupancy reaches `min` (1 or 2).
fn count_bits(occs: &Vec<u8>, lo: usize, hi: usize, min: u8, Ghost(l): Ghost<Seq<Seq<u32>>>) -> (n: u64)
    requires
        lo <= hi <= occs@.len(),
        1 <= min <= 2,
        forall|b: int|
            0 <= b < occs@.len() ==> #[trigger] occs@[b] == if occupancy(l, b) >= 2 {
                2
            } else {
                occupancy(l, b)
            },
    ensures
        n == bits_with(l, lo as int, hi as int, min as nat),
{
    let mut n: u64 = 0;
    let mut b: usize = lo;
    while b < hi
        invariant
            lo <= b <= hi,
            hi <= occs@.len(),
            1 <= min <= 2,
            forall|c: int|
                0 <= c < occs@.len() ==> #[trigger] occs@[c] == if occupancy(l, c) >= 2 {
                    2
                } else {
                    occupancy(l, c)
                },
            n == bits_with(l, lo as int, b as int, min as nat),
        decreases hi - b,
    {
        proof {
            lemma_bits_with_step(l, lo as int, b as int, min as nat);
            lemma_bits_with_bound(l, lo as int, b as int, min as nat);
        }
        assert(occs@[b as int] == if occupancy(l, b as int) >= 2 {
            2
        } else {
            occupancy(l, b as int)
        });
        if occs[b] >= min {
            n = n + 1;
        }
        b = b + 1;
    }
    n
}

/// Occupancy grid using each signal's byte order (Intel vs Motorola), and
/// its summary line.
///
/// State per bit: 3 when occupied past the DLC or by two or more signals,
/// 0 when free or past the DLC, 2 when the selected signal occupies it,
/// else 1 when occupied. The shown signal is the selected one where it
/// occupies the bit, else the first occupant. The live edit (start, length,
/// name) replaces the selected signal's stored placement and name.
pub fn build_bit_map(
    signals: &[MapSignal],
    dlc: u8,
    selected_signal: i32,
    live_selected: Option<&(u32, u32, String)>,
) -> (r: (Vec<(String, Vec<BitCell>)>, String))
    requires
        signals@.len() <= i32::MAX,
        bits_fit(signal_lists(signals@, selected_signal, live_view(live_selected))),
    ensures
        rows_view(r.0@) == grid_rows(
            signal_lists(signals@, selected_signal, live_view(live_selected)),
            dlc,
            selected_signal,
        ),
        r.1@ == summary_text(signals@, dlc, selected_signal, live_view(live_selected)),
{
    let ghost lv = live_view(live_selected);
    let lists = signal_bit_lists(signals, selected_signal, live_selected);
    let ghost l = lists_view(lists@);
    let top = top_of(&lists);
    let capacity: u64 = dlc as u64 * 8;
    let max_bit: u64 = if top > capacity {
        top
    } else {
        capacity
    };
    let mut bytes: u64 = (max_bit + 7) / 8;
    if bytes < dlc as u64 {
        bytes = dlc as u64;
    }
    assert(bytes == display_bytes(l, dlc));
    let bit_count: u64 = bytes * 8;
    assert(bit_count <= usize::MAX);
    // Cells and capped occupancies of every displayed bit.
    let mut cells: Vec<BitCell> = Vec::new();
    let mut occs: Vec<u8> = Vec::new();
    let mut b: u64 = 0;
    while b < bit_count
        invariant
            l == lists_view(lists@),
            lists@.len() == signals@.len(),
            signals@.len() <= i32::MAX,
            bit_count <= usize::MAX,
            b <= bit_count,
            cells@.len() == b,
            occs@.len() == b,
            forall|c: int| 0 <= c < b ==> #[trigger] cells@[c] == cell(l, dlc, selected_signal, c),
            forall|c: int|
                0 <= c < b ==> #[trigger] occs@[c] == if occupancy(l, c) >= 2 {
                    2
                } else {
                    occupancy(l, c)
                },
        decreases bit_count - b,
    {
        let (c, o) = cell_at(&lists, dlc, selected_signal, b);
        cells.push(c);
        occs.push(o);
        b = b + 1;
    }
    let used = count_bits(&occs, 0, capacity as usize, 1, Ghost(l));
    let overlap = count_bits(&occs, 0, capacity as usize, 2, Ghost(l));
    let past = count_bits(&occs, capacity as usize, bit_count as usize, 1, Ghost(l));
    proof {
        lemma_bits_with_bound(l, 0, capacity as int, 1);
    }
    // Summary.
    let mut summary = String::new();
    push_str(&mut summary, "DLC ");
    push_dec(&mut summary, dlc as u64);
    push_str(&mut summary, " · ");
    push_dec(&mut summary, capacity);
    push_str(&mut summary, " bits · used ");
    push_dec(&mut summary, used);
    push_str(&mut summary, " · free ");
    push_dec(&mut summary, capacity - used);
    if overlap > 0 {
        push_str(&mut summary, " · overlap ");
        push_dec(&mut summary, overlap);
    }
    if past > 0 {
        push_str(&mut summary, " · past DLC ");
        push_dec(&mut summary, past);
    }
    push_selection(&mut summary, signals, selected_signal, live_selected);
    proof {
        assert(summary@ =~= summary_text(signals@, dlc, selected_signal, lv));
    }
    // Rows, MSB first within each byte.
    let ghost want = grid_rows(l, dlc, selected_signal);
    let mut rows: Vec<(String, Vec<BitCell>)> = Vec::new();
    let mut byte: u64 = 0;
    while byte < bytes
        invariant
            l == lists_view(lists@),
            want == grid_rows(l, dlc, selected_signal),
            bytes == display_bytes(l, dlc),
            bit_count == bytes * 8,
            bit_count <= usize::MAX,
            cells@.len() == bit_count,
            forall|c: int| 0 <= c < bit_count ==> #[trigger] cells@[c] == cell(l, dlc, selected_signal, c),
            byte <= bytes,
            rows_view(rows@) =~= want.take(byte as int),
        decreases bytes - byte,
    {
        let mut row: Vec<BitCell> = Vec::new();
        let mut col: u64 = 0;
        while col < 8
            invariant
                byte < bytes,
                bit_count == bytes * 8,
                bit_count <= usize::MAX,
                cells@.len() == bit_count,
                forall|c: int| 0 <= c < bit_count ==> #[trigger] cells@[c] == cell(l, dlc, selected_signal, c),
                col <= 8,
                row@ =~= Seq::new(col as nat, |k: int| cell(l, dlc, selected_signal, byte * 8 + (7 - k))),
            decreases 8 - col,
        {
            let linear = byte * 8 + (7 - col);
            row.push(cells[linear as usize]);
            col = col + 1;
        }
        let mut label = String::new();
        if byte < dlc as u64 {
            push_str(&mut label, "Byte ");
        } else {
            push_str(&mut label, "+");
        }
        push_dec(&mut label, byte);
        let ghost before = rows@;
        rows.push((label, row));
        proof {
            assert(label@ == row_label(byte as nat, dlc));
            assert(rows_view(rows@) =~= rows_view(before).push((label@, row@)));
        }
        byte = byte + 1;
    }
    (rows, summary)
}

/// Appends " · {name} [{range}]" for the selected signal, if it has a name.
fn push_selection(
    summary: &mut String,
    signals: &[MapSignal],
    selected: i32,
    live: Option<&(u32, u32, String)>,
)
    ensures
        final(summary)@ == old(summary)@ + ({
            let name = selected_name(signals@, selected, live_view(live));
            if selected >= 0 && name.len() > 0 {
                " · "@ + name + " ["@ + range_text(
                    placement(signals@, selected as int, selected, live_view(live)).0,
                    placement(signals@, selected as int, selected, live_view(live)).1,
                    endianness_of(signals@[selected as int].byte_order@) == Endianness::Motorola,
                ) + "]"@
            } else {
                Seq::empty()
            }
        }),
{
    let ghost o = summary@;
    if selected < 0 || selected as usize >= signals.len() {
        assert(summary@ =~= o + Seq::<char>::empty());
        return;
    }
    let sig = &signals[selected as usize];
    let (start, length, name) = match live {
        Some(l) => (l.0, l.1, l.2.as_str()),
        None => (sig.start_bit, sig.length, sig.name.as_str()),
    };
    if name.unicode_len() == 0 {
        assert(summary@ =~= o + Seq::<char>::empty());
        return;
    }
    let motorola = str_eq(sig.byte_order.as_str(), "big_endian") || str_eq(sig.byte_order.as_str(), "motorola");
    assert(motorola == (endianness_of(sig.byte_order@) == Endianness::Motorola));
    push_str(summary, " · ");
    push_str(summary, name);
    push_str(summary, " [");
    push_range(summary, start, length, motorola);
    push_str(summary, "]");
    assert(summary@ =~= o + (" · "@ + name@ + " ["@ + range_text(start, length, motorola) + "]"@));
}

/// Appends the selected signal's bit range.
fn push_range(summary: &mut String, start: u32, length: u32, motorola: bool)
    ensures
        final(summary)@ == old(summary)@ + range_text(start, length, motorola),
{
    let ghost o = summary@;
    if motorola {
        push_str(summary, "start ");
        push_dec(summary, start as u64);
        push_str(summary, " len ");
        push_dec(summary, length as u64);
        push_str(summary, " Motorola");
    } else {
        let last = if length >= 1 {
            length - 1
        } else {
            0
        };
        let end: u32 = if start as u64 + last as u64 > u32::MAX as u64 {
            u32::MAX
        } else {
            start + last
        };
        push_dec(summary, start as u64);
        push_str(summary, "–");
        push_dec(summary, end as u64);
        push_str(summary, " Intel");
    }
    assert(summary@ =~= o + range_text(start, length, motorola));
}

} // verus!
