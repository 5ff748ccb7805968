//! Multiplexor facts.
//!
//! Reports the factual observation only: "conditioned on this byte/nibble,
//! the sets of toggling bits differ between partitions". Whether that makes
//! the field a mux selector semantically is left to the reader — but a
//! candidate is only flagged when every counted partition has enough frames
//! and at least two partitions disagree on layout.
use vstd::prelude::*;

use crate::activity::covers;
use crate::bits::{bit_value, extract_raw, lemma_extract_range, spec_extract_raw, Endianness, FieldSpec};
use crate::frame::lemma_strictly_sorted_unique;

verus! {

/// Conditional bit activity for one selector value.
#[derive(Debug)]
pub struct MuxVariant {
    pub selector_value: u64,
    pub frames: u64,
    /// Bits that toggle *within* frames carrying this selector value.
    pub toggling_bits: Vec<u32>,
}

/// Partition analysis for one candidate selector field.
#[derive(Debug)]
pub struct MuxFacts {
    pub selector: FieldSpec,
    pub distinct_values: u64,
    /// Only variants with at least `min_frames_per_variant` frames are listed.
    pub variants: Vec<MuxVariant>,
    /// True iff at least two listed variants have different toggling-bit sets.
    pub variant_layouts_differ: bool,
}

pub struct MuxVariantView {
    pub selector_value: u64,
    pub frames: u64,
    pub toggling_bits: Seq<u32>,
}

pub struct MuxFactsView {
    pub selector: FieldSpec,
    pub distinct_values: u64,
    pub variants: Seq<MuxVariantView>,
    pub variant_layouts_differ: bool,
}

impl View for MuxVariant {
    type V = MuxVariantView;

    open spec fn view(&self) -> MuxVariantView {
        MuxVariantView {
            selector_value: self.selector_value,
            frames: self.frames,
            toggling_bits: self.toggling_bits@,
        }
    }
}

impl View for MuxFacts {
    type V = MuxFactsView;

    open spec fn view(&self) -> MuxFactsView {
        MuxFactsView {
            selector: self.selector,
            distinct_values: self.distinct_values,
            variants: self.variants@.map_values(|v: MuxVariant| v@),
            variant_layouts_differ: self.variant_layouts_differ,
        }
    }
}

/// An unsigned Intel selector candidate.
pub open spec fn selector_at(start: int, length: u32) -> FieldSpec {
    FieldSpec { start_bit: start as u32, length, endianness: Endianness::Intel, signed: false }
}

/// Byte-aligned candidates over `0 .. bit_limit`, then nibble-aligned ones.
pub open spec fn candidates(bit_limit: u32) -> Seq<FieldSpec> {
    Seq::new(((bit_limit + 7) / 8) as nat, |i: int| selector_at(8 * i, 8)) + Seq::new(
        ((bit_limit + 3) / 4) as nat,
        |i: int| selector_at(4 * i, 4),
    )
}

/// Bit `b` belongs to the selector field.
pub open spec fn in_selector(sel: FieldSpec, b: int) -> bool {
    sel.start_bit <= b < sel.start_bit + sel.length
}

/// Some selector bit is marked as toggling.
pub open spec fn selector_toggles(sel: FieldSpec, mask: Seq<bool>) -> bool {
    exists|b: int| in_selector(sel, b) && 0 <= b < mask.len() && #[trigger] mask[b]
}

/// The payload carries selector value `v`.
pub open spec fn has_value(sel: FieldSpec, v: u64) -> spec_fn(Seq<u8>) -> bool {
    |p: Seq<u8>| spec_extract_raw(p, sel) == Some(v as int)
}

/// Payloads carrying selector value `v`, in order.
pub open spec fn partition(ps: Seq<Seq<u8>>, sel: FieldSpec, v: u64) -> Seq<Seq<u8>> {
    ps.filter(has_value(sel, v))
}

/// Some payload carries selector value `v`.
pub open spec fn value_seen(ps: Seq<Seq<u8>>, sel: FieldSpec, v: u64) -> bool {
    exists|k: int| 0 <= k < ps.len() && spec_extract_raw(#[trigger] ps[k], sel) == Some(v as int)
}

pub open spec fn ascending(s: Seq<u64>) -> bool {
    forall|a: int, b: int| 0 <= a < b < s.len() ==> #[trigger] s[a] < #[trigger] s[b]
}

/// The distinct selector values carried by the payloads, ascending.
pub open spec fn selector_values(ps: Seq<Seq<u8>>, sel: FieldSpec) -> Seq<u64> {
    choose|s: Seq<u64>| ascending(s) && forall|v: u64| #[trigger] s.contains(v) <==> value_seen(ps, sel, v)
}

/// Bit `b` is outside the selector, covered by the first frame, and differs
/// from the first frame's value in some covering frame.
pub open spec fn toggles_in(frames: Seq<Seq<u8>>, sel: FieldSpec, b: u32) -> bool {
    &&& !in_selector(sel, b as int)
    &&& frames.len() > 0
    &&& covers(frames[0], b)
    &&& exists|k: int|
        0 <= k < frames.len() && covers(#[trigger] frames[k], b) && bit_value(frames[k], b)
            != bit_value(frames[0], b)
}

pub open spec fn toggle_pred(frames: Seq<Seq<u8>>, sel: FieldSpec) -> spec_fn(u32) -> bool {
    |b: u32| toggles_in(frames, sel, b)
}

/// Bit numbers `0 .. n`.
pub open spec fn bit_numbers(n: u32) -> Seq<u32> {
    Seq::new(n as nat, |b: int| b as u32)
}

/// Bits below `bit_limit` that toggle within the frames, ascending.
pub open spec fn toggling_bits(frames: Seq<Seq<u8>>, bit_limit: u32, sel: FieldSpec) -> Seq<u32> {
    bit_numbers(bit_limit).filter(toggle_pred(frames, sel))
}

/// The variant of selector value `v`, when it has enough frames.
pub open spec fn variant_pick(
    ps: Seq<Seq<u8>>,
    sel: FieldSpec,
    bit_limit: u32,
    min_frames: u64,
) -> spec_fn(u64) -> Option<MuxVariantView> {
    |v: u64|
        {
            let part = partition(ps, sel, v);
            if part.len() >= min_frames {
                Some(
                    MuxVariantView {
                        selector_value: v,
                        frames: part.len() as u64,
                        toggling_bits: toggling_bits(part, bit_limit, sel),
                    },
                )
            } else {
                None
            }
        }
}

/// Counted variants, by ascending selector value.
pub open spec fn spec_variants(
    ps: Seq<Seq<u8>>,
    sel: FieldSpec,
    bit_limit: u32,
    min_frames: u64,
) -> Seq<MuxVariantView> {
    selector_values(ps, sel).filter_map(variant_pick(ps, sel, bit_limit, min_frames))
}

/// Two neighbouring variants have different toggling bits.
pub open spec fn layouts_differ(vs: Seq<MuxVariantView>) -> bool {
    exists|i: int| 1 <= i < vs.len() && #[trigger] vs[i].toggling_bits != vs[i - 1].toggling_bits
}

/// The facts of selector `sel`, when they show a layout difference.
pub open spec fn facts_pick(
    ps: Seq<Seq<u8>>,
    mask: Seq<bool>,
    bit_limit: u32,
    min_frames: u64,
    max_values: usize,
) -> spec_fn(FieldSpec) -> Option<MuxFactsView> {
    |sel: FieldSpec|
        {
            let vals = selector_values(ps, sel);
            let vs = spec_variants(ps, sel, bit_limit, min_frames);
            if sel.start_bit + sel.length <= bit_limit && selector_toggles(sel, mask) && 2
                <= vals.len() <= max_values && vs.len() >= 2 && layouts_differ(vs) {
                Some(
                    MuxFactsView {
                        selector: sel,
                        distinct_values: vals.len() as u64,
                        variants: vs,
                        variant_layouts_differ: true,
                    },
                )
            } else {
                None
            }
        }
}

/// All reported selector candidates, in candidate order.
pub open spec fn spec_mux_facts(
    ps: Seq<Seq<u8>>,
    mask: Seq<bool>,
    bit_limit: u32,
    min_frames: u64,
    max_values: usize,
) -> Seq<MuxFactsView> {
    candidates(bit_limit).filter_map(facts_pick(ps, mask, bit_limit, min_frames, max_values))
}

pub(crate) proof fn lemma_filter_take_succ<A>(s: Seq<A>, pred: spec_fn(A) -> bool, k: int)
    requires
        0 <= k < s.len(),
    ensures
        s.take(k + 1).filter(pred) == if pred(s[k]) {
            s.take(k).filter(pred).push(s[k])
        } else {
            s.take(k).filter(pred)
        },
{
    reveal(Seq::filter);
    assert(s.take(k + 1).drop_last() =~= s.take(k));
}

/// The selector candidates of `candidates`.
fn candidate_list(bit_limit: u32) -> (c: Vec<FieldSpec>)
    ensures
        c@ == candidates(bit_limit),
{
    let mut c: Vec<FieldSpec> = Vec::new();
    let mut start: u64 = 0;
    let ghost bytes = Seq::new(((bit_limit + 7) / 8) as nat, |i: int| selector_at(8 * i, 8));
    let ghost nibbles = Seq::new(((bit_limit + 3) / 4) as nat, |i: int| selector_at(4 * i, 4));
    while start < bit_limit as u64
        invariant
            start % 8 == 0,
            start <= bit_limit + 7,
            bytes == Seq::new(((bit_limit + 7) / 8) as nat, |i: int| selector_at(8 * i, 8)),
            c@ =~= bytes.take(start as int / 8),
        decreases bit_limit as u64 + 8 - start,
    {
        c.push(FieldSpec { start_bit: start as u32, length: 8, endianness: Endianness::Intel, signed: false });
        start = start + 8;
    }
    assert(start as int / 8 == bytes.len());
    assert(c@ =~= bytes);
    start = 0;
    while start < bit_limit as u64
        invariant
            start % 4 == 0,
            start <= bit_limit + 3,
            bytes == Seq::new(((bit_limit + 7) / 8) as nat, |i: int| selector_at(8 * i, 8)),
            nibbles == Seq::new(((bit_limit + 3) / 4) as nat, |i: int| selector_at(4 * i, 4)),
            c@ =~= bytes + nibbles.take(start as int / 4),
        decreases bit_limit as u64 + 8 - start,
    {
        c.push(FieldSpec { start_bit: start as u32, length: 4, endianness: Endianness::Intel, signed: false });
        start = start + 4;
    }
    assert(start as int / 4 == nibbles.len());
    assert(nibbles.take(nibbles.len() as int) =~= nibbles);
    c
}

/// Bit `b` of payload `p`, if the payload covers it.
fn bit_of(p: &[u8], b: u32) -> (r: Option<u8>)
    ensures
        r == if covers(p@, b) {
            Some(bit_value(p@, b) as u8)
        } else {
            None
        },
{
    let byte = (b / 8) as usize;
    if byte >= p.len() {
        return None;
    }
    let x = p[byte];
    let sh = (b % 8) as u8;
    let v = (x >> sh) & 1u8;
    assert(v <= 1u8) by (bit_vector)
        requires
            v == (x >> sh) & 1u8,
    ;
    Some(v)
}

/// Bits below `bit_limit`, outside the selector, that toggle within `frames`.
fn toggling_bits_excluding(frames: &Vec<&[u8]>, bit_limit: u32, sel: &FieldSpec) -> (t: Vec<u32>)
    requires
        frames@.len() > 0,
    ensures
        t@ == toggling_bits(frames@.map_values(|p: &[u8]| p@), bit_limit, *sel),
{
    let ghost fv = frames@.map_values(|p: &[u8]| p@);
    let ghost pred = toggle_pred(fv, *sel);
    let ghost bn = bit_numbers(bit_limit);
    let first = frames[0];
    let mut t: Vec<u32> = Vec::new();
    let mut b: u32 = 0;
    while b < bit_limit
        invariant
            fv == frames@.map_values(|p: &[u8]| p@),
            pred == toggle_pred(fv, *sel),
            bn == bit_numbers(bit_limit),
            frames@.len() > 0,
            first@ == fv[0],
            b <= bit_limit,
            t@ == bn.take(b as int).filter(pred),
        decreases bit_limit - b,
    {
        proof {
            lemma_filter_take_succ(bn, pred, b as int);
            assert(bn[b as int] == b);
        }
        let excluded = (sel.start_bit as u64) <= (b as u64) && (b as u64) < (sel.start_bit as u64)
            + (sel.length as u64);
        let mut keep = false;
        if !excluded {
            match bit_of(first, b) {
                None => {},
                Some(reference) => {
                    let mut k: usize = 0;
                    while k < frames.len() && !keep
                        invariant
                            fv == frames@.map_values(|p: &[u8]| p@),
                            first@ == fv[0],
                            covers(fv[0], b),
                            reference == bit_value(fv[0], b),
                            k <= frames@.len(),
                            keep ==> exists|j: int|
                                0 <= j < fv.len() && covers(#[trigger] fv[j], b) && bit_value(fv[j], b)
                                    != bit_value(fv[0], b),
                            !keep ==> forall|j: int|
                                0 <= j < k ==> !(covers(#[trigger] fv[j], b) && bit_value(fv[j], b)
                                    != bit_value(fv[0], b)),
                        decreases frames.len() - k,
                    {
                        match bit_of(frames[k], b) {
                            Some(v) => {
                                if v != reference {
                                    assert(covers(fv[k as int], b));
                                    keep = true;
                                }
                            },
                            None => {},
                        }
                        k = k + 1;
                    }
                    proof {
                        if !keep {
                            assert(!toggles_in(fv, *sel, b));
                        }
                    }
                },
            }
        }
        assert(keep == pred(b));
        if keep {
            t.push(b);
        }
        b = b + 1;
    }
    assert(bn.take(bit_limit as int) =~= bn);
    t
}

/// The payloads that carry one selector value.
struct Partition<'a> {
    value: u64,
    payloads: Vec<&'a [u8]>,
}

/// `parts` partitions the first `k` payloads by selector value, ascending.
spec fn partitioned(ps: Seq<Seq<u8>>, sel: FieldSpec, parts: Seq<Partition>, k: int) -> bool {
    &&& 0 <= k <= ps.len()
    &&& forall|a: int, b: int|
        0 <= a < b < parts.len() ==> (#[trigger] parts[a]).value < (#[trigger] parts[b]).value
    &&& forall|v: u64|
        (exists|j: int| 0 <= j < parts.len() && (#[trigger] parts[j]).value == v) <==> value_seen(
            ps.take(k),
            sel,
            v,
        )
    &&& forall|j: int|
        0 <= j < parts.len() ==> (#[trigger] parts[j]).payloads@.map_values(|p: &[u8]| p@)
            == partition(ps.take(k), sel, parts[j].value) && parts[j].payloads@.len() > 0
}

spec fn part_values(parts: Seq<Partition>) -> Seq<u64> {
    parts.map_values(|q: Partition| q.value)
}

/// Partition the payloads by the value of an unsigned selector.
fn partition_payloads<'a>(payloads: &[&'a [u8]], sel: &FieldSpec) -> (parts: Vec<Partition<'a>>)
    requires
        !sel.signed,
    ensures
        partitioned(payloads@.map_values(|p: &[u8]| p@), *sel, parts@, payloads@.len() as int),
        part_values(parts@) == selector_values(payloads@.map_values(|p: &[u8]| p@), *sel),
{
    let ghost pv = payloads@.map_values(|p: &[u8]| p@);
    let mut parts: Vec<Partition<'a>> = Vec::new();
    let mut k: usize = 0;
    while k < payloads.len()
        invariant
            pv == payloads@.map_values(|p: &[u8]| p@),
            !sel.signed,
            k <= payloads@.len(),
            partitioned(pv, *sel, parts@, k as int),
        decreases payloads.len() - k,
    {
        let p = payloads[k];
        let ghost old_parts = parts@;
        let ghost cur = pv.take(k as int);
        let ghost nxt = pv.take(k + 1);
        proof {
            assert(nxt.drop_last() =~= cur);
            assert(nxt[k as int] == p@);
            assert forall|q: int| 0 <= q < k implies nxt[q] == #[trigger] cur[q] by {}
        }
        match extract_raw(p, sel) {
            None => {
                proof {
                    assert forall|j: int| 0 <= j < parts@.len() implies (#[trigger] parts@[j]).payloads@.map_values(
                        |x: &[u8]| x@,
                    ) == partition(nxt, *sel, parts@[j].value) by {
                        lemma_filter_take_succ(pv, has_value(*sel, parts@[j].value), k as int);
                    }
                    assert forall|v: u64| value_seen(nxt, *sel, v) implies value_seen(
                        cur,
                        *sel,
                        v,
                    ) by {
                        let q = choose|q: int|
                            0 <= q < k + 1 && spec_extract_raw(#[trigger] nxt[q], *sel)
                                == Some(v as int);
                        assert(q != k);
                        assert(cur[q] == nxt[q]);
                    }
                    assert forall|v: u64| value_seen(cur, *sel, v) implies value_seen(
                        nxt,
                        *sel,
                        v,
                    ) by {
                        let q = choose|q: int|
                            0 <= q < k && spec_extract_raw(#[trigger] cur[q], *sel)
                                == Some(v as int);
                        assert(cur[q] == nxt[q]);
                    }
                }
            },
            Some(x) => {
                proof {
                    lemma_extract_range(p@, *sel);
                }
                let val = x as u64;
                assert(spec_extract_raw(p@, *sel) == Some(val as int));
                let mut pos: usize = 0;
                while pos < parts.len() && parts[pos].value < val
                    invariant
                        pos <= parts@.len(),
                        forall|j: int| 0 <= j < pos ==> (#[trigger] parts@[j]).value < val,
                    decreases parts.len() - pos,
                {
                    pos = pos + 1;
                }
                if pos < parts.len() && parts[pos].value == val {
                    let mut list: Vec<&'a [u8]> = Vec::new();
                    std::mem::swap(&mut list, &mut parts[pos].payloads);
                    let ghost before_list = list@;
                    list.push(p);
                    parts[pos].payloads = list;
                    proof {
                        assert forall|j: int| 0 <= j < parts@.len() implies (#[trigger] parts@[j]).payloads@.map_values(
                            |y: &[u8]| y@,
                        ) == partition(nxt, *sel, parts@[j].value) && parts@[j].payloads@.len() > 0 by {
                            lemma_filter_take_succ(pv, has_value(*sel, parts@[j].value), k as int);
                            if j == pos {
                                assert(parts@[j].payloads@.map_values(|y: &[u8]| y@) =~= before_list.map_values(
                                    |y: &[u8]| y@,
                                ).push(p@));
                            } else {
                                assert(parts@[j] == old_parts[j]);
                                if j < pos {
                                    assert(old_parts[j].value < val);
                                } else {
                                    assert(old_parts[pos as int].value < old_parts[j].value);
                                }
                            }
                        }
                        assert forall|v: u64|
                            (exists|j: int| 0 <= j < parts@.len() && (#[trigger] parts@[j]).value == v)
                                <==> value_seen(nxt, *sel, v) by {
                            if value_seen(nxt, *sel, v) {
                                let q = choose|q: int|
                                    0 <= q < k + 1 && spec_extract_raw(#[trigger] nxt[q], *sel)
                                        == Some(v as int);
                                if q < k {
                                    assert(cur[q] == nxt[q]);
                                    assert(value_seen(cur, *sel, v));
                                    let j = choose|j: int| 0 <= j < old_parts.len() && (#[trigger] old_parts[j]).value == v;
                                    assert(parts@[j].value == old_parts[j].value);
                                } else {
                                    assert(parts@[pos as int].value == v);
                                }
                            }
                            if exists|j: int| 0 <= j < parts@.len() && (#[trigger] parts@[j]).value == v {
                                let j = choose|j: int| 0 <= j < parts@.len() && (#[trigger] parts@[j]).value == v;
                                assert(parts@[j].value == old_parts[j].value);
                                assert(old_parts[j].value == v);
                                assert(value_seen(cur, *sel, v));
                                let q = choose|q: int|
                                    0 <= q < k && spec_extract_raw(#[trigger] cur[q], *sel)
                                        == Some(v as int);
                                assert(cur[q] == nxt[q]);
                            }
                        }
                    }
                } else {
                    let mut list: Vec<&'a [u8]> = Vec::new();
                    list.push(p);
                    parts.insert(pos, Partition { value: val, payloads: list });
                    proof {
                        assert(pos < old_parts.len() ==> old_parts[pos as int].value > val);
                        assert(!value_seen(cur, *sel, val)) by {
                            if value_seen(cur, *sel, val) {
                                let j = choose|j: int| 0 <= j < old_parts.len() && (#[trigger] old_parts[j]).value == val;
                                if j < pos {
                                    assert(old_parts[j].value < val);
                                } else if j > pos {
                                    assert(old_parts[pos as int].value < old_parts[j].value);
                                }
                            }
                        }
                        assert forall|a: int, b: int|
                            0 <= a < b < parts@.len() implies (#[trigger] parts@[a]).value < (#[trigger] parts@[b]).value by {
                            if b < pos {
                                assert(parts@[a] == old_parts[a] && parts@[b] == old_parts[b]);
                            } else if b == pos {
                                assert(parts@[a] == old_parts[a]);
                            } else if a < pos {
                                assert(parts@[a] == old_parts[a] && parts@[b] == old_parts[b - 1]);
                                if b - 1 > pos {
                                    assert(old_parts[pos as int].value < old_parts[b - 1].value);
                                }
                            } else if a == pos {
                                assert(parts@[b] == old_parts[b - 1]);
                                if b - 1 > pos {
                                    assert(old_parts[pos as int].value < old_parts[b - 1].value);
                                }
                            } else {
                                assert(parts@[a] == old_parts[a - 1] && parts@[b] == old_parts[b - 1]);
                            }
                        }
                        assert forall|j: int| 0 <= j < parts@.len() implies (#[trigger] parts@[j]).payloads@.map_values(
                            |y: &[u8]| y@,
                        ) == partition(nxt, *sel, parts@[j].value) && parts@[j].payloads@.len() > 0 by {
                            lemma_filter_take_succ(pv, has_value(*sel, parts@[j].value), k as int);
                            if j == pos {
                                assert(partition(cur, *sel, val).len() == 0) by {
                                    if partition(cur, *sel, val).len() > 0 {
                                        let f = partition(cur, *sel, val);
                                        cur.lemma_filter_pred(has_value(*sel, val), 0);
                                        assert(f.contains(f[0]));
                                        cur.lemma_filter_contains_rev(has_value(*sel, val), f[0]);
                                        let q = choose|q: int| 0 <= q < k && cur[q] == f[0];
                                        assert(spec_extract_raw(cur[q], *sel) == Some(val as int));
                                        assert(value_seen(cur, *sel, val));
                                    }
                                }
                                assert(parts@[j].payloads@.map_values(|y: &[u8]| y@) =~= seq![p@]);
                                assert(partition(cur, *sel, val) =~= Seq::<Seq<u8>>::empty());
                            } else if j < pos {
                                assert(parts@[j] == old_parts[j]);
                                assert(old_parts[j].value < val);
                            } else {
                                assert(parts@[j] == old_parts[j - 1]);
                                assert(old_parts[pos as int].value <= old_parts[j - 1].value);
                            }
                        }
                        assert forall|v: u64|
                            (exists|j: int| 0 <= j < parts@.len() && (#[trigger] parts@[j]).value == v)
                                <==> value_seen(nxt, *sel, v) by {
                            if value_seen(nxt, *sel, v) {
                                let q = choose|q: int|
                                    0 <= q < k + 1 && spec_extract_raw(#[trigger] nxt[q], *sel)
                                        == Some(v as int);
                                if q < k {
                                    assert(cur[q] == nxt[q]);
                                    assert(value_seen(cur, *sel, v));
                                    let j = choose|j: int| 0 <= j < old_parts.len() && (#[trigger] old_parts[j]).value == v;
                                    if j < pos {
                                        assert(parts@[j] == old_parts[j]);
                                    } else {
                                        assert(parts@[j + 1] == old_parts[j]);
                                    }
                                } else {
                                    assert(parts@[pos as int].value == v);
                                }
                            }
                            if exists|j: int| 0 <= j < parts@.len() && (#[trigger] parts@[j]).value == v {
                                let j = choose|j: int| 0 <= j < parts@.len() && (#[trigger] parts@[j]).value == v;
                                if j == pos {
                                    assert(nxt[k as int] == p@);
                                } else {
                                    let oj = if j < pos { j } else { j - 1 };
                                    assert(old_parts[oj].value == v);
                                    assert(value_seen(cur, *sel, v));
                                    let q = choose|q: int|
                                        0 <= q < k && spec_extract_raw(#[trigger] cur[q], *sel)
                                            == Some(v as int);
                                    assert(cur[q] == nxt[q]);
                                }
                            }
                        }
                    }
                }
            },
        }
        k = k + 1;
    }
    proof {
        assert(pv.take(pv.len() as int) =~= pv);
        let vals = part_values(parts@);
        let s = selector_values(pv, *sel);
        assert forall|v: u64| #[trigger] vals.contains(v) <==> value_seen(pv, *sel, v) by {
            if vals.contains(v) {
                let j = choose|j: int| 0 <= j < vals.len() && vals[j] == v;
                assert(parts@[j].value == v);
            }
            if value_seen(pv, *sel, v) {
                let j = choose|j: int| 0 <= j < parts@.len() && (#[trigger] parts@[j]).value == v;
                assert(vals[j] == v);
            }
        }
        assert(ascending(vals));
        assert(ascending(s) && forall|v: u64| #[trigger] s.contains(v) <==> value_seen(pv, *sel, v));
        let lt = |a: u64, b: u64| a < b;
        assert forall|a: int, b: int| 0 <= a < b < vals.len() implies lt(#[trigger] vals[a], #[trigger] vals[b]) by {
            assert(parts@[a].value < parts@[b].value);
        }
        assert forall|a: int, b: int| 0 <= a < b < s.len() implies lt(#[trigger] s[a], #[trigger] s[b]) by {}
        lemma_strictly_sorted_unique(vals, s, lt);
    }
    parts
}

/// The counted variants of a partition, by ascending selector value.
fn build_variants(
    payloads: &[&[u8]],
    parts: &Vec<Partition>,
    sel: &FieldSpec,
    bit_limit: u32,
    min_frames: u64,
) -> (vs: Vec<MuxVariant>)
    requires
        partitioned(payloads@.map_values(|p: &[u8]| p@), *sel, parts@, payloads@.len() as int),
        part_values(parts@) == selector_values(payloads@.map_values(|p: &[u8]| p@), *sel),
    ensures
        vs@.map_values(|v: MuxVariant| v@) == spec_variants(
            payloads@.map_values(|p: &[u8]| p@),
            *sel,
            bit_limit,
            min_frames,
        ),
{
    let ghost pv = payloads@.map_values(|p: &[u8]| p@);
    let ghost vals = part_values(parts@);
    let ghost pick = variant_pick(pv, *sel, bit_limit, min_frames);
    proof {
        assert(pv.take(pv.len() as int) =~= pv);
    }
    let mut vs: Vec<MuxVariant> = Vec::new();
    let mut j: usize = 0;
    while j < parts.len()
        invariant
            pv == payloads@.map_values(|p: &[u8]| p@),
            pv.take(pv.len() as int) == pv,
            vals == part_values(parts@),
            pick == variant_pick(pv, *sel, bit_limit, min_frames),
            partitioned(pv, *sel, parts@, pv.len() as int),
            j <= parts@.len(),
            vs@.map_values(|v: MuxVariant| v@) == vals.take(j as int).filter_map(pick),
        decreases parts.len() - j,
    {
        proof {
            vals.lemma_filter_map_take_succ(pick, j as int);
        }
        let part = &parts[j];
        let ghost fv = part.payloads@.map_values(|p: &[u8]| p@);
        assert(fv == partition(pv, *sel, part.value));
        assert(vals[j as int] == part.value);
        let n = part.payloads.len() as u64;
        if n >= min_frames {
            let tb = toggling_bits_excluding(&part.payloads, bit_limit, sel);
            let v = MuxVariant { selector_value: part.value, frames: n, toggling_bits: tb };
            let ghost before = vs@;
            vs.push(v);
            proof {
                assert(vs@.map_values(|x: MuxVariant| x@) =~= before.map_values(|x: MuxVariant| x@).push(
                    v@,
                ));
            }
        }
        j = j + 1;
    }
    proof {
        assert(vals.take(parts@.len() as int) =~= vals);
    }
    vs
}

fn same_bits(a: &Vec<u32>, b: &Vec<u32>) -> (r: bool)
    ensures
        r == (a@ == b@),
{
    if a.len() != b.len() {
        return false;
    }
    let mut i: usize = 0;
    while i < a.len()
        invariant
            a@.len() == b@.len(),
            i <= a@.len(),
            forall|k: int| 0 <= k < i ==> a@[k] == b@[k],
        decreases a.len() - i,
    {
        if a[i] != b[i] {
            return false;
        }
        i = i + 1;
    }
    assert(a@ =~= b@);
    true
}

/// Two neighbouring variants have different toggling bits.
fn variants_differ(vs: &Vec<MuxVariant>) -> (r: bool)
    ensures
        r == layouts_differ(vs@.map_values(|v: MuxVariant| v@)),
{
    let ghost vv = vs@.map_values(|v: MuxVariant| v@);
    let mut i: usize = 1;
    while i < vs.len()
        invariant
            vv == vs@.map_values(|v: MuxVariant| v@),
            1 <= i,
            forall|t: int|
                1 <= t < i && t < vv.len() ==> (#[trigger] vv[t]).toggling_bits == vv[t - 1].toggling_bits,
        decreases vs.len() - i,
    {
        if !same_bits(&vs[i].toggling_bits, &vs[i - 1].toggling_bits) {
            assert(vv[i as int].toggling_bits != vv[i - 1].toggling_bits);
            return true;
        }
        i = i + 1;
    }
    false
}

/// Some selector bit is marked as toggling in the mask.
fn any_selector_bit_toggles(mask: &[bool], sel: &FieldSpec) -> (r: bool)
    ensures
        r == selector_toggles(*sel, mask@),
{
    let end: u64 = sel.start_bit as u64 + sel.length as u64;
    let mut b: u64 = sel.start_bit as u64;
    while b < end
        invariant
            end == sel.start_bit + sel.length,
            sel.start_bit <= b,
            forall|c: int|
                sel.start_bit <= c < b && 0 <= c < mask@.len() ==> !(#[trigger] mask@[c]),
        decreases end - b,
    {
        if b < mask.len() as u64 && mask[b as usize] {
            assert(in_selector(*sel, b as int));
            return true;
        }
        b = b + 1;
    }
    false
}

/// Analyze byte- and nibble-aligned selector candidates for one ID.
///
/// Only candidates where `variant_layouts_differ` is true are returned —
/// partitioning on an ordinary changing field yields identical conditional
/// layouts and proves nothing.
pub fn mux_facts(
    payloads: &[&[u8]],
    toggle_mask: &[bool],
    bit_limit: u32,
    min_frames_per_variant: u64,
    max_selector_values: usize,
) -> (out: Vec<MuxFacts>)
    ensures
        out@.map_values(|f: MuxFacts| f@) == spec_mux_facts(
            payloads@.map_values(|p: &[u8]| p@),
            toggle_mask@,
            bit_limit,
            min_frames_per_variant,
            max_selector_values,
        ),
{
    let ghost pv = payloads@.map_values(|p: &[u8]| p@);
    let ghost pick = facts_pick(pv, toggle_mask@, bit_limit, min_frames_per_variant, max_selector_values);
    let cands = candidate_list(bit_limit);
    let mut out: Vec<MuxFacts> = Vec::new();
    let mut i: usize = 0;
    while i < cands.len()
        invariant
            pv == payloads@.map_values(|p: &[u8]| p@),
            pick == facts_pick(pv, toggle_mask@, bit_limit, min_frames_per_variant, max_selector_values),
            cands@ == candidates(bit_limit),
            i <= cands@.len(),
            out@.map_values(|f: MuxFacts| f@) == cands@.take(i as int).filter_map(pick),
        decreases cands.len() - i,
    {
        proof {
            cands@.lemma_filter_map_take_succ(pick, i as int);
        }
        let sel = cands[i];
        let ghost before = out@;
        proof {
            let nb = ((bit_limit + 7) / 8) as nat;
            if (i as int) < nb {
                assert(cands@[i as int] == selector_at(8 * i, 8));
            } else {
                assert(cands@[i as int] == selector_at(4 * (i - nb), 4));
            }
            assert(!sel.signed);
        }
        if (sel.start_bit as u64) + (sel.length as u64) <= bit_limit as u64 && any_selector_bit_toggles(
            toggle_mask,
            &sel,
        ) {
            let parts = partition_payloads(payloads, &sel);
            if 2 <= parts.len() && parts.len() <= max_selector_values {
                let variants = build_variants(payloads, &parts, &sel, bit_limit, min_frames_per_variant);
                if variants.len() >= 2 && variants_differ(&variants) {
                    let f = MuxFacts {
                        selector: sel,
                        distinct_values: parts.len() as u64,
                        variants,
                        variant_layouts_differ: true,
                    };
                    out.push(f);
                    proof {
                        assert(part_values(parts@).len() == parts@.len());
                        assert(out@.map_values(|x: MuxFacts| x@) =~= before.map_values(|x: MuxFacts| x@).push(
                            f@,
                        ));
                    }
                }
            }
        }
        i = i + 1;
    }
    proof {
        assert(cands@.take(cands@.len() as int) =~= cands@);
    }
    out
}

/// A reported selector lies inside the bit limit, has a toggling bit,
/// takes between 2 and the maximum number of values, and lists at least two
/// variants, each with at least the minimum number of frames, whose toggling
/// bits differ between two neighbours.
pub proof fn lemma_reported_mux_facts(
    ps: Seq<Seq<u8>>,
    mask: Seq<bool>,
    bit_limit: u32,
    min_frames: u64,
    max_values: usize,
    i: int,
    j: int,
)
    requires
        0 <= i < spec_mux_facts(ps, mask, bit_limit, min_frames, max_values).len(),
        0 <= j < spec_mux_facts(ps, mask, bit_limit, min_frames, max_values)[i].variants.len(),
    ensures
        ({
            let f = spec_mux_facts(ps, mask, bit_limit, min_frames, max_values)[i];
            let v = f.variants[j];
            &&& f.selector.start_bit + f.selector.length <= bit_limit
            &&& selector_toggles(f.selector, mask)
            &&& 2 <= selector_values(ps, f.selector).len() <= max_values
            &&& f.distinct_values == selector_values(ps, f.selector).len() as u64
            &&& f.variants.len() >= 2
            &&& f.variant_layouts_differ
            &&& layouts_differ(f.variants)
            &&& partition(ps, f.selector, v.selector_value).len() >= min_frames
            &&& v.frames == partition(ps, f.selector, v.selector_value).len() as u64
            &&& v.toggling_bits == toggling_bits(
                partition(ps, f.selector, v.selector_value),
                bit_limit,
                f.selector,
            )
        }),
{
    let all = spec_mux_facts(ps, mask, bit_limit, min_frames, max_values);
    let f = all[i];
    let pick = facts_pick(ps, mask, bit_limit, min_frames, max_values);
    assert(all.contains(f));
    candidates(bit_limit).lemma_filter_map_contains(pick, f);
    let sel = choose|sel: FieldSpec| #[trigger] candidates(bit_limit).contains(sel) && pick(sel) == Some(f);
    assert(f.selector == sel);
    let vs = spec_variants(ps, sel, bit_limit, min_frames);
    assert(f.variants == vs);
    let v = vs[j];
    assert(vs.contains(v));
    selector_values(ps, sel).lemma_filter_map_contains(variant_pick(ps, sel, bit_limit, min_frames), v);
    let x = choose|x: u64| #[trigger] selector_values(ps, sel).contains(x) && variant_pick(ps, sel, bit_limit, min_frames)(x) == Some(v);
    assert(v.selector_value == x);
}

} // verus!
