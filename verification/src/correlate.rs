//! The integer side of ground-truth correlation: aligning reference samples
//! with broadcast frames, and the raw fields worth fitting.
//!
//! A reference sample at time `t` aligns with the latest frame at or before
//! `t`, when that frame is at most the window older. The candidate fields
//! are every Intel, then Motorola field (by start bit, then width, unsigned
//! before signed) whose bits all lie inside the shortest payload and all
//! toggle; of fields that read the same bits in the same order with the
//! same signedness only the first is kept. The affine fit over the
//! candidates is floating point and is the caller's.
use vstd::prelude::*;

use crate::activity::{bit_activity, spec_bit_activity, spec_state, BitActivityCell, BitState};
use crate::bits::{occupied_bits, occupied_bits_msb_first, spec_msb_first, spec_occupied_bits, Endianness, FieldSpec};

verus! {

/// One past the index of the latest time at or before `t` (0 when none).
pub open spec fn prefix_le(times: Seq<i64>, t: i64) -> nat
    decreases times.len(),
{
    if times.len() == 0 {
        0
    } else if times.last() <= t {
        times.len()
    } else {
        prefix_le(times.drop_last(), t)
    }
}

/// The frame a sample at `t` aligns with: the latest at or before `t`, when
/// it is at most `window` older.
pub open spec fn aligned_frame(times: Seq<i64>, t: i64, window: i64) -> Option<int> {
    let n = prefix_le(times, t);
    if n == 0 {
        None
    } else if t - times[n - 1] <= window {
        Some(n - 1)
    } else {
        None
    }
}

pub open spec fn ascending(times: Seq<i64>) -> bool {
    forall|i: int, j: int| 0 <= i < j < times.len() ==> times[i] <= times[j]
}

proof fn lemma_prefix_le_split(times: Seq<i64>, t: i64, n: int)
    requires
        0 <= n <= times.len(),
        forall|i: int| 0 <= i < n ==> times[i] <= t,
        forall|i: int| n <= i < times.len() ==> times[i] > t,
    ensures
        prefix_le(times, t) == n,
    decreases times.len(),
{
    if times.len() > 0 {
        if n < times.len() {
            let d = times.drop_last();
            assert forall|i: int| 0 <= i < n implies d[i] <= t by {
                assert(d[i] == times[i]);
            }
            assert forall|i: int| n <= i < d.len() implies d[i] > t by {
                assert(d[i] == times[i]);
            }
            assert(times.last() == times[times.len() - 1]);
            lemma_prefix_le_split(d, t, n);
        } else {
            assert(times.last() == times[times.len() - 1]);
        }
    }
}

/// The frame a reference sample at `t` aligns with (times ascending).
pub fn align_sample(times: &[i64], t: i64, window_us: i64) -> (r: Option<usize>)
    requires
        ascending(times@),
    ensures
        match r {
            Some(j) => aligned_frame(times@, t, window_us) == Some(j as int),
            None => aligned_frame(times@, t, window_us) is None,
        },
{
    let mut lo: usize = 0;
    let mut hi: usize = times.len();
    while lo < hi
        invariant
            ascending(times@),
            lo <= hi <= times@.len(),
            forall|i: int| 0 <= i < lo ==> times@[i] <= t,
            forall|i: int| hi <= i < times@.len() ==> times@[i] > t,
        decreases hi - lo,
    {
        let mid = lo + (hi - lo) / 2;
        if times[mid] <= t {
            assert forall|i: int| 0 <= i < mid + 1 implies times@[i] <= t by {
                assert(times@[i] <= times@[mid as int]);
            }
            lo = mid + 1;
        } else {
            assert forall|i: int| mid <= i < times@.len() implies times@[i] > t by {
                assert(times@[mid as int] <= times@[i]);
            }
            hi = mid;
        }
    }
    proof {
        lemma_prefix_le_split(times@, t, lo as int);
    }
    if lo == 0 {
        return None;
    }
    if (t as i128) - (times[lo - 1] as i128) <= window_us as i128 {
        Some(lo - 1)
    } else {
        None
    }
}

/// Smallest payload length in bits (0 without payloads).
pub open spec fn bit_limit(ps: Seq<Seq<u8>>) -> nat
    decreases ps.len(),
{
    if ps.len() == 0 {
        0
    } else if ps.len() == 1 {
        ps[0].len() * 8
    } else {
        let rest = bit_limit(ps.drop_last());
        let last = ps.last().len() * 8;
        if last < rest {
            last
        } else {
            rest
        }
    }
}

pub open spec fn endianness_rank(e: Endianness) -> int {
    match e {
        Endianness::Intel => 0,
        Endianness::Motorola => 1,
    }
}

pub open spec fn sign_rank(signed: bool) -> int {
    if signed {
        1
    } else {
        0
    }
}

/// The field comes before position `(e, start, length, signed)` of the
/// enumeration.
pub open spec fn before_pos(s: FieldSpec, e: int, start: int, length: int, signed: int) -> bool {
    let a = endianness_rank(s.endianness);
    let sg = sign_rank(s.signed);
    a < e || (a == e && (s.start_bit < start || (s.start_bit == start && (s.length < length || (
    s.length == length && sg < signed)))))
}

/// `a` comes before `b` in the enumeration.
pub open spec fn field_before(a: FieldSpec, b: FieldSpec) -> bool {
    before_pos(a, endianness_rank(b.endianness), b.start_bit as int, b.length as int, sign_rank(b.signed))
}

pub open spec fn toggles_at(cells: Seq<BitActivityCell>, b: u32) -> bool {
    (b as int) < cells.len() && spec_state(cells[b as int]) == BitState::Toggles
}

/// A field inside the enumeration whose bits all lie below `limit` and all
/// toggle.
pub open spec fn eligible(cells: Seq<BitActivityCell>, limit: nat, min: u32, max: u32, s: FieldSpec) -> bool {
    let occ = spec_occupied_bits(s.start_bit, s.length, s.endianness);
    &&& s.start_bit < limit
    &&& min <= s.length <= max
    &&& forall|k: int| 0 <= k < occ.len() ==> (occ[k] as int) < limit && toggles_at(cells, #[trigger] occ[k])
}

/// What identifies a field's reading: its bits MSB first and its signedness.
pub open spec fn field_key(s: FieldSpec) -> (Seq<u32>, bool) {
    (spec_msb_first(s), s.signed)
}

/// An eligible field that no earlier eligible field reads the same as.
pub open spec fn first_of_key(cells: Seq<BitActivityCell>, limit: nat, min: u32, max: u32, s: FieldSpec) -> bool {
    &&& eligible(cells, limit, min, max, s)
    &&& forall|t: FieldSpec|
        #[trigger] eligible(cells, limit, min, max, t) && field_before(t, s) ==> field_key(t) != field_key(s)
}

pub open spec fn key_listed(c: Seq<FieldSpec>, k: (Seq<u32>, bool)) -> bool {
    exists|i: int| 0 <= i < c.len() && field_key(#[trigger] c[i]) == k
}

/// `c` lists, in enumeration order, exactly the fields that are the first
/// eligible field of their reading.
pub open spec fn is_candidate_list(
    cells: Seq<BitActivityCell>,
    limit: nat,
    min: u32,
    max: u32,
    c: Seq<FieldSpec>,
) -> bool {
    &&& forall|i: int| 0 <= i < c.len() ==> first_of_key(cells, limit, min, max, #[trigger] c[i])
    &&& forall|i: int, j: int| 0 <= i < j < c.len() ==> field_before(#[trigger] c[i], #[trigger] c[j])
    &&& forall|s: FieldSpec| #[trigger] first_of_key(cells, limit, min, max, s) ==> c.contains(s)
}

/// The candidate fields over the payloads.
pub open spec fn candidates_of(ps: Seq<Seq<u8>>, min: u32, max: u32, c: Seq<FieldSpec>) -> bool {
    is_candidate_list(spec_bit_activity(ps, bit_limit(ps) as u32), bit_limit(ps), min, max, c)
}

/// The enumeration has reached position `(e, start, length, signed)`.
spec fn progress(
    cells: Seq<BitActivityCell>,
    limit: nat,
    min: u32,
    max: u32,
    c: Seq<FieldSpec>,
    e: int,
    start: int,
    length: int,
    signed: int,
) -> bool {
    &&& forall|i: int|
        0 <= i < c.len() ==> first_of_key(cells, limit, min, max, #[trigger] c[i]) && before_pos(
            c[i],
            e,
            start,
            length,
            signed,
        )
    &&& forall|i: int, j: int| 0 <= i < j < c.len() ==> field_before(#[trigger] c[i], #[trigger] c[j])
    &&& forall|t: FieldSpec|
        #[trigger] eligible(cells, limit, min, max, t) && before_pos(t, e, start, length, signed) ==> key_listed(
            c,
            field_key(t),
        )
}

/// Two positions with the same eligible fields before them.
proof fn lemma_progress_same(
    cells: Seq<BitActivityCell>,
    limit: nat,
    min: u32,
    max: u32,
    c: Seq<FieldSpec>,
    p: (int, int, int, int),
    q: (int, int, int, int),
)
    requires
        progress(cells, limit, min, max, c, p.0, p.1, p.2, p.3),
        forall|t: FieldSpec|
            #[trigger] eligible(cells, limit, min, max, t) ==> (before_pos(t, p.0, p.1, p.2, p.3) <==> before_pos(
                t,
                q.0,
                q.1,
                q.2,
                q.3,
            )),
    ensures
        progress(cells, limit, min, max, c, q.0, q.1, q.2, q.3),
{
    assert forall|i: int| 0 <= i < c.len() implies first_of_key(cells, limit, min, max, #[trigger] c[i])
        && before_pos(c[i], q.0, q.1, q.2, q.3) by {
        assert(eligible(cells, limit, min, max, c[i]));
    }
}

/// Two first-of-reading fields with the same reading are the same field.
proof fn lemma_first_unique(
    cells: Seq<BitActivityCell>,
    limit: nat,
    min: u32,
    max: u32,
    a: FieldSpec,
    b: FieldSpec,
)
    requires
        first_of_key(cells, limit, min, max, a),
        first_of_key(cells, limit, min, max, b),
        field_key(a) == field_key(b),
    ensures
        a == b,
{
    assert(eligible(cells, limit, min, max, a));
    assert(eligible(cells, limit, min, max, b));
    if field_before(a, b) {
    } else if field_before(b, a) {
    } else {
        assert(a.endianness == b.endianness);
    }
}

/// Element-wise equality of bit lists.
fn bits_eq(a: &Vec<u32>, b: &Vec<u32>) -> (r: bool)
    ensures
        r == (a@ == b@),
{
    if a.len() != b.len() {
        return false;
    }
    let mut i: usize = 0;
    while i < a.len()
        invariant
            a@.len() == b@.len(),
            i <= a@.len(),
            forall|k: int| 0 <= k < i ==> a@[k] == b@[k],
        decreases a.len() - i,
    {
        if a[i] != b[i] {
            return false;
        }
        i = i + 1;
    }
    assert(a@ =~= b@);
    true
}

pub open spec fn seen_view(seen: Seq<(Vec<u32>, bool)>) -> Seq<(Seq<u32>, bool)> {
    seen.map_values(|k: (Vec<u32>, bool)| (k.0@, k.1))
}

/// Take `s` at its position when no earlier candidate reads the same.
fn consider(
    c: &mut Vec<FieldSpec>,
    seen: &mut Vec<(Vec<u32>, bool)>,
    s: FieldSpec,
    Ghost(cells): Ghost<Seq<BitActivityCell>>,
    Ghost(limit): Ghost<nat>,
    min: u32,
    max: u32,
)
    requires
        eligible(cells, limit, min, max, s),
        progress(
            cells,
            limit,
            min,
            max,
            old(c)@,
            endianness_rank(s.endianness),
            s.start_bit as int,
            s.length as int,
            sign_rank(s.signed),
        ),
        seen_view(old(seen)@) == old(c)@.map_values(|f: FieldSpec| field_key(f)),
    ensures
        progress(
            cells,
            limit,
            min,
            max,
            final(c)@,
            endianness_rank(s.endianness),
            s.start_bit as int,
            s.length as int,
            sign_rank(s.signed) + 1,
        ),
        seen_view(final(seen)@) == final(c)@.map_values(|f: FieldSpec| field_key(f)),
{
    let ghost e = endianness_rank(s.endianness);
    let ghost st = s.start_bit as int;
    let ghost ln = s.length as int;
    let ghost sg = sign_rank(s.signed);
    let key = occupied_bits_msb_first(&s);
    let ghost k = field_key(s);
    assert(key@ == k.0);
    let mut g: usize = 0;
    let mut found = false;
    while g < seen.len() && !found
        invariant
            g <= seen@.len(),
            found ==> g >= 1 && seen_view(seen@)[g - 1] == k,
            !found ==> forall|h: int| 0 <= h < g ==> seen_view(seen@)[h] != k,
            key@ == k.0,
            k == field_key(s),
        decreases seen.len() - g + if found {
            0int
        } else {
            1int
        },
    {
        if bits_eq(&seen[g].0, &key) && seen[g].1 == s.signed {
            found = true;
        }
        g = g + 1;
    }
    let ghost cv = c@;
    let ghost sv = seen@;
    assert(seen_view(sv).len() == cv.len());
    if found {
        proof {
            let h = (g - 1) as int;
            assert(seen_view(sv)[h] == cv.map_values(|f: FieldSpec| field_key(f))[h]);
            assert(field_key(cv[h]) == k);
            assert(key_listed(cv, field_key(s)));
            assert forall|t: FieldSpec|
                #[trigger] eligible(cells, limit, min, max, t) && before_pos(t, e, st, ln, sg + 1) implies key_listed(
                cv,
                field_key(t),
            ) by {
                if !before_pos(t, e, st, ln, sg) {
                    assert(t == s);
                }
            }
            assert forall|i: int| 0 <= i < cv.len() implies first_of_key(cells, limit, min, max, #[trigger] cv[i])
                && before_pos(cv[i], e, st, ln, sg + 1) by {}
        }
    } else {
        proof {
            assert(!key_listed(cv, k)) by {
                if key_listed(cv, k) {
                    let i = choose|i: int| 0 <= i < cv.len() && field_key(#[trigger] cv[i]) == k;
                    assert(seen_view(sv)[i] == cv.map_values(|f: FieldSpec| field_key(f))[i]);
                }
            }
            assert forall|t: FieldSpec|
                #[trigger] eligible(cells, limit, min, max, t) && field_before(t, s) implies field_key(t)
                != field_key(s) by {
                assert(key_listed(cv, field_key(t)));
            }
            assert(first_of_key(cells, limit, min, max, s));
        }
        c.push(s);
        seen.push((key, s.signed));
        proof {
            assert forall|i: int| 0 <= i < seen@.len() implies #[trigger] seen_view(seen@)[i]
                == c@.map_values(|f: FieldSpec| field_key(f))[i] by {
                if i < sv.len() {
                    assert(seen@[i] == sv[i]);
                    assert(c@[i] == cv[i]);
                    assert(seen_view(sv)[i] == cv.map_values(|f: FieldSpec| field_key(f))[i]);
                } else {
                    assert(seen@[i] == (key, s.signed));
                    assert(c@[i] == s);
                }
            }
            assert(seen_view(seen@) =~= c@.map_values(|f: FieldSpec| field_key(f)));
            assert forall|i: int| 0 <= i < c@.len() implies first_of_key(cells, limit, min, max, #[trigger] c@[i])
                && before_pos(c@[i], e, st, ln, sg + 1) by {
                if i < cv.len() {
                    assert(c@[i] == cv[i]);
                }
            }
            assert forall|i: int, j: int| 0 <= i < j < c@.len() implies field_before(#[trigger] c@[i], #[trigger] c@[j]) by {
                assert(c@[i] == cv[i]);
                if j < cv.len() {
                    assert(c@[j] == cv[j]);
                }
            }
            assert forall|t: FieldSpec|
                #[trigger] eligible(cells, limit, min, max, t) && before_pos(t, e, st, ln, sg + 1) implies key_listed(
                c@,
                field_key(t),
            ) by {
                if before_pos(t, e, st, ln, sg) {
                    assert(key_listed(cv, field_key(t)));
                    let i = choose|i: int| 0 <= i < cv.len() && field_key(#[trigger] cv[i]) == field_key(t);
                    assert(c@[i] == cv[i]);
                } else {
                    assert(t == s);
                    assert(c@[cv.len() as int] == s);
                }
            }
        }
    }
}

/// The field's bits all lie below `limit` and all toggle.
fn bits_toggle(
    mask: &Vec<bool>,
    limit: u32,
    s: &FieldSpec,
    Ghost(cells): Ghost<Seq<BitActivityCell>>,
) -> (r: bool)
    requires
        mask@.len() == limit,
        cells.len() == limit,
        forall|b: int| 0 <= b < limit ==> #[trigger] mask@[b] == (spec_state(cells[b]) == BitState::Toggles),
    ensures
        r == forall|k: int|
            0 <= k < spec_occupied_bits(s.start_bit, s.length, s.endianness).len() ==> (spec_occupied_bits(
                s.start_bit,
                s.length,
                s.endianness,
            )[k] as int) < limit && toggles_at(
                cells,
                #[trigger] spec_occupied_bits(s.start_bit, s.length, s.endianness)[k],
            ),
{
    let bits = occupied_bits(s.start_bit, s.length, s.endianness);
    let ghost occ = spec_occupied_bits(s.start_bit, s.length, s.endianness);
    let mut k: usize = 0;
    while k < bits.len()
        invariant
            bits@ == occ,
            occ == spec_occupied_bits(s.start_bit, s.length, s.endianness),
            mask@.len() == limit,
            cells.len() == limit,
            forall|b: int| 0 <= b < limit ==> #[trigger] mask@[b] == (spec_state(cells[b]) == BitState::Toggles),
            k <= bits@.len(),
            forall|j: int| 0 <= j < k ==> (occ[j] as int) < limit && toggles_at(cells, #[trigger] occ[j]),
        decreases bits.len() - k,
    {
        let b = bits[k];
        if b >= limit || !mask[b as usize] {
            assert(!((occ[k as int] as int) < limit && toggles_at(cells, occ[k as int])));
            return false;
        }
        k = k + 1;
    }
    true
}

/// Smallest payload length in bits.
fn bit_limit_of(payloads: &[&[u8]]) -> (r: u32)
    requires
        forall|i: int| 0 <= i < payloads@.len() ==> (#[trigger] payloads@[i])@.len() * 8 <= u32::MAX,
    ensures
        r == bit_limit(payloads@.map_values(|p: &[u8]| p@)),
{
    let ghost pv = payloads@.map_values(|p: &[u8]| p@);
    if payloads.len() == 0 {
        return 0;
    }
    let mut lim: u32 = (payloads[0].len() * 8) as u32;
    assert(pv.take(1).len() == 1 && pv.take(1)[0] == pv[0]);
    let mut i: usize = 1;
    while i < payloads.len()
        invariant
            pv == payloads@.map_values(|p: &[u8]| p@),
            forall|i: int| 0 <= i < payloads@.len() ==> (#[trigger] payloads@[i])@.len() * 8 <= u32::MAX,
            1 <= i <= payloads@.len(),
            lim == bit_limit(pv.take(i as int)),
        decreases payloads.len() - i,
    {
        let l = (payloads[i].len() * 8) as u32;
        assert(pv.take(i + 1).drop_last() =~= pv.take(i as int));
        assert(pv.take(i + 1).last() == pv[i as int]);
        if l < lim {
            lim = l;
        }
        i = i + 1;
    }
    assert(pv.take(payloads@.len() as int) =~= pv);
    lim
}

/// The raw fields worth fitting over the payloads (see the module
/// documentation): widths `min_width ..= max_width`.
pub fn field_candidates(payloads: &[&[u8]], min_width: u32, max_width: u32) -> (c: Vec<FieldSpec>)
    requires
        forall|i: int| 0 <= i < payloads@.len() ==> (#[trigger] payloads@[i])@.len() * 8 <= u32::MAX,
    ensures
        candidates_of(payloads@.map_values(|p: &[u8]| p@), min_width, max_width, c@),
{
    let ghost pv = payloads@.map_values(|p: &[u8]| p@);
    let limit = bit_limit_of(payloads);
    let cells = bit_activity(payloads, limit);
    let ghost cv = cells@;
    let ghost lim = limit as nat;
    assert(cv == spec_bit_activity(pv, limit));
    let mut mask: Vec<bool> = Vec::new();
    let mut b: usize = 0;
    while b < cells.len()
        invariant
            cells@ == cv,
            cv.len() == limit,
            b <= cv.len(),
            mask@.len() == b,
            forall|j: int| 0 <= j < b ==> #[trigger] mask@[j] == (spec_state(cv[j]) == BitState::Toggles),
        decreases cells.len() - b,
    {
        let t = match cells[b].state() {
            BitState::Toggles => true,
            _ => false,
        };
        mask.push(t);
        b = b + 1;
    }
    let mut c: Vec<FieldSpec> = Vec::new();
    let mut seen: Vec<(Vec<u32>, bool)> = Vec::new();
    assert(seen_view(seen@) =~= c@.map_values(|f: FieldSpec| field_key(f)));
    let mut ei: u8 = 0;
    while ei < 2
        invariant
            cv.len() == limit,
            lim == limit as nat,
            mask@.len() == limit,
            forall|j: int| 0 <= j < limit ==> #[trigger] mask@[j] == (spec_state(cv[j]) == BitState::Toggles),
            ei <= 2,
            progress(cv, lim, min_width, max_width, c@, ei as int, 0, min_width as int, 0),
            seen_view(seen@) == c@.map_values(|f: FieldSpec| field_key(f)),
        decreases 2 - ei,
    {
        let e = if ei == 0 {
            Endianness::Intel
        } else {
            Endianness::Motorola
        };
        assert(endianness_rank(e) == ei as int);
        let mut start: u32 = 0;
        while start < limit
            invariant
                cv.len() == limit,
                lim == limit as nat,
                mask@.len() == limit,
                forall|j: int| 0 <= j < limit ==> #[trigger] mask@[j] == (spec_state(cv[j]) == BitState::Toggles),
                ei < 2,
                endianness_rank(e) == ei as int,
                start <= limit,
                progress(cv, lim, min_width, max_width, c@, ei as int, start as int, min_width as int, 0),
                seen_view(seen@) == c@.map_values(|f: FieldSpec| field_key(f)),
            decreases limit - start,
        {
            let mut length: u64 = min_width as u64;
            while length <= max_width as u64
                invariant
                    cv.len() == limit,
                    lim == limit as nat,
                    mask@.len() == limit,
                    forall|j: int|
                        0 <= j < limit ==> #[trigger] mask@[j] == (spec_state(cv[j]) == BitState::Toggles),
                    ei < 2,
                    endianness_rank(e) == ei as int,
                    start < limit,
                    min_width <= length,
                    length <= max_width as u64 + 1 || length == min_width as u64,
                    progress(cv, lim, min_width, max_width, c@, ei as int, start as int, length as int, 0),
                    seen_view(seen@) == c@.map_values(|f: FieldSpec| field_key(f)),
                decreases max_width as u64 + 1 - length,
            {
                let unsigned = FieldSpec { start_bit: start, length: length as u32, endianness: e, signed: false };
                let ok = bits_toggle(&mask, limit, &unsigned, Ghost(cv));
                assert(ok == eligible(cv, lim, min_width, max_width, unsigned));
                if ok {
                    consider(&mut c, &mut seen, unsigned, Ghost(cv), Ghost(lim), min_width, max_width);
                    let signed = FieldSpec { start_bit: start, length: length as u32, endianness: e, signed: true };
                    assert(eligible(cv, lim, min_width, max_width, signed));
                    consider(&mut c, &mut seen, signed, Ghost(cv), Ghost(lim), min_width, max_width);
                } else {
                    proof {
                        assert forall|t: FieldSpec| #[trigger] eligible(cv, lim, min_width, max_width, t) implies (
                        before_pos(t, ei as int, start as int, length as int, 0) <==> before_pos(
                            t,
                            ei as int,
                            start as int,
                            length as int,
                            2,
                        )) by {
                            if endianness_rank(t.endianness) == ei as int && t.start_bit == start
                                && t.length == length {
                                assert(t.endianness == e);
                                assert(eligible(cv, lim, min_width, max_width, unsigned));
                            }
                        }
                        lemma_progress_same(
                            cv,
                            lim,
                            min_width,
                            max_width,
                            c@,
                            (ei as int, start as int, length as int, 0),
                            (ei as int, start as int, length as int, 2),
                        );
                    }
                }
                proof {
                    lemma_progress_same(
                        cv,
                        lim,
                        min_width,
                        max_width,
                        c@,
                        (ei as int, start as int, length as int, 2),
                        (ei as int, start as int, length + 1, 0),
                    );
                }
                length = length + 1;
            }
            proof {
                lemma_progress_same(
                    cv,
                    lim,
                    min_width,
                    max_width,
                    c@,
                    (ei as int, start as int, length as int, 0),
                    (ei as int, start + 1, min_width as int, 0),
                );
            }
            start = start + 1;
        }
        proof {
            lemma_progress_same(
                cv,
                lim,
                min_width,
                max_width,
                c@,
                (ei as int, limit as int, min_width as int, 0),
                (ei + 1, 0, min_width as int, 0),
            );
        }
        ei = ei + 1;
    }
    proof {
        assert forall|s: FieldSpec| #[trigger] first_of_key(cv, lim, min_width, max_width, s) implies c@.contains(s) by {
            assert(eligible(cv, lim, min_width, max_width, s));
            assert(before_pos(s, 2, 0, min_width as int, 0));
            assert(key_listed(c@, field_key(s)));
            let i = choose|i: int| 0 <= i < c@.len() && field_key(#[trigger] c@[i]) == field_key(s);
            lemma_first_unique(cv, lim, min_width, max_width, c@[i], s);
        }
    }
    c
}

} // verus!
