//! Rolling-counter proofs.
//!
//! A field is reported as a counter only when `raw[n+1] == (raw[n] + 1) mod 2^k`
//! holds for **every** consecutive frame pair of the ID and at least one wrap
//! was observed (so the modulus is actually exercised). A single violation —
//! including one caused by capture drops — kills the proof; that is deliberate.
use vstd::arithmetic::power2::*;
use vstd::bits::*;
use vstd::prelude::*;
use vstd::seq_lib::seq_to_set_is_finite;
use vstd::set_lib::*;

use crate::bits::{
    extract_raw, occupied_bits, occupied_bits_msb_first, spec_extract_raw, spec_msb_first,
    spec_occupied_bits, Endianness, FieldSpec,
};

verus! {

/// A proven rolling counter. All numbers are evidence, not extrapolation.
#[derive(Debug, Clone, Copy, PartialEq, Eq, Structural)]
pub struct CounterProof {
    pub field: FieldSpec,
    /// Consecutive frame pairs checked (= frames - 1). Every one satisfied +1 mod 2^k.
    pub transitions: u64,
    /// Observed wrap-arounds (2^k - 1 → 0).
    pub wraps: u64,
}

/// Raw value of the field in payload `k` (only meaningful when extractable).
pub open spec fn raw_at(payloads: Seq<Seq<u8>>, spec: FieldSpec, k: int) -> int {
    spec_extract_raw(payloads[k], spec).unwrap()
}

/// Every payload among the first `n` yields a value and each consecutive pair
/// satisfies `next == (prev + 1) mod 2^length`.
pub open spec fn counts_up(payloads: Seq<Seq<u8>>, spec: FieldSpec, n: int) -> bool {
    &&& forall|k: int| 0 <= k < n ==> (#[trigger] spec_extract_raw(payloads[k], spec)) is Some
    &&& forall|k: int|
        1 <= k < n ==> #[trigger] raw_at(payloads, spec, k) == (raw_at(payloads, spec, k - 1) + 1)
            % (pow2(spec.length as nat) as int)
}

/// Number of wraps (`value < previous value`) among the first `n` payloads.
pub open spec fn wraps_upto(payloads: Seq<Seq<u8>>, spec: FieldSpec, n: int) -> nat
    decreases n,
{
    if n <= 1 {
        0
    } else {
        wraps_upto(payloads, spec, n - 1) + if raw_at(payloads, spec, n - 1) < raw_at(
            payloads,
            spec,
            n - 2,
        ) {
            1nat
        } else {
            0nat
        }
    }
}

/// Result of checking one candidate field over all payloads.
pub open spec fn spec_verify_counter(
    payloads: Seq<Seq<u8>>,
    spec: FieldSpec,
    min_transitions: u64,
) -> Option<CounterProof> {
    let n = payloads.len() as int;
    let wraps = wraps_upto(payloads, spec, n);
    if !counts_up(payloads, spec, n) || wraps == 0 || n - 1 < min_transitions {
        None
    } else {
        Some(CounterProof { field: spec, transitions: (n - 1) as u64, wraps: wraps as u64 })
    }
}

/// A candidate is searched only over bits inside `bit_limit` that toggle.
pub open spec fn eligible(bits: Seq<u32>, toggle_mask: Seq<bool>, bit_limit: u32) -> bool {
    forall|k: int|
        0 <= k < bits.len() ==> (#[trigger] bits[k]) < bit_limit && bits[k] < toggle_mask.len()
            && toggle_mask[bits[k] as int]
}

/// Search state: MSB-first bit sequences already tried, and proofs found.
pub struct CounterScan {
    pub seen: Seq<Seq<u32>>,
    pub proofs: Seq<CounterProof>,
}

/// Consider one candidate field.
pub open spec fn scan_step(
    st: CounterScan,
    payloads: Seq<Seq<u8>>,
    toggle_mask: Seq<bool>,
    bit_limit: u32,
    min_transitions: u64,
    spec: FieldSpec,
) -> CounterScan {
    let bits = spec_occupied_bits(spec.start_bit, spec.length, spec.endianness);
    let key = spec_msb_first(spec);
    if !eligible(bits, toggle_mask, bit_limit) || st.seen.contains(key) {
        st
    } else {
        CounterScan {
            seen: st.seen.push(key),
            proofs: match spec_verify_counter(payloads, spec, min_transitions) {
                Some(p) => st.proofs.push(p),
                None => st.proofs,
            },
        }
    }
}

/// Lengths `2 .. 2 + n` at one start bit.
pub open spec fn scan_lengths(
    st: CounterScan,
    payloads: Seq<Seq<u8>>,
    toggle_mask: Seq<bool>,
    bit_limit: u32,
    min_transitions: u64,
    e: Endianness,
    start: u32,
    n: nat,
) -> CounterScan
    decreases n,
{
    if n == 0 {
        st
    } else {
        scan_step(
            scan_lengths(st, payloads, toggle_mask, bit_limit, min_transitions, e, start, (n - 1) as nat),
            payloads,
            toggle_mask,
            bit_limit,
            min_transitions,
            FieldSpec { start_bit: start, length: (n + 1) as u32, endianness: e, signed: false },
        )
    }
}

/// Widest field searched: `max_width`, capped at 63 bits (a raw value has
/// at most 63 bits; wider fields never extract).
pub open spec fn search_width(max_width: u32) -> u32 {
    if max_width > 63 {
        63
    } else {
        max_width
    }
}

/// Start bits `0 .. n`, each with lengths `2 ..= search_width(max_width)`.
pub open spec fn scan_starts(
    st: CounterScan,
    payloads: Seq<Seq<u8>>,
    toggle_mask: Seq<bool>,
    bit_limit: u32,
    max_width: u32,
    min_transitions: u64,
    e: Endianness,
    n: nat,
) -> CounterScan
    decreases n,
{
    if n == 0 {
        st
    } else {
        scan_lengths(
            scan_starts(st, payloads, toggle_mask, bit_limit, max_width, min_transitions, e, (n - 1) as nat),
            payloads,
            toggle_mask,
            bit_limit,
            min_transitions,
            e,
            (n - 1) as u32,
            if search_width(max_width) >= 2 {
                (search_width(max_width) - 1) as nat
            } else {
                0
            },
        )
    }
}

/// All candidates: Intel first, then Motorola.
pub open spec fn scan_all(
    payloads: Seq<Seq<u8>>,
    toggle_mask: Seq<bool>,
    bit_limit: u32,
    max_width: u32,
    min_transitions: u64,
) -> CounterScan {
    let init = CounterScan { seen: Seq::empty(), proofs: Seq::empty() };
    let intel = scan_starts(
        init,
        payloads,
        toggle_mask,
        bit_limit,
        max_width,
        min_transitions,
        Endianness::Intel,
        bit_limit as nat,
    );
    scan_starts(
        intel,
        payloads,
        toggle_mask,
        bit_limit,
        max_width,
        min_transitions,
        Endianness::Motorola,
        bit_limit as nat,
    )
}

/// Set of bits occupied by a proof's field.
pub open spec fn proof_bits(p: CounterProof) -> Set<u32> {
    spec_occupied_bits(p.field.start_bit, p.field.length, p.field.endianness).to_set()
}

/// Proof `i` occupies a strict subset of another proof's bits.
pub open spec fn dominated(proofs: Seq<CounterProof>, i: int) -> bool {
    exists|j: int|
        0 <= j < proofs.len() && j != i && proof_bits(proofs[i]).len() < proof_bits(
            proofs[j],
        ).len() && #[trigger] proof_bits(proofs[i]).subset_of(proof_bits(proofs[j]))
}

/// The proofs among the first `n` that no other proof dominates, in order.
pub open spec fn maximal_upto(proofs: Seq<CounterProof>, n: nat) -> Seq<CounterProof>
    decreases n,
{
    if n == 0 {
        Seq::empty()
    } else {
        let r = maximal_upto(proofs, (n - 1) as nat);
        if dominated(proofs, n - 1) {
            r
        } else {
            r.push(proofs[n - 1])
        }
    }
}

/// Everything `prove_counters` reports.
pub open spec fn spec_prove_counters(
    payloads: Seq<Seq<u8>>,
    toggle_mask: Seq<bool>,
    bit_limit: u32,
    max_width: u32,
    min_transitions: u64,
) -> Seq<CounterProof> {
    if payloads.len() < 2 {
        Seq::empty()
    } else {
        let found = scan_all(payloads, toggle_mask, bit_limit, max_width, min_transitions).proofs;
        maximal_upto(found, found.len())
    }
}

fn verify_counter(payloads: &[&[u8]], spec: &FieldSpec, min_transitions: u64) -> (r: Option<
    CounterProof,
>)
    requires
        payloads@.len() >= 2,
        2 <= spec.length <= 63,
        !spec.signed,
    ensures
        r == spec_verify_counter(payloads@.map_values(|p: &[u8]| p@), *spec, min_transitions),
{
    let ghost pv = payloads@.map_values(|p: &[u8]| p@);
    let len = spec.length;
    let modulus: u64 = 1u64 << (len as u64);
    proof {
        lemma_u64_pow2_no_overflow(len as nat);
        lemma_u64_shl_is_mul(1u64, len as u64);
        if len < 63 {
            lemma_pow2_strictly_increases(len as nat, 63);
        }
        lemma2_to64();
        lemma2_to64_rest();
    }
    assert(modulus == pow2(spec.length as nat));
    let mut wraps: u64 = 0;
    let mut transitions: u64 = 0;
    assert(pv[0] == payloads@[0]@);
    let first = extract_raw(payloads[0], spec);
    let mut prev: i64 = match first {
        Some(v) => v,
        None => {
            assert(!counts_up(pv, *spec, pv.len() as int));
            return None;
        },
    };
    proof {
        crate::bits::lemma_extract_range(pv[0], *spec);
    }
    let mut i: usize = 1;
    while i < payloads.len()
        invariant
            pv == payloads@.map_values(|p: &[u8]| p@),
            pv.len() >= 2,
            2 <= spec.length <= 63,
            !spec.signed,
            modulus == pow2(spec.length as nat),
            1 <= i <= pv.len(),
            counts_up(pv, *spec, i as int),
            prev == raw_at(pv, *spec, i - 1),
            0 <= prev < modulus,
            wraps as nat == wraps_upto(pv, *spec, i as int),
            wraps < i,
            transitions == i - 1,
        decreases payloads.len() - i,
    {
        assert(pv[i as int] == payloads@[i as int]@);
        let value = match extract_raw(payloads[i], spec) {
            Some(v) => v,
            None => {
                assert(!counts_up(pv, *spec, pv.len() as int));
                return None;
            },
        };
        proof {
            crate::bits::lemma_extract_range(pv[i as int], *spec);
        }
        if value as u64 != (prev as u64 + 1) % modulus {
            assert(raw_at(pv, *spec, i as int) != (raw_at(pv, *spec, i - 1) + 1) % (pow2(
                spec.length as nat,
            ) as int));
            assert(!counts_up(pv, *spec, pv.len() as int));
            return None;
        }
        if value < prev {
            wraps = wraps + 1;
        }
        transitions = transitions + 1;
        prev = value;
        i = i + 1;
    }
    if wraps == 0 || transitions < min_transitions {
        return None;
    }
    Some(CounterProof { field: *spec, transitions, wraps })
}

/// Bit sequence equality.
fn bits_eq(a: &Vec<u32>, b: &Vec<u32>) -> (r: bool)
    ensures
        r == (a@ == b@),
{
    if a.len() != b.len() {
        return false;
    }
    let mut i: usize = 0;
    while i < a.len()
        invariant
            a@.len() == b@.len(),
            i <= a@.len(),
            forall|k: int| 0 <= k < i ==> a@[k] == b@[k],
        decreases a.len() - i,
    {
        if a[i] != b[i] {
            return false;
        }
        i = i + 1;
    }
    assert(a@ =~= b@);
    true
}

fn seen_contains(seen: &Vec<Vec<u32>>, key: &Vec<u32>) -> (r: bool)
    ensures
        r == seen@.map_values(|v: Vec<u32>| v@).contains(key@),
{
    let ghost sv = seen@.map_values(|v: Vec<u32>| v@);
    let mut i: usize = 0;
    while i < seen.len()
        invariant
            sv == seen@.map_values(|v: Vec<u32>| v@),
            i <= seen@.len(),
            forall|k: int| 0 <= k < i ==> sv[k] != key@,
        decreases seen.len() - i,
    {
        assert(sv[i as int] == seen@[i as int]@);
        if bits_eq(&seen[i], key) {
            return true;
        }
        i = i + 1;
    }
    false
}

fn is_eligible(bits: &Vec<u32>, toggle_mask: &[bool], bit_limit: u32) -> (r: bool)
    ensures
        r == eligible(bits@, toggle_mask@, bit_limit),
{
    let mut i: usize = 0;
    while i < bits.len()
        invariant
            i <= bits@.len(),
            forall|k: int|
                0 <= k < i ==> (#[trigger] bits@[k]) < bit_limit && bits@[k] < toggle_mask@.len()
                    && toggle_mask@[bits@[k] as int],
        decreases bits.len() - i,
    {
        let b = bits[i];
        if b >= bit_limit || (b as usize) >= toggle_mask.len() || !toggle_mask[b as usize] {
            return false;
        }
        i = i + 1;
    }
    true
}

fn contains_bit(bits: &Vec<u32>, b: u32) -> (r: bool)
    ensures
        r == bits@.contains(b),
{
    let mut i: usize = 0;
    while i < bits.len()
        invariant
            i <= bits@.len(),
            forall|k: int| 0 <= k < i ==> bits@[k] != b,
        decreases bits.len() - i,
    {
        if bits[i] == b {
            return true;
        }
        i = i + 1;
    }
    false
}

/// Every element of `a` occurs in `b`.
fn all_in(a: &Vec<u32>, b: &Vec<u32>) -> (r: bool)
    ensures
        r == a@.to_set().subset_of(b@.to_set()),
{
    let mut i: usize = 0;
    while i < a.len()
        invariant
            i <= a@.len(),
            forall|k: int| 0 <= k < i ==> b@.contains(#[trigger] a@[k]),
        decreases a.len() - i,
    {
        if !contains_bit(b, a[i]) {
            assert(a@.to_set().contains(a@[i as int]));
            assert(!b@.to_set().contains(a@[i as int]));
            return false;
        }
        i = i + 1;
    }
    assert forall|x: u32| a@.to_set().contains(x) implies b@.to_set().contains(x) by {
        let k = choose|k: int| 0 <= k < a@.len() && a@[k] == x;
        assert(b@.contains(a@[k]));
    }
    true
}

proof fn lemma_strict_subset_len(a: Set<u32>, b: Set<u32>)
    requires
        a.finite(),
        b.finite(),
        a.subset_of(b),
    ensures
        (a.len() < b.len()) == !b.subset_of(a),
{
    lemma_len_subset(a, b);
    if !b.subset_of(a) {
        let x = choose|x: u32| b.contains(x) && !a.contains(x);
        assert(a.subset_of(b.remove(x)));
        lemma_len_subset(a, b.remove(x));
    } else {
        assert(a =~= b);
    }
}

/// Drop proofs whose occupied bits are a strict subset of another proof's bits
/// (a proven k-bit counter implies its low sub-fields).
fn retain_maximal(proofs: Vec<CounterProof>) -> (keep: Vec<CounterProof>)
    ensures
        keep@ == maximal_upto(proofs@, proofs@.len()),
{
    let mut bit_sets: Vec<Vec<u32>> = Vec::new();
    let mut i: usize = 0;
    while i < proofs.len()
        invariant
            i <= proofs@.len(),
            bit_sets@.len() == i,
            forall|k: int|
                0 <= k < i ==> (#[trigger] bit_sets@[k])@.to_set() == proof_bits(proofs@[k]),
        decreases proofs.len() - i,
    {
        let p = proofs[i];
        bit_sets.push(occupied_bits(p.field.start_bit, p.field.length, p.field.endianness));
        i = i + 1;
    }
    let mut keep: Vec<CounterProof> = Vec::new();
    let mut i: usize = 0;
    while i < proofs.len()
        invariant
            i <= proofs@.len(),
            bit_sets@.len() == proofs@.len(),
            forall|k: int|
                0 <= k < proofs@.len() ==> (#[trigger] bit_sets@[k])@.to_set() == proof_bits(
                    proofs@[k],
                ),
            keep@ == maximal_upto(proofs@, i as nat),
        decreases proofs.len() - i,
    {
        let mut dom = false;
        let mut j: usize = 0;
        while j < proofs.len()
            invariant
                i < proofs@.len(),
                j <= proofs@.len(),
                bit_sets@.len() == proofs@.len(),
                forall|k: int|
                    0 <= k < proofs@.len() ==> (#[trigger] bit_sets@[k])@.to_set() == proof_bits(
                        proofs@[k],
                    ),
                dom == exists|t: int|
                    0 <= t < j && t != i && proof_bits(proofs@[i as int]).len() < proof_bits(
                        proofs@[t],
                    ).len() && #[trigger] proof_bits(proofs@[i as int]).subset_of(
                        proof_bits(proofs@[t]),
                    ),
            decreases proofs.len() - j,
        {
            if j != i {
                let sub = all_in(&bit_sets[i], &bit_sets[j]);
                let sup = all_in(&bit_sets[j], &bit_sets[i]);
                proof {
                    let a = proof_bits(proofs@[i as int]);
                    let b = proof_bits(proofs@[j as int]);
                    assert(bit_sets@[i as int]@.to_set() == a);
                    assert(bit_sets@[j as int]@.to_set() == b);
                    seq_to_set_is_finite(bit_sets@[i as int]@);
                    seq_to_set_is_finite(bit_sets@[j as int]@);
                    if sub {
                        lemma_strict_subset_len(a, b);
                    }
                }
                if sub && !sup {
                    dom = true;
                }
            }
            j = j + 1;
        }
        if !dom {
            keep.push(proofs[i]);
        }
        i = i + 1;
    }
    keep
}

/// Scan all start bits and widths of one byte order, continuing `before`.
#[verifier::spinoff_prover]
#[verifier::rlimit(60)]
fn scan_endianness(
    payloads: &[&[u8]],
    toggle_mask: &[bool],
    bit_limit: u32,
    max_width: u32,
    min_transitions: u64,
    endianness: Endianness,
    seen: &mut Vec<Vec<u32>>,
    proofs: &mut Vec<CounterProof>,
    Ghost(before): Ghost<CounterScan>,
)
    requires
        payloads@.len() >= 2,
        old(seen)@.map_values(|v: Vec<u32>| v@) == before.seen,
        old(proofs)@ == before.proofs,
    ensures
        final(seen)@.map_values(|v: Vec<u32>| v@) == scan_starts(
            before,
            payloads@.map_values(|p: &[u8]| p@),
            toggle_mask@,
            bit_limit,
            max_width,
            min_transitions,
            endianness,
            bit_limit as nat,
        ).seen,
        final(proofs)@ == scan_starts(
            before,
            payloads@.map_values(|p: &[u8]| p@),
            toggle_mask@,
            bit_limit,
            max_width,
            min_transitions,
            endianness,
            bit_limit as nat,
        ).proofs,
{
    let ghost pv = payloads@.map_values(|p: &[u8]| p@);
    let ghost tm = toggle_mask@;
    let width: u32 = if max_width > 63 {
        63
    } else {
        max_width
    };
    let nlen: u32 = if width >= 2 {
        width - 1
    } else {
        0
    };
    let mut start_bit: u32 = 0;
    while start_bit < bit_limit
        invariant
            pv == payloads@.map_values(|p: &[u8]| p@),
            pv.len() >= 2,
            tm == toggle_mask@,
            nlen as nat == (if search_width(max_width) >= 2 {
                (search_width(max_width) - 1) as nat
            } else {
                0nat
            }),
            start_bit <= bit_limit,
            seen@.map_values(|v: Vec<u32>| v@) == scan_starts(
                before,
                pv,
                tm,
                bit_limit,
                max_width,
                min_transitions,
                endianness,
                start_bit as nat,
            ).seen,
            proofs@ == scan_starts(
                before,
                pv,
                tm,
                bit_limit,
                max_width,
                min_transitions,
                endianness,
                start_bit as nat,
            ).proofs,
        decreases bit_limit - start_bit,
    {
        let ghost at_start = scan_starts(
            before,
            pv,
            tm,
            bit_limit,
            max_width,
            min_transitions,
            endianness,
            start_bit as nat,
        );
        let mut l: u32 = 0;
        while l < nlen
            invariant
                pv == payloads@.map_values(|p: &[u8]| p@),
                pv.len() >= 2,
                tm == toggle_mask@,
                nlen <= 62,
                l <= nlen,
                seen@.map_values(|v: Vec<u32>| v@) == scan_lengths(
                    at_start,
                    pv,
                    tm,
                    bit_limit,
                    min_transitions,
                    endianness,
                    start_bit,
                    l as nat,
                ).seen,
                proofs@ == scan_lengths(
                    at_start,
                    pv,
                    tm,
                    bit_limit,
                    min_transitions,
                    endianness,
                    start_bit,
                    l as nat,
                ).proofs,
            decreases nlen - l,
        {
            let length = l + 2;
            let bits = occupied_bits(start_bit, length, endianness);
            let spec = FieldSpec { start_bit, length, endianness, signed: false };
            let ghost sv = seen@.map_values(|v: Vec<u32>| v@);
            if is_eligible(&bits, toggle_mask, bit_limit) {
                let key = occupied_bits_msb_first(&spec);
                if !seen_contains(seen, &key) {
                    seen.push(key);
                    assert(seen@.map_values(|v: Vec<u32>| v@) =~= sv.push(key@));
                    match verify_counter(payloads, &spec, min_transitions) {
                        Some(p) => proofs.push(p),
                        None => {},
                    }
                }
            }
            l = l + 1;
        }
        start_bit = start_bit + 1;
    }
}

/// What a reported counter satisfies: an unsigned field of
/// `2 ..= search_width(max_width)` bits, all inside `bit_limit` and toggling,
/// that passes the counter check (every pair `+1 mod 2^k`, at least one wrap,
/// enough transitions) with exactly that evidence.
pub open spec fn counting_field(
    payloads: Seq<Seq<u8>>,
    toggle_mask: Seq<bool>,
    bit_limit: u32,
    max_width: u32,
    min_transitions: u64,
    f: FieldSpec,
) -> bool {
    &&& !f.signed
    &&& 2 <= f.length <= search_width(max_width)
    &&& eligible(spec_occupied_bits(f.start_bit, f.length, f.endianness), toggle_mask, bit_limit)
    &&& spec_verify_counter(payloads, f, min_transitions) is Some
}

/// Enumerate candidate fields and keep those proven over all payloads.
///
/// `payloads` must be in capture order for one CAN ID. `toggle_mask[b]` is true
/// iff bit `b` changed at least once in the log; candidates are restricted to
/// spans of toggling bits. `bit_limit` bounds the payload area every frame is
/// known to cover (min DLC × 8). Only maximal proven spans are returned.
/// Widths up to `max_width` are searched, at most 63 bits (no wider field
/// extracts a value).
pub fn prove_counters(
    payloads: &[&[u8]],
    toggle_mask: &[bool],
    bit_limit: u32,
    max_width: u32,
    min_transitions: u64,
) -> (proofs: Vec<CounterProof>)
    ensures
        proofs@ == spec_prove_counters(
            payloads@.map_values(|p: &[u8]| p@),
            toggle_mask@,
            bit_limit,
            max_width,
            min_transitions,
        ),
        forall|k: int|
            0 <= k < proofs@.len() ==> counting_field(
                payloads@.map_values(|p: &[u8]| p@),
                toggle_mask@,
                bit_limit,
                max_width,
                min_transitions,
                (#[trigger] proofs@[k]).field,
            ) && spec_verify_counter(
                payloads@.map_values(|p: &[u8]| p@),
                proofs@[k].field,
                min_transitions,
            ) == Some(proofs@[k]),
        forall|i: int, j: int|
            0 <= i < proofs@.len() && 0 <= j < proofs@.len() ==> !strictly_inside(
                #[trigger] proofs@[i],
                #[trigger] proofs@[j],
            ),
        forall|f: FieldSpec|
            #![trigger spec_occupied_bits(f.start_bit, f.length, f.endianness)]
            counting_field(
                payloads@.map_values(|p: &[u8]| p@),
                toggle_mask@,
                bit_limit,
                max_width,
                min_transitions,
                f,
            ) ==> exists|k: int|
                0 <= k < proofs@.len() && spec_occupied_bits(
                    f.start_bit,
                    f.length,
                    f.endianness,
                ).to_set().subset_of(proof_bits(#[trigger] proofs@[k])),
{
    let proofs = search_counters(payloads, toggle_mask, bit_limit, max_width, min_transitions);
    let ghost pv = payloads@.map_values(|p: &[u8]| p@);
    let ghost tm = toggle_mask@;
    proof {
        let r = spec_prove_counters(pv, tm, bit_limit, max_width, min_transitions);
        assert forall|k: int| 0 <= k < r.len() implies counting_field(
            pv,
            tm,
            bit_limit,
            max_width,
            min_transitions,
            (#[trigger] r[k]).field,
        ) && spec_verify_counter(pv, r[k].field, min_transitions) == Some(r[k]) by {
            lemma_reported_counters_hold(pv, tm, bit_limit, max_width, min_transitions, k);
            lemma_reported_counter_checked(pv, tm, bit_limit, max_width, min_transitions, k);
        }
        assert forall|i: int, j: int| 0 <= i < r.len() && 0 <= j < r.len() implies !strictly_inside(
            #[trigger] r[i],
            #[trigger] r[j],
        ) by {
            lemma_reported_counters_are_maximal(pv, tm, bit_limit, max_width, min_transitions, i, j);
        }
        assert forall|f: FieldSpec|
            #![trigger spec_occupied_bits(f.start_bit, f.length, f.endianness)]
            counting_field(pv, tm, bit_limit, max_width, min_transitions, f) implies exists|k: int|
            0 <= k < r.len() && spec_occupied_bits(f.start_bit, f.length, f.endianness).to_set().subset_of(
                proof_bits(#[trigger] r[k]),
            ) by {
            lemma_proven_fields_are_reported(pv, tm, bit_limit, max_width, min_transitions, f);
        }
    }
    proofs
}

/// The scan behind `prove_counters`.
fn search_counters(
    payloads: &[&[u8]],
    toggle_mask: &[bool],
    bit_limit: u32,
    max_width: u32,
    min_transitions: u64,
) -> (proofs: Vec<CounterProof>)
    ensures
        proofs@ == spec_prove_counters(
            payloads@.map_values(|p: &[u8]| p@),
            toggle_mask@,
            bit_limit,
            max_width,
            min_transitions,
        ),
{
    let ghost pv = payloads@.map_values(|p: &[u8]| p@);
    if payloads.len() < 2 {
        return Vec::new();
    }
    let ghost tm = toggle_mask@;
    let mut proofs: Vec<CounterProof> = Vec::new();
    let mut seen: Vec<Vec<u32>> = Vec::new();
    let ghost init = CounterScan { seen: Seq::empty(), proofs: Seq::empty() };
    assert(seen@.map_values(|v: Vec<u32>| v@) =~= init.seen);
    scan_endianness(
        payloads,
        toggle_mask,
        bit_limit,
        max_width,
        min_transitions,
        Endianness::Intel,
        &mut seen,
        &mut proofs,
        Ghost(init),
    );
    let ghost intel = scan_starts(
        init,
        pv,
        tm,
        bit_limit,
        max_width,
        min_transitions,
        Endianness::Intel,
        bit_limit as nat,
    );
    scan_endianness(
        payloads,
        toggle_mask,
        bit_limit,
        max_width,
        min_transitions,
        Endianness::Motorola,
        &mut seen,
        &mut proofs,
        Ghost(intel),
    );
    retain_maximal(proofs)
}

/// A proof that passed the counter check, on an unsigned field of
/// `2 ..= width` bits whose bits are all searched.
pub open spec fn checked(
    p: CounterProof,
    payloads: Seq<Seq<u8>>,
    toggle_mask: Seq<bool>,
    bit_limit: u32,
    width: u32,
    min_transitions: u64,
) -> bool {
    &&& spec_verify_counter(payloads, p.field, min_transitions) == Some(p)
    &&& !p.field.signed
    &&& 2 <= p.field.length <= width
    &&& eligible(
        spec_occupied_bits(p.field.start_bit, p.field.length, p.field.endianness),
        toggle_mask,
        bit_limit,
    )
}

/// Every proof of the scan state is `checked`.
pub open spec fn all_checked(
    proofs: Seq<CounterProof>,
    payloads: Seq<Seq<u8>>,
    toggle_mask: Seq<bool>,
    bit_limit: u32,
    width: u32,
    min_transitions: u64,
) -> bool {
    forall|i: int|
        0 <= i < proofs.len() ==> checked(
            #[trigger] proofs[i],
            payloads,
            toggle_mask,
            bit_limit,
            width,
            min_transitions,
        )
}

proof fn lemma_scan_lengths_checked(
    st: CounterScan,
    payloads: Seq<Seq<u8>>,
    toggle_mask: Seq<bool>,
    bit_limit: u32,
    width: u32,
    min_transitions: u64,
    e: Endianness,
    start: u32,
    n: nat,
)
    requires
        all_checked(st.proofs, payloads, toggle_mask, bit_limit, width, min_transitions),
        n + 1 <= width || n == 0,
    ensures
        all_checked(
            scan_lengths(st, payloads, toggle_mask, bit_limit, min_transitions, e, start, n).proofs,
            payloads,
            toggle_mask,
            bit_limit,
            width,
            min_transitions,
        ),
    decreases n,
{
    if n > 0 {
        lemma_scan_lengths_checked(st, payloads, toggle_mask, bit_limit, width, min_transitions, e, start, (n - 1) as nat);
        let prev = scan_lengths(st, payloads, toggle_mask, bit_limit, min_transitions, e, start, (n - 1) as nat);
        let spec = FieldSpec { start_bit: start, length: (n + 1) as u32, endianness: e, signed: false };
        let next = scan_step(prev, payloads, toggle_mask, bit_limit, min_transitions, spec);
        assert forall|i: int| 0 <= i < next.proofs.len() implies checked(
            #[trigger] next.proofs[i],
            payloads,
            toggle_mask,
            bit_limit,
            width,
            min_transitions,
        ) by {
            if i < prev.proofs.len() {
                assert(next.proofs[i] == prev.proofs[i]);
            }
        }
    }
}

proof fn lemma_scan_starts_checked(
    st: CounterScan,
    payloads: Seq<Seq<u8>>,
    toggle_mask: Seq<bool>,
    bit_limit: u32,
    max_width: u32,
    min_transitions: u64,
    e: Endianness,
    n: nat,
)
    requires
        all_checked(st.proofs, payloads, toggle_mask, bit_limit, search_width(max_width), min_transitions),
    ensures
        all_checked(
            scan_starts(st, payloads, toggle_mask, bit_limit, max_width, min_transitions, e, n).proofs,
            payloads,
            toggle_mask,
            bit_limit,
            search_width(max_width),
            min_transitions,
        ),
    decreases n,
{
    if n > 0 {
        lemma_scan_starts_checked(st, payloads, toggle_mask, bit_limit, max_width, min_transitions, e, (n - 1) as nat);
        lemma_scan_lengths_checked(
            scan_starts(st, payloads, toggle_mask, bit_limit, max_width, min_transitions, e, (n - 1) as nat),
            payloads,
            toggle_mask,
            bit_limit,
            search_width(max_width),
            min_transitions,
            e,
            (n - 1) as u32,
            if search_width(max_width) >= 2 {
                (search_width(max_width) - 1) as nat
            } else {
                0
            },
        );
    }
}

proof fn lemma_scan_all_checked(
    payloads: Seq<Seq<u8>>,
    toggle_mask: Seq<bool>,
    bit_limit: u32,
    max_width: u32,
    min_transitions: u64,
)
    ensures
        all_checked(
            scan_all(payloads, toggle_mask, bit_limit, max_width, min_transitions).proofs,
            payloads,
            toggle_mask,
            bit_limit,
            search_width(max_width),
            min_transitions,
        ),
{
    let init = CounterScan { seen: Seq::empty(), proofs: Seq::empty() };
    let intel = scan_starts(
        init,
        payloads,
        toggle_mask,
        bit_limit,
        max_width,
        min_transitions,
        Endianness::Intel,
        bit_limit as nat,
    );
    lemma_scan_starts_checked(init, payloads, toggle_mask, bit_limit, max_width, min_transitions, Endianness::Intel, bit_limit as nat);
    lemma_scan_starts_checked(intel, payloads, toggle_mask, bit_limit, max_width, min_transitions, Endianness::Motorola, bit_limit as nat);
}

proof fn lemma_maximal_from(proofs: Seq<CounterProof>, n: nat, k: int)
    requires
        n <= proofs.len(),
        0 <= k < maximal_upto(proofs, n).len(),
    ensures
        exists|j: int|
            0 <= j < n && proofs[j] == maximal_upto(proofs, n)[k] && !dominated(proofs, j),
    decreases n,
{
    let r = maximal_upto(proofs, (n - 1) as nat);
    if k < r.len() {
        lemma_maximal_from(proofs, (n - 1) as nat, k);
        if !dominated(proofs, n - 1) {
            assert(maximal_upto(proofs, n)[k] == r[k]);
        }
    } else {
        assert(maximal_upto(proofs, n)[k] == proofs[n - 1]);
    }
}

proof fn lemma_checked_facts(payloads: Seq<Seq<u8>>, p: CounterProof, min_transitions: u64)
    requires
        spec_verify_counter(payloads, p.field, min_transitions) == Some(p),
    ensures
        counts_up(payloads, p.field, payloads.len() as int),
        wraps_upto(payloads, p.field, payloads.len() as int) >= 1,
        p.wraps == wraps_upto(payloads, p.field, payloads.len() as int) as u64,
        p.transitions == (payloads.len() - 1) as u64,
        payloads.len() - 1 >= min_transitions,
{
}

/// A reported counter is an unsigned field of `2 ..= search_width(max_width)`
/// bits, all inside `bit_limit` and toggling; it satisfies
/// `next == (prev + 1) mod 2^k` on every consecutive pair of payloads and
/// wrapped at least once; its transitions are the frames − 1, at least the
/// minimum, and its wraps those observed.
pub proof fn lemma_reported_counters_hold(
    payloads: Seq<Seq<u8>>,
    toggle_mask: Seq<bool>,
    bit_limit: u32,
    max_width: u32,
    min_transitions: u64,
    k: int,
)
    requires
        0 <= k < spec_prove_counters(payloads, toggle_mask, bit_limit, max_width, min_transitions).len(),
    ensures
        ({
            let p = spec_prove_counters(payloads, toggle_mask, bit_limit, max_width, min_transitions)[k];
            &&& !p.field.signed
            &&& 2 <= p.field.length <= search_width(max_width)
            &&& eligible(
                spec_occupied_bits(p.field.start_bit, p.field.length, p.field.endianness),
                toggle_mask,
                bit_limit,
            )
            &&& counts_up(payloads, p.field, payloads.len() as int)
            &&& wraps_upto(payloads, p.field, payloads.len() as int) >= 1
            &&& p.wraps == wraps_upto(payloads, p.field, payloads.len() as int) as u64
            &&& p.transitions == (payloads.len() - 1) as u64
            &&& payloads.len() - 1 >= min_transitions
        }),
{
    let r = spec_prove_counters(payloads, toggle_mask, bit_limit, max_width, min_transitions);
    let found = scan_all(payloads, toggle_mask, bit_limit, max_width, min_transitions).proofs;
    lemma_scan_all_checked(payloads, toggle_mask, bit_limit, max_width, min_transitions);
    assert(r == maximal_upto(found, found.len()));
    lemma_maximal_from(found, found.len(), k);
    let j = choose|j: int|
        0 <= j < found.len() && found[j] == maximal_upto(found, found.len())[k] && !dominated(found, j);
    assert(checked(found[j], payloads, toggle_mask, bit_limit, search_width(max_width), min_transitions));
    lemma_checked_facts(payloads, found[j], min_transitions);
}

/// `a` occupies a strict subset of the bits of `b`.
pub open spec fn strictly_inside(a: CounterProof, b: CounterProof) -> bool {
    proof_bits(a).subset_of(proof_bits(b)) && !proof_bits(b).subset_of(proof_bits(a))
}

proof fn lemma_proof_bits_finite(p: CounterProof)
    ensures
        proof_bits(p).finite(),
{
    seq_to_set_is_finite(spec_occupied_bits(p.field.start_bit, p.field.length, p.field.endianness));
}

/// Only maximal spans are reported: no reported counter occupies a strict
/// subset of another reported counter's bits.
pub proof fn lemma_reported_counters_are_maximal(
    payloads: Seq<Seq<u8>>,
    toggle_mask: Seq<bool>,
    bit_limit: u32,
    max_width: u32,
    min_transitions: u64,
    i: int,
    j: int,
)
    requires
        0 <= i < spec_prove_counters(payloads, toggle_mask, bit_limit, max_width, min_transitions).len(),
        0 <= j < spec_prove_counters(payloads, toggle_mask, bit_limit, max_width, min_transitions).len(),
    ensures
        !strictly_inside(
            spec_prove_counters(payloads, toggle_mask, bit_limit, max_width, min_transitions)[i],
            spec_prove_counters(payloads, toggle_mask, bit_limit, max_width, min_transitions)[j],
        ),
{
    let r = spec_prove_counters(payloads, toggle_mask, bit_limit, max_width, min_transitions);
    let found = scan_all(payloads, toggle_mask, bit_limit, max_width, min_transitions).proofs;
    assert(r == maximal_upto(found, found.len()));
    lemma_maximal_from(found, found.len(), i);
    let a = choose|a: int|
        0 <= a < found.len() && found[a] == maximal_upto(found, found.len())[i] && !dominated(found, a);
    lemma_maximal_from(found, found.len(), j);
    let b = choose|b: int|
        0 <= b < found.len() && found[b] == maximal_upto(found, found.len())[j] && !dominated(found, b);
    if strictly_inside(r[i], r[j]) {
        lemma_proof_bits_finite(found[a]);
        lemma_proof_bits_finite(found[b]);
        lemma_strict_subset_len(proof_bits(found[a]), proof_bits(found[b]));
        assert(a != b);
        assert(proof_bits(found[a]).subset_of(proof_bits(found[b])));
        assert(dominated(found, a));
    }
}

/// A searched field at `start` of `length` bits has its MSB-first bit
/// sequence among those tried, whenever its bits are searched.
pub open spec fn covered(
    seen: Seq<Seq<u32>>,
    toggle_mask: Seq<bool>,
    bit_limit: u32,
    e: Endianness,
    start: u32,
    length: u32,
) -> bool {
    eligible(spec_occupied_bits(start, length, e), toggle_mask, bit_limit) ==> seen.contains(
        spec_msb_first(FieldSpec { start_bit: start, length, endianness: e, signed: false }),
    )
}

proof fn lemma_push_keeps<A>(s: Seq<A>, x: A, y: A)
    requires
        s.contains(y),
    ensures
        s.push(x).contains(y),
{
    let i = choose|i: int| 0 <= i < s.len() && s[i] == y;
    assert(s.push(x)[i] == y);
}

proof fn lemma_push_has<A>(s: Seq<A>, x: A)
    ensures
        s.push(x).contains(x),
{
    assert(s.push(x)[s.len() as int] == x);
}

proof fn lemma_push_from<A>(s: Seq<A>, x: A, y: A)
    requires
        s.push(x).contains(y),
    ensures
        s.contains(y) || y == x,
{
    let i = choose|i: int| 0 <= i < s.push(x).len() && s.push(x)[i] == y;
    if i < s.len() {
        assert(s[i] == y);
    }
}

proof fn lemma_scan_lengths_covers(
    st: CounterScan,
    payloads: Seq<Seq<u8>>,
    toggle_mask: Seq<bool>,
    bit_limit: u32,
    min_transitions: u64,
    e: Endianness,
    start: u32,
    n: nat,
)
    requires
        n + 1 <= u32::MAX,
    ensures
        forall|key: Seq<u32>|
            st.seen.contains(key) ==> #[trigger] scan_lengths(
                st,
                payloads,
                toggle_mask,
                bit_limit,
                min_transitions,
                e,
                start,
                n,
            ).seen.contains(key),
        forall|l: u32|
            2 <= l <= n + 1 ==> #[trigger] covered(
                scan_lengths(st, payloads, toggle_mask, bit_limit, min_transitions, e, start, n).seen,
                toggle_mask,
                bit_limit,
                e,
                start,
                l,
            ),
    decreases n,
{
    if n > 0 {
        lemma_scan_lengths_covers(st, payloads, toggle_mask, bit_limit, min_transitions, e, start, (n - 1) as nat);
        let prev = scan_lengths(st, payloads, toggle_mask, bit_limit, min_transitions, e, start, (n - 1) as nat);
        let spec = FieldSpec { start_bit: start, length: (n + 1) as u32, endianness: e, signed: false };
        let next = scan_step(prev, payloads, toggle_mask, bit_limit, min_transitions, spec);
        let key = spec_msb_first(spec);
        assert forall|k: Seq<u32>| prev.seen.contains(k) implies next.seen.contains(k) by {
            if next.seen != prev.seen {
                lemma_push_keeps(prev.seen, key, k);
            }
        }
        assert forall|k: Seq<u32>| st.seen.contains(k) implies next.seen.contains(k) by {
            assert(prev.seen.contains(k));
        }
        assert forall|l: u32| 2 <= l <= n + 1 implies #[trigger] covered(
            next.seen,
            toggle_mask,
            bit_limit,
            e,
            start,
            l,
        ) by {
            if l <= n {
                assert(covered(prev.seen, toggle_mask, bit_limit, e, start, l));
                let kl = spec_msb_first(FieldSpec { start_bit: start, length: l, endianness: e, signed: false });
                if eligible(spec_occupied_bits(start, l, e), toggle_mask, bit_limit) {
                    assert(prev.seen.contains(kl));
                }
            } else {
                assert(l == spec.length);
                if eligible(spec_occupied_bits(start, l, e), toggle_mask, bit_limit) && !prev.seen.contains(key) {
                    lemma_push_has(prev.seen, key);
                }
            }
        }
    }
}

proof fn lemma_scan_starts_covers(
    st: CounterScan,
    payloads: Seq<Seq<u8>>,
    toggle_mask: Seq<bool>,
    bit_limit: u32,
    max_width: u32,
    min_transitions: u64,
    e: Endianness,
    n: nat,
)
    requires
        n <= u32::MAX,
    ensures
        forall|key: Seq<u32>|
            st.seen.contains(key) ==> #[trigger] scan_starts(
                st,
                payloads,
                toggle_mask,
                bit_limit,
                max_width,
                min_transitions,
                e,
                n,
            ).seen.contains(key),
        forall|s: u32, l: u32|
            s < n && 2 <= l <= search_width(max_width) ==> #[trigger] covered(
                scan_starts(st, payloads, toggle_mask, bit_limit, max_width, min_transitions, e, n).seen,
                toggle_mask,
                bit_limit,
                e,
                s,
                l,
            ),
    decreases n,
{
    if n > 0 {
        lemma_scan_starts_covers(st, payloads, toggle_mask, bit_limit, max_width, min_transitions, e, (n - 1) as nat);
        let prev = scan_starts(st, payloads, toggle_mask, bit_limit, max_width, min_transitions, e, (n - 1) as nat);
        let nlen: nat = if search_width(max_width) >= 2 {
            (search_width(max_width) - 1) as nat
        } else {
            0
        };
        lemma_scan_lengths_covers(prev, payloads, toggle_mask, bit_limit, min_transitions, e, (n - 1) as u32, nlen);
        let next = scan_lengths(prev, payloads, toggle_mask, bit_limit, min_transitions, e, (n - 1) as u32, nlen);
        assert(next == scan_starts(st, payloads, toggle_mask, bit_limit, max_width, min_transitions, e, n));
        assert forall|k: Seq<u32>| st.seen.contains(k) implies next.seen.contains(k) by {
            assert(prev.seen.contains(k));
        }
        assert forall|s: u32, l: u32| s < n && 2 <= l <= search_width(max_width) implies #[trigger] covered(
            next.seen,
            toggle_mask,
            bit_limit,
            e,
            s,
            l,
        ) by {
            if s < n - 1 {
                assert(covered(prev.seen, toggle_mask, bit_limit, e, s, l));
                let kl = spec_msb_first(FieldSpec { start_bit: s, length: l, endianness: e, signed: false });
                if eligible(spec_occupied_bits(s, l, e), toggle_mask, bit_limit) {
                    assert(prev.seen.contains(kl));
                }
            } else {
                assert(covered(next.seen, toggle_mask, bit_limit, e, (n - 1) as u32, l));
            }
        }
    }
}

/// Field `g` was tried under the key `key`, and its proof, if any, was kept.
pub open spec fn backs(
    proofs: Seq<CounterProof>,
    payloads: Seq<Seq<u8>>,
    toggle_mask: Seq<bool>,
    bit_limit: u32,
    width: u32,
    min_transitions: u64,
    g: FieldSpec,
    key: Seq<u32>,
) -> bool {
    &&& !g.signed
    &&& 2 <= g.length <= width
    &&& eligible(spec_occupied_bits(g.start_bit, g.length, g.endianness), toggle_mask, bit_limit)
    &&& spec_msb_first(g) == key
    &&& (key.len() == g.length || key.len() < 2)
    &&& (spec_verify_counter(payloads, g, min_transitions) is Some ==> proofs.contains(
        spec_verify_counter(payloads, g, min_transitions).unwrap(),
    ))
}

/// Every key tried so far was tried for a field that `backs` it.
pub open spec fn all_backed(
    st: CounterScan,
    payloads: Seq<Seq<u8>>,
    toggle_mask: Seq<bool>,
    bit_limit: u32,
    width: u32,
    min_transitions: u64,
) -> bool {
    forall|key: Seq<u32>|
        #[trigger] st.seen.contains(key) ==> exists|g: FieldSpec|
            backs(st.proofs, payloads, toggle_mask, bit_limit, width, min_transitions, g, key)
}

proof fn lemma_scan_lengths_backed(
    st: CounterScan,
    payloads: Seq<Seq<u8>>,
    toggle_mask: Seq<bool>,
    bit_limit: u32,
    width: u32,
    min_transitions: u64,
    e: Endianness,
    start: u32,
    n: nat,
)
    requires
        all_backed(st, payloads, toggle_mask, bit_limit, width, min_transitions),
        n + 1 <= width || n == 0,
        width <= 63,
    ensures
        all_backed(
            scan_lengths(st, payloads, toggle_mask, bit_limit, min_transitions, e, start, n),
            payloads,
            toggle_mask,
            bit_limit,
            width,
            min_transitions,
        ),
    decreases n,
{
    if n > 0 {
        lemma_scan_lengths_backed(st, payloads, toggle_mask, bit_limit, width, min_transitions, e, start, (n - 1) as nat);
        let prev = scan_lengths(st, payloads, toggle_mask, bit_limit, min_transitions, e, start, (n - 1) as nat);
        let spec = FieldSpec { start_bit: start, length: (n + 1) as u32, endianness: e, signed: false };
        let next = scan_step(prev, payloads, toggle_mask, bit_limit, min_transitions, spec);
        let key = spec_msb_first(spec);
        lemma_key_bits(spec);
        crate::bits::lemma_occupied_len(start, (n + 1) as u32, e);
        if key.len() != n + 1 && key.len() >= 2 && next.seen != prev.seen {
            // A field cut short at the top of the bit range has the bits of
            // the shorter field at the same start, tried before it.
            let m = key.len();
            let short = FieldSpec { start_bit: start, length: m as u32, endianness: e, signed: false };
            assert(e == Endianness::Intel);
            assert(spec_occupied_bits(start, m as u32, e) =~= spec_occupied_bits(start, (n + 1) as u32, e));
            lemma_scan_lengths_covers(st, payloads, toggle_mask, bit_limit, min_transitions, e, start, (n - 1) as nat);
            assert(covered(prev.seen, toggle_mask, bit_limit, e, start, m as u32));
            assert(spec_msb_first(short) == key);
            assert(prev.seen.contains(key));
        }
        assert forall|k: Seq<u32>| #[trigger] next.seen.contains(k) implies exists|g: FieldSpec|
            backs(next.proofs, payloads, toggle_mask, bit_limit, width, min_transitions, g, k) by {
            if next.seen == prev.seen {
                assert(next == prev);
            } else {
                lemma_push_from(prev.seen, key, k);
                if prev.seen.contains(k) {
                    let g = choose|g: FieldSpec|
                        backs(prev.proofs, payloads, toggle_mask, bit_limit, width, min_transitions, g, k);
                    let v = spec_verify_counter(payloads, g, min_transitions);
                    if v is Some && next.proofs != prev.proofs {
                        lemma_push_keeps(prev.proofs, spec_verify_counter(payloads, spec, min_transitions).unwrap(), v.unwrap());
                    }
                    assert(backs(next.proofs, payloads, toggle_mask, bit_limit, width, min_transitions, g, k));
                } else {
                    let v = spec_verify_counter(payloads, spec, min_transitions);
                    if v is Some {
                        lemma_push_has(prev.proofs, v.unwrap());
                    }
                    assert(backs(next.proofs, payloads, toggle_mask, bit_limit, width, min_transitions, spec, k));
                }
            }
        }
    }
}

proof fn lemma_scan_starts_backed(
    st: CounterScan,
    payloads: Seq<Seq<u8>>,
    toggle_mask: Seq<bool>,
    bit_limit: u32,
    max_width: u32,
    min_transitions: u64,
    e: Endianness,
    n: nat,
)
    requires
        all_backed(st, payloads, toggle_mask, bit_limit, search_width(max_width), min_transitions),
    ensures
        all_backed(
            scan_starts(st, payloads, toggle_mask, bit_limit, max_width, min_transitions, e, n),
            payloads,
            toggle_mask,
            bit_limit,
            search_width(max_width),
            min_transitions,
        ),
    decreases n,
{
    if n > 0 {
        lemma_scan_starts_backed(st, payloads, toggle_mask, bit_limit, max_width, min_transitions, e, (n - 1) as nat);
        lemma_scan_lengths_backed(
            scan_starts(st, payloads, toggle_mask, bit_limit, max_width, min_transitions, e, (n - 1) as nat),
            payloads,
            toggle_mask,
            bit_limit,
            search_width(max_width),
            min_transitions,
            e,
            (n - 1) as u32,
            if search_width(max_width) >= 2 {
                (search_width(max_width) - 1) as nat
            } else {
                0
            },
        );
    }
}

proof fn lemma_key_bits(f: FieldSpec)
    ensures
        spec_msb_first(f).len() == spec_occupied_bits(f.start_bit, f.length, f.endianness).len(),
        spec_msb_first(f).to_set() == spec_occupied_bits(f.start_bit, f.length, f.endianness).to_set(),
{
    let b = spec_occupied_bits(f.start_bit, f.length, f.endianness);
    if f.endianness == Endianness::Intel {
        let r = b.reverse();
        assert forall|x: u32| r.to_set().contains(x) implies b.to_set().contains(x) by {
            let i = choose|i: int| 0 <= i < r.len() && r[i] == x;
            assert(b[b.len() - 1 - i] == x);
        }
        assert forall|x: u32| b.to_set().contains(x) implies r.to_set().contains(x) by {
            let i = choose|i: int| 0 <= i < b.len() && b[i] == x;
            assert(r[b.len() - 1 - i] == x);
        }
        assert(r.to_set() =~= b.to_set());
    }
}

/// A field that passes the counter check has at least two payloads and
/// occupies at least one bit.
proof fn lemma_verified_shape(payloads: Seq<Seq<u8>>, f: FieldSpec, min_transitions: u64)
    requires
        spec_verify_counter(payloads, f, min_transitions) is Some,
        2 <= f.length,
    ensures
        payloads.len() >= 2,
        spec_occupied_bits(f.start_bit, f.length, f.endianness).len() > 0,
{
    let n = payloads.len() as int;
    assert(n >= 2) by {
        if n <= 1 {
            assert(wraps_upto(payloads, f, n) == 0);
        }
    }
    lemma_key_bits(f);
    if spec_occupied_bits(f.start_bit, f.length, f.endianness).len() == 0 {
        assert(counts_up(payloads, f, n));
        assert(spec_extract_raw(payloads[0], f) is Some);
        assert(spec_extract_raw(payloads[1], f) is Some);
        assert(spec_msb_first(f) =~= Seq::<u32>::empty());
        assert(crate::bits::assemble(payloads[0], spec_msb_first(f)) == 0);
        assert(crate::bits::assemble(payloads[1], spec_msb_first(f)) == 0);
        assert(raw_at(payloads, f, 1) == (raw_at(payloads, f, 0) + 1) % (pow2(f.length as nat) as int));
        lemma2_to64();
        lemma_pow2_strictly_increases(0, f.length as nat);
        vstd::arithmetic::div_mod::lemma_small_mod(1, pow2(f.length as nat));
    }
}

proof fn lemma_some_wrap(payloads: Seq<Seq<u8>>, f: FieldSpec, n: int)
    requires
        wraps_upto(payloads, f, n) >= 1,
    ensures
        exists|k: int| 1 <= k < n && #[trigger] raw_at(payloads, f, k) < raw_at(payloads, f, k - 1),
    decreases n,
{
    if n > 1 {
        if raw_at(payloads, f, n - 1) < raw_at(payloads, f, n - 2) {
            assert(raw_at(payloads, f, n - 1) < raw_at(payloads, f, (n - 1) - 1));
        } else {
            lemma_some_wrap(payloads, f, n - 1);
            let k = choose|k: int| 1 <= k < n - 1 && #[trigger] raw_at(payloads, f, k) < raw_at(payloads, f, k - 1);
            assert(raw_at(payloads, f, k) < raw_at(payloads, f, k - 1));
        }
    }
}

/// A field that passes the counter check wrapped, so it reached
/// `2^length - 1`: it occupies all `length` of its bits.
proof fn lemma_verified_full_width(payloads: Seq<Seq<u8>>, f: FieldSpec, min_transitions: u64)
    requires
        spec_verify_counter(payloads, f, min_transitions) is Some,
        !f.signed,
    ensures
        spec_occupied_bits(f.start_bit, f.length, f.endianness).len() == f.length,
{
    let n = payloads.len() as int;
    lemma_some_wrap(payloads, f, n);
    let k = choose|k: int| 1 <= k < n && #[trigger] raw_at(payloads, f, k) < raw_at(payloads, f, k - 1);
    assert(counts_up(payloads, f, n));
    assert(spec_extract_raw(payloads[k - 1], f) is Some);
    assert(spec_extract_raw(payloads[k], f) is Some);
    let prev = raw_at(payloads, f, k - 1);
    let m = pow2(f.length as nat);
    assert(raw_at(payloads, f, k) == (prev + 1) % (m as int));
    crate::bits::lemma_extract_range(payloads[k - 1], f);
    let key = spec_msb_first(f);
    crate::bits::lemma_assemble_bound(payloads[k - 1], key);
    assert(prev == crate::bits::assemble(payloads[k - 1], key));
    lemma_key_bits(f);
    crate::bits::lemma_occupied_len(f.start_bit, f.length, f.endianness);
    if prev + 1 < m {
        vstd::arithmetic::div_mod::lemma_small_mod((prev + 1) as nat, m);
    }
    assert(prev + 1 >= m);
    if key.len() < f.length {
        lemma_pow2_strictly_increases(key.len(), f.length as nat);
    }
}

proof fn lemma_wraps_same(payloads: Seq<Seq<u8>>, f: FieldSpec, g: FieldSpec, n: int)
    requires
        forall|k: int| 0 <= k < payloads.len() ==> #[trigger] raw_at(payloads, f, k) == raw_at(payloads, g, k),
        n <= payloads.len(),
    ensures
        wraps_upto(payloads, f, n) == wraps_upto(payloads, g, n),
    decreases n,
{
    if n > 1 {
        lemma_wraps_same(payloads, f, g, n - 1);
        assert(raw_at(payloads, f, n - 1) == raw_at(payloads, g, n - 1));
        assert(raw_at(payloads, f, n - 2) == raw_at(payloads, g, n - 2));
    }
}

proof fn lemma_same_raws(payloads: Seq<Seq<u8>>, f: FieldSpec, g: FieldSpec)
    requires
        spec_msb_first(f) == spec_msb_first(g),
        f.length == g.length,
        f.signed == g.signed,
    ensures
        forall|k: int|
            0 <= k < payloads.len() ==> #[trigger] spec_extract_raw(payloads[k], f) == spec_extract_raw(
                payloads[k],
                g,
            ),
{
    assert forall|k: int| 0 <= k < payloads.len() implies #[trigger] spec_extract_raw(payloads[k], f)
        == spec_extract_raw(payloads[k], g) by {
        crate::bits::lemma_same_bits_same_value(payloads[k], f, g);
    }
}

/// Two fields with the same MSB-first bits, length and signedness pass or
/// fail the counter check together.
proof fn lemma_same_key_same_verdict(payloads: Seq<Seq<u8>>, f: FieldSpec, g: FieldSpec, min_transitions: u64)
    requires
        spec_msb_first(f) == spec_msb_first(g),
        f.length == g.length,
        f.signed == g.signed,
    ensures
        spec_verify_counter(payloads, f, min_transitions) is Some ==> spec_verify_counter(
            payloads,
            g,
            min_transitions,
        ) is Some,
{
    let n = payloads.len() as int;
    lemma_same_raws(payloads, f, g);
    assert forall|k: int| 0 <= k < payloads.len() implies #[trigger] raw_at(payloads, f, k) == raw_at(
        payloads,
        g,
        k,
    ) by {
        assert(spec_extract_raw(payloads[k], f) == spec_extract_raw(payloads[k], g));
    }
    lemma_wraps_same(payloads, f, g, n);
    if counts_up(payloads, f, n) {
        assert forall|k: int| 0 <= k < n implies (#[trigger] spec_extract_raw(payloads[k], g)) is Some by {
            assert(spec_extract_raw(payloads[k], f) == spec_extract_raw(payloads[k], g));
        }
        assert forall|k: int| 1 <= k < n implies #[trigger] raw_at(payloads, g, k) == (raw_at(
            payloads,
            g,
            k - 1,
        ) + 1) % (pow2(g.length as nat) as int) by {
            assert(raw_at(payloads, f, k) == (raw_at(payloads, f, k - 1) + 1) % (pow2(f.length as nat) as int));
            assert(raw_at(payloads, f, k) == raw_at(payloads, g, k));
            assert(raw_at(payloads, f, k - 1) == raw_at(payloads, g, k - 1));
        }
        assert(counts_up(payloads, g, n));
    }
}

proof fn lemma_in_maximal(proofs: Seq<CounterProof>, n: nat, j: int)
    requires
        n <= proofs.len(),
        0 <= j < n,
        !dominated(proofs, j),
    ensures
        exists|k: int| 0 <= k < maximal_upto(proofs, n).len() && maximal_upto(proofs, n)[k] == proofs[j],
    decreases n,
{
    let r = maximal_upto(proofs, (n - 1) as nat);
    let m = maximal_upto(proofs, n);
    if j < n - 1 {
        lemma_in_maximal(proofs, (n - 1) as nat, j);
        let k = choose|k: int| 0 <= k < r.len() && r[k] == proofs[j];
        if dominated(proofs, n - 1) {
            assert(m == r);
        } else {
            assert(m == r.push(proofs[n - 1]));
            assert(m[k] == r[k]);
        }
        assert(0 <= k < m.len() && m[k] == proofs[j]);
    } else {
        assert(m == r.push(proofs[j]));
        assert(m[r.len() as int] == proofs[j]);
    }
}

/// Bits inside a found proof are inside some maximal one: follow strictly
/// larger supersets until none is left.
proof fn lemma_reach_maximal(proofs: Seq<CounterProof>, j: int, target: Set<u32>)
    requires
        0 <= j < proofs.len(),
        forall|i: int| 0 <= i < proofs.len() ==> (#[trigger] proofs[i]).field.length <= 63,
        target.subset_of(proof_bits(proofs[j])),
    ensures
        exists|k: int|
            0 <= k < maximal_upto(proofs, proofs.len()).len() && target.subset_of(
                proof_bits(#[trigger] maximal_upto(proofs, proofs.len())[k]),
            ),
    decreases 64 - proof_bits(proofs[j]).len(),
{
    let bj = spec_occupied_bits(proofs[j].field.start_bit, proofs[j].field.length, proofs[j].field.endianness);
    bj.lemma_cardinality_of_set();
    crate::bits::lemma_occupied_len(proofs[j].field.start_bit, proofs[j].field.length, proofs[j].field.endianness);
    if dominated(proofs, j) {
        let t = choose|t: int|
            0 <= t < proofs.len() && t != j && proof_bits(proofs[j]).len() < proof_bits(proofs[t]).len()
                && #[trigger] proof_bits(proofs[j]).subset_of(proof_bits(proofs[t]));
        let bt = spec_occupied_bits(proofs[t].field.start_bit, proofs[t].field.length, proofs[t].field.endianness);
        bt.lemma_cardinality_of_set();
        crate::bits::lemma_occupied_len(proofs[t].field.start_bit, proofs[t].field.length, proofs[t].field.endianness);
        assert(proofs[t].field.length <= 63);
        lemma_reach_maximal(proofs, t, target);
    } else {
        lemma_in_maximal(proofs, proofs.len(), j);
        let k = choose|k: int|
            0 <= k < maximal_upto(proofs, proofs.len()).len() && maximal_upto(proofs, proofs.len())[k] == proofs[j];
        assert(target.subset_of(proof_bits(maximal_upto(proofs, proofs.len())[k])));
    }
}

/// The MSB-first bits of every searched unsigned field inside `bit_limit` are tried.
proof fn lemma_searched_key_tried(
    payloads: Seq<Seq<u8>>,
    toggle_mask: Seq<bool>,
    bit_limit: u32,
    max_width: u32,
    min_transitions: u64,
    f: FieldSpec,
)
    requires
        !f.signed,
        2 <= f.length <= search_width(max_width),
        f.start_bit < bit_limit,
        eligible(spec_occupied_bits(f.start_bit, f.length, f.endianness), toggle_mask, bit_limit),
    ensures
        scan_all(payloads, toggle_mask, bit_limit, max_width, min_transitions).seen.contains(spec_msb_first(f)),
{
    let init = CounterScan { seen: Seq::empty(), proofs: Seq::empty() };
    let intel = scan_starts(init, payloads, toggle_mask, bit_limit, max_width, min_transitions, Endianness::Intel, bit_limit as nat);
    let all = scan_all(payloads, toggle_mask, bit_limit, max_width, min_transitions);
    assert(all == scan_starts(intel, payloads, toggle_mask, bit_limit, max_width, min_transitions, Endianness::Motorola, bit_limit as nat));
    lemma_scan_starts_covers(init, payloads, toggle_mask, bit_limit, max_width, min_transitions, Endianness::Intel, bit_limit as nat);
    lemma_scan_starts_covers(intel, payloads, toggle_mask, bit_limit, max_width, min_transitions, Endianness::Motorola, bit_limit as nat);
    let fu = FieldSpec { start_bit: f.start_bit, length: f.length, endianness: f.endianness, signed: false };
    assert(fu == f);
    if f.endianness == Endianness::Intel {
        assert(covered(intel.seen, toggle_mask, bit_limit, Endianness::Intel, f.start_bit, f.length));
        assert(intel.seen.contains(spec_msb_first(f)));
    } else {
        assert(covered(all.seen, toggle_mask, bit_limit, Endianness::Motorola, f.start_bit, f.length));
    }
}

/// A searched field that passes the counter check has its bits exactly
/// covered by one of the proofs found.
proof fn lemma_proven_field_found(
    payloads: Seq<Seq<u8>>,
    toggle_mask: Seq<bool>,
    bit_limit: u32,
    max_width: u32,
    min_transitions: u64,
    f: FieldSpec,
)
    requires
        !f.signed,
        2 <= f.length <= search_width(max_width),
        eligible(spec_occupied_bits(f.start_bit, f.length, f.endianness), toggle_mask, bit_limit),
        spec_verify_counter(payloads, f, min_transitions) is Some,
    ensures
        exists|j: int|
            0 <= j < scan_all(payloads, toggle_mask, bit_limit, max_width, min_transitions).proofs.len()
                && proof_bits(
                #[trigger] scan_all(payloads, toggle_mask, bit_limit, max_width, min_transitions).proofs[j],
            ) == spec_occupied_bits(f.start_bit, f.length, f.endianness).to_set(),
{
    let w = search_width(max_width);
    lemma_verified_shape(payloads, f, min_transitions);
    lemma_verified_full_width(payloads, f, min_transitions);
    crate::bits::lemma_occupied_len(f.start_bit, f.length, f.endianness);
    assert(spec_occupied_bits(f.start_bit, f.length, f.endianness)[0] < bit_limit);
    lemma_searched_key_tried(payloads, toggle_mask, bit_limit, max_width, min_transitions, f);
    let init = CounterScan { seen: Seq::empty(), proofs: Seq::empty() };
    let intel = scan_starts(init, payloads, toggle_mask, bit_limit, max_width, min_transitions, Endianness::Intel, bit_limit as nat);
    let all = scan_all(payloads, toggle_mask, bit_limit, max_width, min_transitions);
    assert(all == scan_starts(intel, payloads, toggle_mask, bit_limit, max_width, min_transitions, Endianness::Motorola, bit_limit as nat));
    let key = spec_msb_first(f);
    assert(all_backed(init, payloads, toggle_mask, bit_limit, w, min_transitions));
    lemma_scan_starts_backed(init, payloads, toggle_mask, bit_limit, max_width, min_transitions, Endianness::Intel, bit_limit as nat);
    lemma_scan_starts_backed(intel, payloads, toggle_mask, bit_limit, max_width, min_transitions, Endianness::Motorola, bit_limit as nat);
    assert(all.seen.contains(key));
    let g = choose|g: FieldSpec| backs(all.proofs, payloads, toggle_mask, bit_limit, w, min_transitions, g, key);
    lemma_key_bits(f);
    lemma_key_bits(g);
    lemma_same_key_same_verdict(payloads, f, g, min_transitions);
    let p = spec_verify_counter(payloads, g, min_transitions).unwrap();
    assert(all.proofs.contains(p));
    let j = choose|j: int| 0 <= j < all.proofs.len() && all.proofs[j] == p;
    assert(proof_bits(all.proofs[j]) == spec_occupied_bits(f.start_bit, f.length, f.endianness).to_set());
}

/// Every unsigned field of `2 ..= search_width(max_width)` bits, all inside
/// `bit_limit` and toggling, that counts up over every consecutive pair of
/// payloads with at least one wrap and enough transitions lies inside some
/// reported counter.
pub proof fn lemma_proven_fields_are_reported(
    payloads: Seq<Seq<u8>>,
    toggle_mask: Seq<bool>,
    bit_limit: u32,
    max_width: u32,
    min_transitions: u64,
    f: FieldSpec,
)
    requires
        !f.signed,
        2 <= f.length <= search_width(max_width),
        eligible(spec_occupied_bits(f.start_bit, f.length, f.endianness), toggle_mask, bit_limit),
        spec_verify_counter(payloads, f, min_transitions) is Some,
    ensures
        exists|k: int|
            0 <= k < spec_prove_counters(payloads, toggle_mask, bit_limit, max_width, min_transitions).len()
                && spec_occupied_bits(f.start_bit, f.length, f.endianness).to_set().subset_of(
                proof_bits(
                    #[trigger] spec_prove_counters(
                        payloads,
                        toggle_mask,
                        bit_limit,
                        max_width,
                        min_transitions,
                    )[k],
                ),
            ),
{
    let w = search_width(max_width);
    let found = scan_all(payloads, toggle_mask, bit_limit, max_width, min_transitions).proofs;
    let target = spec_occupied_bits(f.start_bit, f.length, f.endianness).to_set();
    lemma_verified_shape(payloads, f, min_transitions);
    assert(spec_prove_counters(payloads, toggle_mask, bit_limit, max_width, min_transitions)
        == maximal_upto(found, found.len()));
    lemma_proven_field_found(payloads, toggle_mask, bit_limit, max_width, min_transitions, f);
    let j = choose|j: int| 0 <= j < found.len() && proof_bits(#[trigger] found[j]) == target;
    assert(forall|i: int| 0 <= i < found.len() ==> (#[trigger] found[i]).field.length <= 63) by {
        lemma_scan_all_checked(payloads, toggle_mask, bit_limit, max_width, min_transitions);
        assert forall|i: int| 0 <= i < found.len() implies (#[trigger] found[i]).field.length <= 63 by {
            assert(checked(found[i], payloads, toggle_mask, bit_limit, w, min_transitions));
        }
    }
    lemma_reach_maximal(found, j, target);
}

proof fn lemma_reported_counter_checked(
    payloads: Seq<Seq<u8>>,
    toggle_mask: Seq<bool>,
    bit_limit: u32,
    max_width: u32,
    min_transitions: u64,
    k: int,
)
    requires
        0 <= k < spec_prove_counters(payloads, toggle_mask, bit_limit, max_width, min_transitions).len(),
    ensures
        spec_verify_counter(
            payloads,
            spec_prove_counters(payloads, toggle_mask, bit_limit, max_width, min_transitions)[k].field,
            min_transitions,
        ) == Some(spec_prove_counters(payloads, toggle_mask, bit_limit, max_width, min_transitions)[k]),
{
    let found = scan_all(payloads, toggle_mask, bit_limit, max_width, min_transitions).proofs;
    lemma_scan_all_checked(payloads, toggle_mask, bit_limit, max_width, min_transitions);
    lemma_maximal_from(found, found.len(), k);
    let j = choose|j: int|
        0 <= j < found.len() && found[j] == maximal_upto(found, found.len())[k] && !dominated(found, j);
    assert(checked(found[j], payloads, toggle_mask, bit_limit, search_width(max_width), min_transitions));
}

} // verus!
