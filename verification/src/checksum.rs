//! Checksum / CRC verification sweep.
//!
//! Nothing is inferred: every candidate algorithm is verified against every
//! distinct payload of the ID, and **all** algorithms that match are reported
//! (ambiguity stays visible). A constant payload set proves nothing, so the
//! caller gates on a minimum distinct-payload count.
use vstd::prelude::*;

use crate::text::{hex_padded, push_hex, push_str};

verus! {

/// A checksum algorithm verified against every observed payload.
#[derive(Debug, Clone, Copy, PartialEq, Eq, Structural)]
pub enum ChecksumAlgorithm {
    /// `cs = XOR(all other bytes) ^ constant`
    XorConst { constant: u8 },
    /// `cs = (sum of other bytes + constant) mod 256`
    SumConst { constant: u8 },
    /// `cs = (constant - sum of other bytes) mod 256`
    NegSumConst { constant: u8 },
    /// CRC-8 over the other bytes in order. `reflect` = refin+refout.
    Crc8 { poly: u8, init: u8, xorout: u8, reflect: bool },
}

/// A checksum algorithm that matched **every** observed payload.
#[derive(Debug, Clone, Copy, PartialEq, Eq, Structural)]
pub struct ChecksumProof {
    /// Byte index holding the checksum; data = the remaining bytes in order.
    pub byte_index: u8,
    pub algorithm: ChecksumAlgorithm,
    /// Total frames observed for the ID.
    pub frames: u64,
    /// Distinct payloads among them — the real evidence strength.
    pub distinct_payloads: u64,
}

/// Human-readable description of an algorithm.
pub open spec fn spec_describe(a: ChecksumAlgorithm) -> Seq<char> {
    match a {
        ChecksumAlgorithm::XorConst { constant } => "XOR ^ 0x"@ + hex_padded(constant as nat, 2),
        ChecksumAlgorithm::SumConst { constant } => "SUM + 0x"@ + hex_padded(constant as nat, 2)
            + " (mod 256)"@,
        ChecksumAlgorithm::NegSumConst { constant } => "0x"@ + hex_padded(constant as nat, 2)
            + " - SUM (mod 256)"@,
        ChecksumAlgorithm::Crc8 { poly, init, xorout, reflect } => "CRC-8 poly=0x"@ + hex_padded(
            poly as nat,
            2,
        ) + " init=0x"@ + hex_padded(init as nat, 2) + " xorout=0x"@ + hex_padded(xorout as nat, 2)
            + if reflect {
            " reflected"@
        } else {
            Seq::empty()
        },
    }
}

impl ChecksumAlgorithm {
    /// Human-readable description, e.g. `"XOR ^ 0x5A"`.
    pub fn describe(&self) -> (s: String)
        ensures
            s@ == spec_describe(*self),
    {
        match self {
            ChecksumAlgorithm::XorConst { constant } => {
                let mut s = String::new();
                push_str(&mut s, "XOR ^ 0x");
                push_hex(&mut s, *constant as u64, 2);
                s
            },
            ChecksumAlgorithm::SumConst { constant } => {
                let mut s = String::new();
                push_str(&mut s, "SUM + 0x");
                push_hex(&mut s, *constant as u64, 2);
                push_str(&mut s, " (mod 256)");
                s
            },
            ChecksumAlgorithm::NegSumConst { constant } => {
                let mut s = String::new();
                push_str(&mut s, "0x");
                push_hex(&mut s, *constant as u64, 2);
                push_str(&mut s, " - SUM (mod 256)");
                s
            },
            ChecksumAlgorithm::Crc8 { poly, init, xorout, reflect } => {
                let mut s = String::new();
                push_str(&mut s, "CRC-8 poly=0x");
                push_hex(&mut s, *poly as u64, 2);
                push_str(&mut s, " init=0x");
                push_hex(&mut s, *init as u64, 2);
                push_str(&mut s, " xorout=0x");
                push_hex(&mut s, *xorout as u64, 2);
                if *reflect {
                    push_str(&mut s, " reflected");
                } else {
                    assert(s@ + Seq::<char>::empty() =~= s@);
                }
                s
            },
        }
    }
}

/// `data.iter().fold(acc, |a, &b| a ^ b)`.
pub open spec fn xor_fold(acc: u8, data: Seq<u8>) -> u8
    decreases data.len(),
{
    if data.len() == 0 {
        acc
    } else {
        xor_fold(acc, data.drop_last()) ^ data.last()
    }
}

/// `data.iter().fold(acc, |a, &b| a.wrapping_add(b))`.
pub open spec fn sum_fold(acc: u8, data: Seq<u8>) -> u8
    decreases data.len(),
{
    if data.len() == 0 {
        acc
    } else {
        ((sum_fold(acc, data.drop_last()) + data.last()) % 256) as u8
    }
}

/// Bit order of a byte reversed (bit 0 ↔ bit 7, …).
pub open spec fn reflect8(b: u8) -> u8 {
    ((b & 1u8) << 7u8) | ((b & 2u8) << 5u8) | ((b & 4u8) << 3u8) | ((b & 8u8) << 1u8) | ((b
        & 16u8) >> 1u8) | ((b & 32u8) >> 3u8) | ((b & 64u8) >> 5u8) | ((b & 128u8) >> 7u8)
}

/// One CRC shift step of the register.
pub open spec fn crc_shift(crc: u8, poly: u8) -> u8 {
    if crc & 0x80u8 != 0 {
        (crc << 1u8) ^ poly
    } else {
        crc << 1u8
    }
}

/// `n` CRC shift steps.
pub open spec fn crc_shift_n(crc: u8, poly: u8, n: nat) -> u8
    decreases n,
{
    if n == 0 {
        crc
    } else {
        crc_shift(crc_shift_n(crc, poly, (n - 1) as nat), poly)
    }
}

/// CRC register after feeding `data` (input bytes reflected when `reflect`).
pub open spec fn crc_register(init: u8, poly: u8, reflect: bool, data: Seq<u8>) -> u8
    decreases data.len(),
{
    if data.len() == 0 {
        init
    } else {
        let b = if reflect {
            reflect8(data.last())
        } else {
            data.last()
        };
        crc_shift_n(crc_register(init, poly, reflect, data.drop_last()) ^ b, poly, 8)
    }
}

/// Bitwise CRC-8 (reflected input and output when `reflect`).
pub open spec fn spec_crc8(data: Seq<u8>, poly: u8, init: u8, xorout: u8, reflect: bool) -> u8 {
    let c = crc_register(init, poly, reflect, data);
    (if reflect {
        reflect8(c)
    } else {
        c
    }) ^ xorout
}

/// Does `alg` map `data` to the checksum byte `cs`?
pub open spec fn spec_verify(data: Seq<u8>, cs: u8, alg: ChecksumAlgorithm) -> bool {
    match alg {
        ChecksumAlgorithm::XorConst { constant } => xor_fold(constant, data) == cs,
        ChecksumAlgorithm::SumConst { constant } => sum_fold(constant, data) == cs,
        ChecksumAlgorithm::NegSumConst { constant } => ((constant - sum_fold(0, data)) % 256) as u8
            == cs,
        ChecksumAlgorithm::Crc8 { poly, init, xorout, reflect } => spec_crc8(
            data,
            poly,
            init,
            xorout,
            reflect,
        ) == cs,
    }
}

/// The distinct payloads of a list, in order of first occurrence.
pub open spec fn distinct_in_order(ps: Seq<Seq<u8>>) -> Seq<Seq<u8>>
    decreases ps.len(),
{
    if ps.len() == 0 {
        Seq::empty()
    } else {
        let d = distinct_in_order(ps.drop_last());
        if d.contains(ps.last()) {
            d
        } else {
            d.push(ps.last())
        }
    }
}

/// The `k`-th CRC-8 candidate of the sweep: poly 1..=255 outermost, then
/// init {00, FF}, xorout {00, FF}, reflect {no, yes}.
pub open spec fn crc_candidate(k: int) -> ChecksumAlgorithm {
    ChecksumAlgorithm::Crc8 {
        poly: (k / 8 + 1) as u8,
        init: if (k / 4) % 2 == 0 {
            0u8
        } else {
            0xFFu8
        },
        xorout: if (k / 2) % 2 == 0 {
            0u8
        } else {
            0xFFu8
        },
        reflect: k % 2 == 1,
    }
}

/// Number of CRC-8 candidates swept per byte position.
pub open spec fn crc_candidate_count() -> nat {
    2040
}

/// Candidates at one byte position: the three simple families with the
/// constant solved from the first distinct payload, then the CRC-8 sweep.
pub open spec fn candidates_at(first: Seq<u8>, bi: int) -> Seq<ChecksumAlgorithm> {
    let data0 = first.remove(bi);
    let cs0 = first[bi];
    seq![
        ChecksumAlgorithm::XorConst { constant: cs0 ^ xor_fold(0, data0) },
        ChecksumAlgorithm::SumConst { constant: ((cs0 - sum_fold(0, data0)) % 256) as u8 },
        ChecksumAlgorithm::NegSumConst { constant: ((cs0 + sum_fold(0, data0)) % 256) as u8 },
    ] + Seq::new(crc_candidate_count(), |k: int| crc_candidate(k))
}

/// `alg` holds for every distinct payload with the checksum at `bi`.
pub open spec fn holds_for_all(distinct: Seq<Seq<u8>>, bi: int, alg: ChecksumAlgorithm) -> bool {
    forall|j: int|
        0 <= j < distinct.len() ==> spec_verify(
            (#[trigger] distinct[j]).remove(bi),
            distinct[j][bi],
            alg,
        )
}

/// Proofs for the candidates that hold, in candidate order.
pub open spec fn proven(
    distinct: Seq<Seq<u8>>,
    bi: int,
    frames: u64,
    cands: Seq<ChecksumAlgorithm>,
) -> Seq<ChecksumProof>
    decreases cands.len(),
{
    if cands.len() == 0 {
        Seq::empty()
    } else {
        let r = proven(distinct, bi, frames, cands.drop_last());
        if holds_for_all(distinct, bi, cands.last()) {
            r.push(
                ChecksumProof {
                    byte_index: bi as u8,
                    algorithm: cands.last(),
                    frames,
                    distinct_payloads: distinct.len() as u64,
                },
            )
        } else {
            r
        }
    }
}

/// Proofs for byte positions `0 .. n`.
pub open spec fn proofs_upto(distinct: Seq<Seq<u8>>, frames: u64, n: nat) -> Seq<ChecksumProof>
    decreases n,
{
    if n == 0 {
        Seq::empty()
    } else {
        proofs_upto(distinct, frames, (n - 1) as nat) + proven(
            distinct,
            n - 1,
            frames,
            candidates_at(distinct[0], n - 1),
        )
    }
}

/// Everything `find_checksums` reports for the payloads.
pub open spec fn spec_find_checksums(payloads: Seq<Seq<u8>>, min_distinct: nat) -> Seq<
    ChecksumProof,
> {
    if payloads.len() == 0 {
        Seq::empty()
    } else {
        let dlc = payloads[0].len();
        let distinct = distinct_in_order(payloads);
        if dlc < 2 || exists|k: int| 0 <= k < payloads.len() && (#[trigger] payloads[k]).len() != dlc {
            Seq::empty()
        } else if distinct.len() < min_distinct {
            Seq::empty()
        } else {
            proofs_upto(distinct, payloads.len() as u64, dlc)
        }
    }
}

/// Byte slice equality.
pub fn bytes_eq(a: &[u8], b: &[u8]) -> (r: bool)
    ensures
        r == (a@ == b@),
{
    if a.len() != b.len() {
        return false;
    }
    let mut i: usize = 0;
    while i < a.len()
        invariant
            a@.len() == b@.len(),
            i <= a@.len(),
            forall|k: int| 0 <= k < i ==> a@[k] == b@[k],
        decreases a.len() - i,
    {
        if a[i] != b[i] {
            return false;
        }
        i = i + 1;
    }
    assert(a@ =~= b@);
    true
}

/// Copy `payload` minus the byte at `byte_index`; return it with that byte.
fn split_at(payload: &[u8], byte_index: usize) -> (r: (Vec<u8>, u8))
    requires
        byte_index < payload@.len(),
    ensures
        r.0@ == payload@.remove(byte_index as int),
        r.1 == payload@[byte_index as int],
{
    let mut buf: Vec<u8> = Vec::new();
    let mut i: usize = 0;
    while i < payload.len()
        invariant
            byte_index < payload@.len(),
            i <= payload@.len(),
            buf@ =~= if i <= byte_index {
                payload@.subrange(0, i as int)
            } else {
                payload@.subrange(0, i as int).remove(byte_index as int)
            },
        decreases payload.len() - i,
    {
        if i != byte_index {
            buf.push(payload[i]);
        }
        i = i + 1;
    }
    assert(payload@.subrange(0, payload@.len() as int) =~= payload@);
    (buf, payload[byte_index])
}

fn xor_all(acc: u8, data: &[u8]) -> (r: u8)
    ensures
        r == xor_fold(acc, data@),
{
    let mut a = acc;
    let mut i: usize = 0;
    while i < data.len()
        invariant
            i <= data@.len(),
            a == xor_fold(acc, data@.subrange(0, i as int)),
        decreases data.len() - i,
    {
        assert(data@.subrange(0, i + 1).drop_last() =~= data@.subrange(0, i as int));
        a = a ^ data[i];
        i = i + 1;
    }
    assert(data@.subrange(0, data@.len() as int) =~= data@);
    a
}

fn sum_all(acc: u8, data: &[u8]) -> (r: u8)
    ensures
        r == sum_fold(acc, data@),
{
    let mut a = acc;
    let mut i: usize = 0;
    while i < data.len()
        invariant
            i <= data@.len(),
            a == sum_fold(acc, data@.subrange(0, i as int)),
        decreases data.len() - i,
    {
        assert(data@.subrange(0, i + 1).drop_last() =~= data@.subrange(0, i as int));
        a = a.wrapping_add(data[i]);
        i = i + 1;
    }
    assert(data@.subrange(0, data@.len() as int) =~= data@);
    a
}

/// Bit order of a byte reversed.
fn reverse_bits8(b: u8) -> (r: u8)
    ensures
        r == reflect8(b),
{
    ((b & 1u8) << 7u8) | ((b & 2u8) << 5u8) | ((b & 4u8) << 3u8) | ((b & 8u8) << 1u8) | ((b
        & 16u8) >> 1u8) | ((b & 32u8) >> 3u8) | ((b & 64u8) >> 5u8) | ((b & 128u8) >> 7u8)
}

/// Bitwise CRC-8. `reflect` reflects input bytes and the final CRC (refin =
/// refout); the swept init values 0x00/0xFF are palindromic so no separate
/// reflected init is needed.
pub fn crc8(data: &[u8], poly: u8, init: u8, xorout: u8, reflect: bool) -> (r: u8)
    ensures
        r == spec_crc8(data@, poly, init, xorout, reflect),
{
    let mut crc = init;
    let mut i: usize = 0;
    while i < data.len()
        invariant
            i <= data@.len(),
            crc == crc_register(init, poly, reflect, data@.subrange(0, i as int)),
        decreases data.len() - i,
    {
        let ghost prefix = data@.subrange(0, i + 1);
        assert(prefix.drop_last() =~= data@.subrange(0, i as int));
        let b = data[i];
        crc = crc ^ if reflect {
            reverse_bits8(b)
        } else {
            b
        };
        let ghost start = crc;
        let mut k: u32 = 0;
        while k < 8
            invariant
                k <= 8,
                crc == crc_shift_n(start, poly, k as nat),
            decreases 8 - k,
        {
            crc = if crc & 0x80u8 != 0 {
                (crc << 1u8) ^ poly
            } else {
                crc << 1u8
            };
            k = k + 1;
        }
        i = i + 1;
    }
    assert(data@.subrange(0, data@.len() as int) =~= data@);
    if reflect {
        crc = reverse_bits8(crc);
    }
    crc ^ xorout
}

fn verify_simple(data: &[u8], cs: u8, algorithm: &ChecksumAlgorithm) -> (r: bool)
    requires
        !(algorithm is Crc8),
    ensures
        r == spec_verify(data@, cs, *algorithm),
{
    match algorithm {
        ChecksumAlgorithm::XorConst { constant } => xor_all(*constant, data) == cs,
        ChecksumAlgorithm::SumConst { constant } => sum_all(*constant, data) == cs,
        ChecksumAlgorithm::NegSumConst { constant } => {
            let s = sum_all(0, data);
            constant.wrapping_sub(s) == cs
        },
        ChecksumAlgorithm::Crc8 { .. } => false,
    }
}

fn verify_any(data: &[u8], cs: u8, algorithm: &ChecksumAlgorithm) -> (r: bool)
    ensures
        r == spec_verify(data@, cs, *algorithm),
{
    match algorithm {
        ChecksumAlgorithm::Crc8 { poly, init, xorout, reflect } => crc8(
            data,
            *poly,
            *init,
            *xorout,
            *reflect,
        ) == cs,
        _ => verify_simple(data, cs, algorithm),
    }
}

/// Does `alg` hold for every split payload?
fn all_verify(splits: &Vec<Vec<u8>>, css: &Vec<u8>, alg: &ChecksumAlgorithm) -> (r: bool)
    requires
        splits@.len() == css@.len(),
    ensures
        r == forall|j: int| 0 <= j < splits@.len() ==> spec_verify(splits@[j]@, css@[j], *alg),
{
    let mut j: usize = 0;
    while j < splits.len()
        invariant
            splits@.len() == css@.len(),
            j <= splits@.len(),
            forall|t: int| 0 <= t < j ==> spec_verify(splits@[t]@, css@[t], *alg),
        decreases splits.len() - j,
    {
        if !verify_any(splits[j].as_slice(), css[j], alg) {
            return false;
        }
        j = j + 1;
    }
    true
}

fn crc_candidate_at(k: u32) -> (a: ChecksumAlgorithm)
    requires
        k < 2040,
    ensures
        a == crc_candidate(k as int),
{
    ChecksumAlgorithm::Crc8 {
        poly: (k / 8 + 1) as u8,
        init: if (k / 4) % 2 == 0 {
            0u8
        } else {
            0xFFu8
        },
        xorout: if (k / 2) % 2 == 0 {
            0u8
        } else {
            0xFFu8
        },
        reflect: k % 2 == 1,
    }
}

proof fn lemma_distinct_step(ps: Seq<Seq<u8>>, i: int)
    requires
        0 <= i < ps.len(),
    ensures
        distinct_in_order(ps.subrange(0, i + 1)) == ({
            let d = distinct_in_order(ps.subrange(0, i));
            if d.contains(ps[i]) {
                d
            } else {
                d.push(ps[i])
            }
        }),
{
    assert(ps.subrange(0, i + 1).drop_last() =~= ps.subrange(0, i));
}

/// Every distinct payload occurs among the payloads.
proof fn lemma_distinct_members(ps: Seq<Seq<u8>>)
    ensures
        forall|j: int|
            0 <= j < distinct_in_order(ps).len() ==> ps.contains(
                #[trigger] distinct_in_order(ps)[j],
            ),
        ps.len() > 0 ==> distinct_in_order(ps).len() > 0,
    decreases ps.len(),
{
    if ps.len() > 0 {
        lemma_distinct_members(ps.drop_last());
        let d = distinct_in_order(ps.drop_last());
        assert forall|j: int| 0 <= j < distinct_in_order(ps).len() implies ps.contains(
            #[trigger] distinct_in_order(ps)[j],
        ) by {
            if j < d.len() {
                let w = choose|w: int| 0 <= w < ps.drop_last().len() && ps.drop_last()[w] == d[j];
                assert(ps[w] == d[j]);
            } else {
                assert(ps[ps.len() - 1] == ps.last());
            }
        }
    }
}

/// Split every distinct payload around the candidate checksum byte.
fn split_all(
    distinct: &Vec<&[u8]>,
    byte_index: usize,
    Ghost(pv): Ghost<Seq<Seq<u8>>>,
    Ghost(dv): Ghost<Seq<Seq<u8>>>,
    dlc: usize,
) -> (r: (Vec<Vec<u8>>, Vec<u8>))
    requires
        dv == distinct@.map_values(|p: &[u8]| p@),
        forall|t: int| 0 <= t < dv.len() ==> pv.contains(#[trigger] dv[t]),
        forall|k: int| 0 <= k < pv.len() ==> (#[trigger] pv[k]).len() == dlc,
        byte_index < dlc,
    ensures
        r.0@.len() == dv.len(),
        r.1@.len() == dv.len(),
        forall|t: int|
            0 <= t < dv.len() ==> (#[trigger] r.0@[t])@ == dv[t].remove(byte_index as int)
                && r.1@[t] == dv[t][byte_index as int],
{
    let mut splits: Vec<Vec<u8>> = Vec::new();
    let mut css: Vec<u8> = Vec::new();
    let mut j: usize = 0;
    while j < distinct.len()
        invariant
            dv == distinct@.map_values(|p: &[u8]| p@),
            forall|t: int| 0 <= t < dv.len() ==> pv.contains(#[trigger] dv[t]),
            forall|k: int| 0 <= k < pv.len() ==> (#[trigger] pv[k]).len() == dlc,
            byte_index < dlc,
            j <= dv.len(),
            splits@.len() == j,
            css@.len() == j,
            forall|t: int|
                0 <= t < j ==> (#[trigger] splits@[t])@ == dv[t].remove(byte_index as int)
                    && css@[t] == dv[t][byte_index as int],
        decreases distinct.len() - j,
    {
        proof {
            assert(pv.contains(dv[j as int]));
            let w = choose|w: int| 0 <= w < pv.len() && pv[w] == dv[j as int];
            assert(pv[w].len() == dlc);
        }
        let (buf, cs) = split_at(distinct[j], byte_index);
        splits.push(buf);
        css.push(cs);
        j = j + 1;
    }
    (splits, css)
}

/// Check one candidate against all split payloads and record a proof.
fn check_candidate(
    splits: &Vec<Vec<u8>>,
    css: &Vec<u8>,
    Ghost(dv): Ghost<Seq<Seq<u8>>>,
    byte_index: usize,
    frames: u64,
    ndistinct: u64,
    alg: ChecksumAlgorithm,
    proofs: &mut Vec<ChecksumProof>,
)
    requires
        splits@.len() == css@.len(),
        splits@.len() == dv.len(),
        forall|t: int|
            0 <= t < dv.len() ==> (#[trigger] splits@[t])@ == dv[t].remove(byte_index as int)
                && css@[t] == dv[t][byte_index as int],
        ndistinct == dv.len() as u64,
    ensures
        final(proofs)@ == if holds_for_all(dv, byte_index as int, alg) {
            old(proofs)@.push(
                ChecksumProof {
                    byte_index: byte_index as u8,
                    algorithm: alg,
                    frames,
                    distinct_payloads: ndistinct,
                },
            )
        } else {
            old(proofs)@
        },
{
    let ok = all_verify(splits, css, &alg);
    assert(ok == holds_for_all(dv, byte_index as int, alg)) by {
        if ok {
            assert forall|t: int| 0 <= t < dv.len() implies spec_verify(
                (#[trigger] dv[t]).remove(byte_index as int),
                dv[t][byte_index as int],
                alg,
            ) by {
                assert(spec_verify(splits@[t]@, css@[t], alg));
            }
        } else {
            let t = choose|t: int|
                0 <= t < splits@.len() && !spec_verify(splits@[t]@, css@[t], alg);
            assert(!spec_verify(dv[t].remove(byte_index as int), dv[t][byte_index as int], alg));
        }
    }
    if ok {
        proofs.push(
            ChecksumProof {
                byte_index: byte_index as u8,
                algorithm: alg,
                frames,
                distinct_payloads: ndistinct,
            },
        );
    }
}

/// All proofs with the checksum at `byte_index`, in candidate order.
#[verifier::spinoff_prover]
fn proofs_at(
    splits: &Vec<Vec<u8>>,
    css: &Vec<u8>,
    Ghost(dv): Ghost<Seq<Seq<u8>>>,
    byte_index: usize,
    frames: u64,
    ndistinct: u64,
) -> (proofs: Vec<ChecksumProof>)
    requires
        dv.len() > 0,
        splits@.len() == css@.len(),
        splits@.len() == dv.len(),
        forall|t: int|
            0 <= t < dv.len() ==> (#[trigger] splits@[t])@ == dv[t].remove(byte_index as int)
                && css@[t] == dv[t][byte_index as int],
        ndistinct == dv.len() as u64,
    ensures
        proofs@ == proven(dv, byte_index as int, frames, candidates_at(dv[0], byte_index as int)),
{
    let ghost cands = candidates_at(dv[0], byte_index as int);
    let mut proofs: Vec<ChecksumProof> = Vec::new();
    // Simple families: solve the constant from the first payload.
    assert(splits@[0]@ == dv[0].remove(byte_index as int));
    let xor0 = xor_all(0, splits[0].as_slice());
    let sum0 = sum_all(0, splits[0].as_slice());
    let cs0 = css[0];
    let simple = [
        ChecksumAlgorithm::XorConst { constant: cs0 ^ xor0 },
        ChecksumAlgorithm::SumConst { constant: cs0.wrapping_sub(sum0) },
        ChecksumAlgorithm::NegSumConst { constant: cs0.wrapping_add(sum0) },
    ];
    assert(simple@ =~= cands.subrange(0, 3));
    assert(forall|t: int|
        0 <= t < dv.len() ==> (#[trigger] splits@[t])@ == dv[t].remove(byte_index as int)
            && css@[t] == dv[t][byte_index as int]);
    let mut c: usize = 0;
    while c < 3
        invariant
            c <= 3,
            cands == candidates_at(dv[0], byte_index as int),
            simple@ == cands.subrange(0, 3),
            splits@.len() == css@.len(),
            splits@.len() == dv.len(),
            forall|t: int|
                0 <= t < dv.len() ==> (#[trigger] splits@[t])@ == dv[t].remove(byte_index as int)
                    && css@[t] == dv[t][byte_index as int],
            ndistinct == dv.len() as u64,
            proofs@ == proven(dv, byte_index as int, frames, cands.subrange(0, c as int)),
        decreases 3 - c,
    {
        assert(cands.subrange(0, c + 1).drop_last() =~= cands.subrange(0, c as int));
        check_candidate(splits, css, Ghost(dv), byte_index, frames, ndistinct, simple[c], &mut proofs);
        c = c + 1;
    }
    // CRC-8 sweep: 255 polys × init {00,FF} × xorout {00,FF} × reflect {n,y}.
    let mut k: u32 = 0;
    while k < 2040
        invariant
            k <= 2040,
            cands == candidates_at(dv[0], byte_index as int),
            cands.len() == 3 + 2040,
            splits@.len() == css@.len(),
            splits@.len() == dv.len(),
            forall|t: int|
                0 <= t < dv.len() ==> (#[trigger] splits@[t])@ == dv[t].remove(byte_index as int)
                    && css@[t] == dv[t][byte_index as int],
            ndistinct == dv.len() as u64,
            proofs@ == proven(dv, byte_index as int, frames, cands.subrange(0, 3 + k as int)),
        decreases 2040 - k,
    {
        let alg = crc_candidate_at(k);
        assert(cands[3 + k as int] == alg);
        assert(cands.subrange(0, 3 + k + 1).drop_last() =~= cands.subrange(0, 3 + k as int));
        check_candidate(splits, css, Ghost(dv), byte_index, frames, ndistinct, alg, &mut proofs);
        k = k + 1;
    }
    assert(cands.subrange(0, 2043int) =~= cands);
    proofs
}

/// The distinct payloads, in order of first occurrence.
pub fn distinct_payloads<'a>(payloads: &[&'a [u8]]) -> (distinct: Vec<&'a [u8]>)
    ensures
        distinct@.map_values(|p: &[u8]| p@) == distinct_in_order(payloads@.map_values(|p: &[u8]| p@)),
{
    let ghost pv = payloads@.map_values(|p: &[u8]| p@);
    let mut distinct: Vec<&'a [u8]> = Vec::new();
    let mut i: usize = 0;
    while i < payloads.len()
        invariant
            pv == payloads@.map_values(|p: &[u8]| p@),
            i <= payloads@.len(),
            distinct@.map_values(|p: &[u8]| p@) == distinct_in_order(pv.subrange(0, i as int)),
        decreases payloads.len() - i,
    {
        let p = payloads[i];
        let ghost dv = distinct@.map_values(|q: &[u8]| q@);
        let mut found = false;
        let mut j: usize = 0;
        while j < distinct.len()
            invariant
                j <= distinct@.len(),
                dv == distinct@.map_values(|q: &[u8]| q@),
                found == exists|t: int| 0 <= t < j && dv[t] == p@,
            decreases distinct.len() - j,
        {
            assert(dv[j as int] == distinct@[j as int]@);
            if bytes_eq(distinct[j], p) {
                found = true;
            }
            j = j + 1;
        }
        proof {
            lemma_distinct_step(pv, i as int);
            assert(pv[i as int] == p@);
            if found {
                let t = choose|t: int| 0 <= t < dv.len() && dv[t] == p@;
                assert(dv.contains(p@));
            } else {
                assert(!dv.contains(p@));
            }
        }
        if !found {
            distinct.push(p);
            assert(distinct@.map_values(|q: &[u8]| q@) =~= dv.push(p@));
        }
        i = i + 1;
    }
    assert(pv.subrange(0, pv.len() as int) =~= pv);
    distinct
}

/// Verify checksum algorithms for one ID's payloads (must all share one DLC).
///
/// Returns all `(byte position, algorithm)` pairs that hold for every distinct
/// payload, or an empty list when payload diversity is below `min_distinct`
/// (a sweep over near-constant data would "prove" almost anything).
pub fn find_checksums(payloads: &[&[u8]], min_distinct: usize) -> (proofs: Vec<ChecksumProof>)
    ensures
        proofs@ == spec_find_checksums(
            payloads@.map_values(|p: &[u8]| p@),
            min_distinct as nat,
        ),
{
    let ghost pv = payloads@.map_values(|p: &[u8]| p@);
    if payloads.len() == 0 {
        return Vec::new();
    }
    let dlc = payloads[0].len();
    let mut i: usize = 0;
    while i < payloads.len()
        invariant
            pv == payloads@.map_values(|p: &[u8]| p@),
            i <= payloads@.len(),
            dlc == pv[0].len(),
            forall|k: int| 0 <= k < i ==> (#[trigger] pv[k]).len() == dlc,
        decreases payloads.len() - i,
    {
        if payloads[i].len() != dlc {
            assert(pv[i as int].len() != dlc);
            return Vec::new();
        }
        i = i + 1;
    }
    if dlc < 2 {
        return Vec::new();
    }
    // Distinct payloads in order of first occurrence.
    let distinct = distinct_payloads(payloads);
    assert(pv.subrange(0, pv.len() as int) =~= pv);
    let ghost dv = distinct_in_order(pv);
    proof {
        lemma_distinct_members(pv);
    }
    if distinct.len() < min_distinct {
        return Vec::new();
    }
    assert(distinct@.len() > 0);
    let frames = payloads.len() as u64;
    let ndistinct = distinct.len() as u64;
    let mut proofs: Vec<ChecksumProof> = Vec::new();
    let mut byte_index: usize = 0;
    while byte_index < dlc
        invariant
            pv == payloads@.map_values(|p: &[u8]| p@),
            dv == distinct_in_order(pv),
            distinct@.map_values(|p: &[u8]| p@) == dv,
            dv.len() > 0,
            forall|j: int| 0 <= j < dv.len() ==> pv.contains(#[trigger] dv[j]),
            forall|k: int| 0 <= k < pv.len() ==> (#[trigger] pv[k]).len() == dlc,
            frames == pv.len() as u64,
            ndistinct == dv.len() as u64,
            byte_index <= dlc,
            proofs@ == proofs_upto(dv, frames, byte_index as nat),
        decreases dlc - byte_index,
    {
        let (splits, css) = split_all(&distinct, byte_index, Ghost(pv), Ghost(dv), dlc);
        let mut found = proofs_at(&splits, &css, Ghost(dv), byte_index, frames, ndistinct);
        proofs.append(&mut found);
        byte_index = byte_index + 1;
    }
    proofs
}

proof fn lemma_proven_holds(
    distinct: Seq<Seq<u8>>,
    bi: int,
    frames: u64,
    cands: Seq<ChecksumAlgorithm>,
    k: int,
)
    requires
        0 <= k < proven(distinct, bi, frames, cands).len(),
    ensures
        holds_for_all(distinct, bi, proven(distinct, bi, frames, cands)[k].algorithm),
        proven(distinct, bi, frames, cands)[k].byte_index == bi as u8,
        proven(distinct, bi, frames, cands)[k].frames == frames,
        proven(distinct, bi, frames, cands)[k].distinct_payloads == distinct.len() as u64,
    decreases cands.len(),
{
    let r = proven(distinct, bi, frames, cands.drop_last());
    if k < r.len() {
        lemma_proven_holds(distinct, bi, frames, cands.drop_last(), k);
        assert(proven(distinct, bi, frames, cands)[k] == r[k]);
    }
}

proof fn lemma_upto_holds(distinct: Seq<Seq<u8>>, frames: u64, n: nat, k: int)
    requires
        0 <= k < proofs_upto(distinct, frames, n).len(),
    ensures
        exists|bi: int|
            0 <= bi < n && proofs_upto(distinct, frames, n)[k].byte_index == bi as u8 && holds_for_all(
                distinct,
                bi,
                proofs_upto(distinct, frames, n)[k].algorithm,
            ),
        proofs_upto(distinct, frames, n)[k].frames == frames,
        proofs_upto(distinct, frames, n)[k].distinct_payloads == distinct.len() as u64,
    decreases n,
{
    let prev = proofs_upto(distinct, frames, (n - 1) as nat);
    let last = proven(distinct, n - 1, frames, candidates_at(distinct[0], n - 1));
    assert(proofs_upto(distinct, frames, n) == prev + last);
    if k < prev.len() {
        lemma_upto_holds(distinct, frames, (n - 1) as nat, k);
        assert(proofs_upto(distinct, frames, n)[k] == prev[k]);
        let bi = choose|bi: int|
            0 <= bi < n - 1 && prev[k].byte_index == bi as u8 && holds_for_all(distinct, bi, prev[k].algorithm);
    } else {
        lemma_proven_holds(distinct, n - 1, frames, candidates_at(distinct[0], n - 1), k - prev.len());
        assert(proofs_upto(distinct, frames, n)[k] == last[k - prev.len()]);
    }
}

/// Every payload occurs among the distinct payloads.
proof fn lemma_payload_in_distinct(ps: Seq<Seq<u8>>, k: int)
    requires
        0 <= k < ps.len(),
    ensures
        distinct_in_order(ps).contains(ps[k]),
    decreases ps.len(),
{
    let d = distinct_in_order(ps.drop_last());
    if k < ps.len() - 1 {
        lemma_payload_in_distinct(ps.drop_last(), k);
        assert(ps.drop_last()[k] == ps[k]);
        let j = choose|j: int| 0 <= j < d.len() && d[j] == ps[k];
        if !d.contains(ps.last()) {
            assert(distinct_in_order(ps)[j] == ps[k]);
        }
    } else if d.contains(ps.last()) {
    } else {
        assert(distinct_in_order(ps)[d.len() as int] == ps[k]);
    }
}

/// A reported checksum holds for every observed payload (`holds_for_all`
/// over all payloads): the algorithm applied to the remaining bytes gives
/// the byte at its position. It counts
/// all frames and the distinct payloads, of which there are at least the
/// minimum.
pub proof fn lemma_reported_checksums_hold(payloads: Seq<Seq<u8>>, min_distinct: nat, k: int)
    requires
        0 <= k < spec_find_checksums(payloads, min_distinct).len(),
    ensures
        ({
            let p = spec_find_checksums(payloads, min_distinct)[k];
            &&& exists|bi: int|
                0 <= bi < payloads[0].len() && p.byte_index == bi as u8 && #[trigger] holds_for_all(
                    payloads,
                    bi,
                    p.algorithm,
                )
            &&& p.frames == payloads.len() as u64
            &&& p.distinct_payloads == distinct_in_order(payloads).len() as u64
            &&& distinct_in_order(payloads).len() >= min_distinct
        }),
{
    let distinct = distinct_in_order(payloads);
    let dlc = payloads[0].len();
    let r = spec_find_checksums(payloads, min_distinct);
    assert(r == proofs_upto(distinct, payloads.len() as u64, dlc));
    lemma_upto_holds(distinct, payloads.len() as u64, dlc, k);
    let p = r[k];
    let bi = choose|bi: int| 0 <= bi < dlc && p.byte_index == bi as u8 && holds_for_all(distinct, bi, p.algorithm);
    assert forall|j: int| 0 <= j < payloads.len() implies spec_verify(
        (#[trigger] payloads[j]).remove(bi),
        payloads[j][bi],
        p.algorithm,
    ) by {
        lemma_payload_in_distinct(payloads, j);
        let t = choose|t: int| 0 <= t < distinct.len() && distinct[t] == payloads[j];
        assert(spec_verify(distinct[t].remove(bi), distinct[t][bi], p.algorithm));
    }
    assert(holds_for_all(payloads, bi, p.algorithm));
}

/// With fewer distinct payloads than the minimum, no checksum is reported.
pub proof fn lemma_low_diversity_reports_nothing(payloads: Seq<Seq<u8>>, min_distinct: nat)
    requires
        distinct_in_order(payloads).len() < min_distinct,
    ensures
        spec_find_checksums(payloads, min_distinct).len() == 0,
{
}

} // verus!
