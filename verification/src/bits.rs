//! Bit-layout helpers shared by the DBC editor and the analysis engines.
//!
//! Bit numbering follows the DBC convention: bit `b` of a payload is
//! `data[b / 8] >> (b % 8) & 1` (bit 0 = least significant bit of byte 0).
use vstd::arithmetic::power2::*;
use vstd::bits::*;
use vstd::prelude::*;

use crate::text::str_eq;

verus! {

/// Byte order of a raw field (DBC `@1` Intel / `@0` Motorola).
#[derive(Debug, Clone, Copy, PartialEq, Eq, Hash, Structural)]
pub enum Endianness {
    /// Little endian (`@1`): start bit is the LSB, ascending bit numbers.
    Intel,
    /// Big endian (`@0`): start bit is the MSB, sawtooth walk toward byte 0's LSB.
    Motorola,
}

impl Endianness {
    /// Human label of the byte order.
    pub fn label(&self) -> (s: &'static str)
        ensures
            s@ == (match self {
                Endianness::Intel => "Intel"@,
                Endianness::Motorola => "Motorola"@,
            }),
    {
        match self {
            Endianness::Intel => "Intel",
            Endianness::Motorola => "Motorola",
        }
    }
}

/// A candidate or proven raw field location inside a payload.
#[derive(Debug, Clone, Copy, PartialEq, Eq, Hash, Structural)]
pub struct FieldSpec {
    pub start_bit: u32,
    pub length: u32,
    pub endianness: Endianness,
    pub signed: bool,
}

/// One Motorola walk step: toward the LSB inside a byte, and from a byte's
/// LSB to the MSB (bit 7) of the next byte.
pub open spec fn motorola_step(b: u32) -> u32 {
    if b % 8 == 0 {
        if b + 15 <= u32::MAX {
            (b + 15) as u32
        } else {
            u32::MAX
        }
    } else {
        (b - 1) as u32
    }
}

/// The `i`-th bit of a Motorola walk from `start`.
pub open spec fn motorola_bit(start: u32, i: nat) -> u32
    decreases i,
{
    if i == 0 {
        start
    } else {
        motorola_step(motorola_bit(start, (i - 1) as nat))
    }
}

/// Number of bits of an Intel field (the range stops at `u32::MAX`).
pub open spec fn intel_len(start: u32, length: u32) -> nat {
    if start + length <= u32::MAX {
        length as nat
    } else {
        (u32::MAX - start) as nat
    }
}

/// Bits occupied by a field, in walk order (Motorola MSB→LSB, Intel LSB→MSB).
pub open spec fn spec_occupied_bits(start: u32, length: u32, e: Endianness) -> Seq<u32> {
    match e {
        Endianness::Intel => Seq::new(intel_len(start, length), |i: int| (start + i) as u32),
        Endianness::Motorola => Seq::new(length as nat, |i: int| motorola_bit(start, i as nat)),
    }
}

/// Bits of a field in MSB-first significance order.
pub open spec fn spec_msb_first(spec: FieldSpec) -> Seq<u32> {
    let bits = spec_occupied_bits(spec.start_bit, spec.length, spec.endianness);
    if spec.endianness == Endianness::Intel {
        bits.reverse()
    } else {
        bits
    }
}

/// The byte order named by a DBC byte-order string.
pub open spec fn endianness_of(byte_order: Seq<char>) -> Endianness {
    if byte_order == "big_endian"@ || byte_order == "motorola"@ {
        Endianness::Motorola
    } else {
        Endianness::Intel
    }
}

/// Value (0 or 1) of payload bit `b` under the DBC numbering.
pub open spec fn bit_value(data: Seq<u8>, b: u32) -> nat {
    ((data[(b / 8) as int] >> ((b % 8) as u8)) & 1u8) as nat
}

/// True iff every listed bit lies inside the payload.
pub open spec fn bits_inside(data: Seq<u8>, bits: Seq<u32>) -> bool {
    forall|k: int| 0 <= k < bits.len() ==> (#[trigger] bits[k]) / 8 < data.len()
}

/// Unsigned value of the bits read MSB first.
pub open spec fn assemble(data: Seq<u8>, bits: Seq<u32>) -> nat
    decreases bits.len(),
{
    if bits.len() == 0 {
        0
    } else {
        assemble(data, bits.drop_last()) * 2 + bit_value(data, bits.last())
    }
}

/// Raw value of a field: `None` for a length outside `1..=63` or a bit past
/// the payload; two's complement when `signed`.
pub open spec fn spec_extract_raw(data: Seq<u8>, spec: FieldSpec) -> Option<int> {
    let bits = spec_msb_first(spec);
    if spec.length == 0 || spec.length > 63 || !bits_inside(data, bits) {
        None
    } else {
        let v = assemble(data, bits);
        if spec.signed && v >= pow2((spec.length - 1) as nat) {
            Some(v - pow2(spec.length as nat))
        } else {
            Some(v as int)
        }
    }
}

proof fn lemma_bit_value_le_1(data: Seq<u8>, b: u32)
    requires
        (b / 8) < data.len(),
    ensures
        bit_value(data, b) <= 1,
{
    let x = data[(b / 8) as int];
    let s = (b % 8) as u8;
    assert((x >> s) & 1u8 <= 1u8) by (bit_vector);
}

/// The assembled value of `n` bits is below `2^n`.
pub proof fn lemma_assemble_bound(data: Seq<u8>, bits: Seq<u32>)
    requires
        bits_inside(data, bits),
    ensures
        assemble(data, bits) < pow2(bits.len()),
    decreases bits.len(),
{
    if bits.len() > 0 {
        let prefix = bits.drop_last();
        assert(bits_inside(data, prefix)) by {
            assert forall|k: int| 0 <= k < prefix.len() implies (#[trigger] prefix[k]) / 8
                < data.len() by {
                assert(prefix[k] == bits[k]);
            }
        }
        lemma_assemble_bound(data, prefix);
        assert(bits[bits.len() - 1] / 8 < data.len());
        lemma_bit_value_le_1(data, bits.last());
        lemma_pow2_unfold(bits.len());
        assert(prefix.len() == bits.len() - 1);
        assert(assemble(data, bits) == assemble(data, prefix) * 2 + bit_value(data, bits.last()));
    } else {
        lemma_pow2_pos(0);
    }
}

/// Bits occupied by a field, in walk order (Motorola MSB→LSB, Intel LSB→MSB).
pub fn occupied_bits(start_bit: u32, length: u32, endianness: Endianness) -> (bits: Vec<u32>)
    ensures
        bits@ == spec_occupied_bits(start_bit, length, endianness),
{
    let mut bits: Vec<u32> = Vec::new();
    match endianness {
        Endianness::Motorola => {
            let mut bit: u32 = start_bit;
            let mut i: u32 = 0;
            while i < length
                invariant
                    i <= length,
                    bit == motorola_bit(start_bit, i as nat),
                    bits@ =~= Seq::new(i as nat, |k: int| motorola_bit(start_bit, k as nat)),
                decreases length - i,
            {
                bits.push(bit);
                if bit % 8 == 0 {
                    bit = bit.saturating_add(15);
                } else {
                    bit = bit - 1;
                }
                i = i + 1;
            }
        },
        Endianness::Intel => {
            let end = start_bit.saturating_add(length);
            let mut bit: u32 = start_bit;
            while bit < end
                invariant
                    start_bit <= bit,
                    end == if start_bit + length <= u32::MAX {
                        (start_bit + length) as u32
                    } else {
                        u32::MAX
                    },
                    bit <= end || bit == start_bit,
                    bits@ =~= Seq::new((bit - start_bit) as nat, |k: int| (start_bit + k) as u32),
                decreases end - bit,
            {
                bits.push(bit);
                bit = bit + 1;
            }
        },
    }
    bits
}

/// Bits occupied by a signal, given its DBC byte-order string
/// (`"big_endian"` or `"motorola"` select Motorola, anything else Intel).
pub fn signal_occupied_bits(start_bit: u32, length: u32, byte_order: &str) -> (bits: Vec<u32>)
    ensures
        bits@ == spec_occupied_bits(start_bit, length, endianness_of(byte_order@)),
{
    occupied_bits(start_bit, length, endianness_for(byte_order))
}

/// The byte order a DBC byte-order string names (`"big_endian"` or
/// `"motorola"` select Motorola, anything else Intel).
pub fn endianness_for(byte_order: &str) -> (e: Endianness)
    ensures
        e == endianness_of(byte_order@),
{
    if str_eq(byte_order, "big_endian") || str_eq(byte_order, "motorola") {
        Endianness::Motorola
    } else {
        Endianness::Intel
    }
}

/// Occupied bits in MSB-first significance order (for value assembly).
pub fn occupied_bits_msb_first(spec: &FieldSpec) -> (bits: Vec<u32>)
    ensures
        bits@ == spec_msb_first(*spec),
{
    let bits = occupied_bits(spec.start_bit, spec.length, spec.endianness);
    match spec.endianness {
        Endianness::Intel => {
            let mut rev: Vec<u32> = Vec::new();
            let n = bits.len();
            let mut i: usize = n;
            while i > 0
                invariant
                    n == bits@.len(),
                    i <= n,
                    rev@ =~= bits@.reverse().subrange(0, (n - i) as int),
                decreases i,
            {
                i = i - 1;
                rev.push(bits[i]);
            }
            assert(rev@ =~= bits@.reverse());
            rev
        },
        Endianness::Motorola => bits,
    }
}

/// Extract the raw integer value of a field from a payload.
///
/// Returns `None` if the length is outside `1..=63` or any occupied bit lies
/// outside `data`.
pub fn extract_raw(data: &[u8], spec: &FieldSpec) -> (r: Option<i64>)
    ensures
        r matches Some(v) ==> spec_extract_raw(data@, *spec) == Some(v as int),
        r is None ==> spec_extract_raw(data@, *spec) is None,
{
    if spec.length == 0 || spec.length > 63 {
        return None;
    }
    let bits = occupied_bits_msb_first(spec);
    let ghost gbits = bits@;
    assert(gbits.len() <= spec.length);
    let mut value: u64 = 0;
    let mut i: usize = 0;
    while i < bits.len()
        invariant
            gbits == bits@,
            gbits == spec_msb_first(*spec),
            gbits.len() <= 63,
            i <= gbits.len(),
            bits_inside(data@, gbits.subrange(0, i as int)),
            value as nat == assemble(data@, gbits.subrange(0, i as int)),
        decreases gbits.len() - i,
    {
        let bit = bits[i];
        let byte = (bit / 8) as usize;
        if byte >= data.len() {
            assert(!bits_inside(data@, gbits));
            return None;
        }
        let ghost prefix = gbits.subrange(0, i as int);
        let ghost next = gbits.subrange(0, i + 1);
        assert(next.drop_last() =~= prefix);
        proof {
            lemma_assemble_bound(data@, prefix);
            lemma_pow2_strictly_increases(i as nat, 63);
            lemma2_to64_rest();
        }
        let x: u8 = data[byte];
        let sh: u8 = (bit % 8) as u8;
        let b: u8 = (x >> sh) & 1u8;
        assert(b <= 1u8) by (bit_vector)
            requires
                b == (x >> sh) & 1u8,
        ;
        assert(value < 0x8000_0000_0000_0000u64);
        let v2: u64 = (value << 1u64) | (b as u64);
        assert(v2 == value * 2 + b) by (bit_vector)
            requires
                v2 == (value << 1u64) | (b as u64),
                value < 0x8000_0000_0000_0000u64,
                b <= 1u8,
        ;
        value = v2;
        assert(bits_inside(data@, next)) by {
            assert forall|k: int| 0 <= k < next.len() implies (#[trigger] next[k]) / 8
                < data@.len() by {
                if k < i {
                    assert(next[k] == prefix[k]);
                }
            }
        }
        i = i + 1;
    }
    assert(gbits.subrange(0, gbits.len() as int) =~= gbits);
    proof {
        lemma_assemble_bound(data@, gbits);
        if gbits.len() < spec.length {
            lemma_pow2_strictly_increases(gbits.len(), spec.length as nat);
        }
        lemma_u64_pow2_no_overflow(spec.length as nat);
        lemma_u64_pow2_no_overflow((spec.length - 1) as nat);
        lemma_pow2_unfold(spec.length as nat);
    }
    let len = spec.length;
    let half: u64 = 1u64 << ((len - 1) as u64);
    proof {
        lemma_u64_shl_is_mul(1u64, (len - 1) as u64);
    }
    assert(value < 2 * half);
    assert(half == pow2((len - 1) as nat));
    assert(pow2(len as nat) == 2 * half);
    assert(value as nat == assemble(data@, gbits));
    proof {
        if len < 63 {
            lemma_pow2_strictly_increases(len as nat, 63);
        }
        lemma2_to64_rest();
    }
    assert(value < 0x8000_0000_0000_0000u64);
    if spec.signed && value >= half {
        // value - 2^len, computed without leaving the i64 range.
        let r: i64 = (value - half) as i64 - (half as i64);
        Some(r)
    } else {
        Some(value as i64)
    }
}

/// The MSB-first bit sequence, together with length and signedness, fully
/// determines the extracted value: two field specs that occupy the same bits
/// in the same significance order extract the same value from every payload.
pub proof fn lemma_same_bits_same_value(data: Seq<u8>, a: FieldSpec, b: FieldSpec)
    requires
        spec_msb_first(a) == spec_msb_first(b),
        a.length == b.length,
        a.signed == b.signed,
    ensures
        spec_extract_raw(data, a) == spec_extract_raw(data, b),
{
}

/// An unsigned field of `n` bits extracts a value in `0 .. 2^n`; a signed one
/// a value in `-2^(n-1) .. 2^(n-1)`.
pub proof fn lemma_extract_range(data: Seq<u8>, spec: FieldSpec)
    requires
        spec_extract_raw(data, spec) is Some,
    ensures
        !spec.signed ==> 0 <= spec_extract_raw(data, spec).unwrap() < pow2(spec.length as nat),
        spec.signed ==> -pow2((spec.length - 1) as nat) <= spec_extract_raw(data, spec).unwrap()
            < pow2((spec.length - 1) as nat),
{
    let bits = spec_msb_first(spec);
    lemma_assemble_bound(data, bits);
    assert(bits.len() <= spec.length);
    if bits.len() < spec.length {
        lemma_pow2_strictly_increases(bits.len(), spec.length as nat);
    }
    lemma_pow2_unfold(spec.length as nat);
}

/// Every field occupies exactly `length` bits unless an Intel range runs into
/// `u32::MAX`, and the Motorola walk starts at the start bit.
pub proof fn lemma_occupied_len(start: u32, length: u32, e: Endianness)
    ensures
        spec_occupied_bits(start, length, e).len() <= length,
        (e == Endianness::Motorola || start + length <= u32::MAX) ==> spec_occupied_bits(
            start,
            length,
            e,
        ).len() == length,
        spec_occupied_bits(start, length, e).len() > 0 ==> spec_occupied_bits(start, length, e)[0]
            == start,
{
}

} // verus!
