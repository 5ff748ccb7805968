//! Numbers typed by the user: hexadecimal CAN IDs and OBD PIDs, decimal
//! bytes, with the reasons a value is refused.
use vstd::prelude::*;

use crate::filter::chars_of;
use crate::helpers::{can_id_text, id_digits, lemma_can_id_text_roundtrip, strip_all, trim_end, trim_start};
use crate::text::{all_hex, hex_num, hex_val, hex_value_of, is_whitespace, parse_hex};

verus! {

/// Why a typed number was refused (`core::num::IntErrorKind`).
#[derive(Debug, Clone, Copy, PartialEq, Eq, Structural)]
pub enum HexError {
    /// No characters at all.
    Empty,
    /// A character that is not a hexadecimal digit (or a lone sign).
    InvalidDigit,
    /// The number exceeds the target type.
    PosOverflow,
}

/// Reads the digits left to right: the first non-digit or the first digit
/// taking the value past `max` decides the error.
pub open spec fn hex_scan(d: Seq<char>, max: nat) -> Result<nat, HexError>
    decreases d.len(),
{
    if d.len() == 0 {
        Ok(0)
    } else {
        match hex_scan(d.drop_last(), max) {
            Err(e) => Err(e),
            Ok(v) => match hex_val(d.last()) {
                None => Err(HexError::InvalidDigit),
                Some(x) => if v * 16 + x > max {
                    Err(HexError::PosOverflow)
                } else {
                    Ok(v * 16 + x)
                },
            },
        }
    }
}

/// `from_str_radix(s, 16)` for an unsigned type whose maximum is `max`.
pub open spec fn radix16(s: Seq<char>, max: nat) -> Result<nat, HexError> {
    if s.len() == 0 {
        Err(HexError::Empty)
    } else if s.len() == 1 && (s[0] == '+' || s[0] == '-') {
        Err(HexError::InvalidDigit)
    } else if s[0] == '+' {
        hex_scan(s.drop_first(), max)
    } else {
        hex_scan(s, max)
    }
}

/// The digits of a CAN ID argument: without leading `0x`s, then without
/// leading `0X`s.
pub open spec fn can_id_digits(s: Seq<char>) -> Seq<char> {
    strip_all(strip_all(s, "0x"@), "0X"@)
}

/// The value read from `cs[from .. to]`.
fn radix16_in(cs: &Vec<char>, from: usize, to: usize, max: u64) -> (r: Result<u64, HexError>)
    requires
        from <= to <= cs@.len(),
        max <= u32::MAX,
    ensures
        r matches Ok(v) ==> v <= max,
        match r {
            Ok(v) => radix16(cs@.subrange(from as int, to as int), max as nat) == Ok::<nat, HexError>(v as nat),
            Err(e) => radix16(cs@.subrange(from as int, to as int), max as nat) == Err::<nat, HexError>(e),
        },
{
    let ghost s = cs@.subrange(from as int, to as int);
    if from == to {
        return Err(HexError::Empty);
    }
    if to - from == 1 && (cs[from] == '+' || cs[from] == '-') {
        return Err(HexError::InvalidDigit);
    }
    let start = if cs[from] == '+' {
        from + 1
    } else {
        from
    };
    let ghost d = cs@.subrange(start as int, to as int);
    assert(cs[from as int] == '+' ==> d =~= s.drop_first());
    assert(cs[from as int] != '+' ==> d =~= s);
    assert(radix16(s, max as nat) == hex_scan(d, max as nat));
    let mut v: u64 = 0;
    let mut i: usize = start;
    while i < to
        invariant
            from <= start <= i <= to,
            to <= cs@.len(),
            max <= u32::MAX,
            d == cs@.subrange(start as int, to as int),
            s == cs@.subrange(from as int, to as int),
            radix16(s, max as nat) == hex_scan(d, max as nat),
            v <= max,
            hex_scan(cs@.subrange(start as int, i as int), max as nat) == Ok::<nat, HexError>(v as nat),
        decreases to - i,
    {
        let c = cs[i];
        let ghost pre = cs@.subrange(start as int, i as int);
        let ghost next = cs@.subrange(start as int, i + 1);
        assert(next.drop_last() =~= pre);
        assert(next.last() == c);
        let x = match hex_value_of(c) {
            Some(x) => x,
            None => {
                proof {
                    assert(d.take(i - start + 1) =~= next);
                    assert(hex_scan(next, max as nat) == Err::<nat, HexError>(HexError::InvalidDigit));
                    lemma_scan_stops(d, (i - start) as int, max as nat);
                }
                return Err(HexError::InvalidDigit);
            },
        };
        if v * 16 + x > max {
            proof {
                assert(d.take(i - start + 1) =~= next);
                assert(hex_scan(next, max as nat) == Err::<nat, HexError>(HexError::PosOverflow));
                lemma_scan_stops(d, (i - start) as int, max as nat);
            }
            return Err(HexError::PosOverflow);
        }
        v = v * 16 + x;
        i = i + 1;
    }
    assert(cs@.subrange(start as int, to as int) =~= d);
    Ok(v)
}

/// Once reading stops at a digit, the rest does not matter.
proof fn lemma_scan_stops(d: Seq<char>, k: int, max: nat)
    requires
        0 <= k < d.len(),
        hex_scan(d.take(k + 1), max) is Err,
    ensures
        hex_scan(d, max) == hex_scan(d.take(k + 1), max),
    decreases d.len(),
{
    if d.len() > k + 1 {
        assert(d.drop_last().take(k + 1) =~= d.take(k + 1));
        lemma_scan_stops(d.drop_last(), k, max);
    } else {
        assert(d.take(k + 1) =~= d);
    }
}

/// Value of a decimal digit.
pub open spec fn dec_val(c: char) -> Option<nat> {
    if '0' <= c <= '9' {
        Some((c as u32 - '0' as u32) as nat)
    } else {
        None
    }
}

fn dec_value_of(c: char) -> (r: Option<u64>)
    ensures
        match r {
            Some(v) => dec_val(c) == Some(v as nat) && v < 10,
            None => dec_val(c) is None,
        },
{
    if '0' <= c && c <= '9' {
        Some((c as u32 - '0' as u32) as u64)
    } else {
        None
    }
}

/// Reads decimal digits left to right: the first non-digit or the first digit
/// taking the value past `max` decides the error.
pub open spec fn dec_scan(d: Seq<char>, max: nat) -> Result<nat, HexError>
    decreases d.len(),
{
    if d.len() == 0 {
        Ok(0)
    } else {
        match dec_scan(d.drop_last(), max) {
            Err(e) => Err(e),
            Ok(v) => match dec_val(d.last()) {
                None => Err(HexError::InvalidDigit),
                Some(x) => if v * 10 + x > max {
                    Err(HexError::PosOverflow)
                } else {
                    Ok(v * 10 + x)
                },
            },
        }
    }
}

/// `from_str_radix(s, 10)` (`str::parse`) for an unsigned type whose maximum is `max`.
pub open spec fn radix10(s: Seq<char>, max: nat) -> Result<nat, HexError> {
    if s.len() == 0 {
        Err(HexError::Empty)
    } else if s.len() == 1 && (s[0] == '+' || s[0] == '-') {
        Err(HexError::InvalidDigit)
    } else if s[0] == '+' {
        dec_scan(s.drop_first(), max)
    } else {
        dec_scan(s, max)
    }
}

/// The decimal value read from `cs[from .. to]`.
fn radix10_in(cs: &Vec<char>, from: usize, to: usize, max: u64) -> (r: Result<u64, HexError>)
    requires
        from <= to <= cs@.len(),
        max <= u32::MAX,
    ensures
        r matches Ok(v) ==> v <= max,
        match r {
            Ok(v) => radix10(cs@.subrange(from as int, to as int), max as nat) == Ok::<nat, HexError>(v as nat),
            Err(e) => radix10(cs@.subrange(from as int, to as int), max as nat) == Err::<nat, HexError>(e),
        },
{
    let ghost s = cs@.subrange(from as int, to as int);
    if from == to {
        return Err(HexError::Empty);
    }
    if to - from == 1 && (cs[from] == '+' || cs[from] == '-') {
        return Err(HexError::InvalidDigit);
    }
    let start = if cs[from] == '+' {
        from + 1
    } else {
        from
    };
    let ghost d = cs@.subrange(start as int, to as int);
    assert(cs[from as int] == '+' ==> d =~= s.drop_first());
    assert(cs[from as int] != '+' ==> d =~= s);
    assert(radix10(s, max as nat) == dec_scan(d, max as nat));
    let mut v: u64 = 0;
    let mut i: usize = start;
    while i < to
        invariant
            from <= start <= i <= to,
            to <= cs@.len(),
            max <= u32::MAX,
            d == cs@.subrange(start as int, to as int),
            s == cs@.subrange(from as int, to as int),
            radix10(s, max as nat) == dec_scan(d, max as nat),
            v <= max,
            dec_scan(cs@.subrange(start as int, i as int), max as nat) == Ok::<nat, HexError>(v as nat),
        decreases to - i,
    {
        let c = cs[i];
        let ghost pre = cs@.subrange(start as int, i as int);
        let ghost next = cs@.subrange(start as int, i + 1);
        assert(next.drop_last() =~= pre);
        assert(next.last() == c);
        let x = match dec_value_of(c) {
            Some(x) => x,
            None => {
                proof {
                    assert(d.take(i - start + 1) =~= next);
                    assert(dec_scan(next, max as nat) == Err::<nat, HexError>(HexError::InvalidDigit));
                    lemma_dec_scan_stops(d, (i - start) as int, max as nat);
                }
                return Err(HexError::InvalidDigit);
            },
        };
        if v * 10 + x > max {
            proof {
                assert(d.take(i - start + 1) =~= next);
                assert(dec_scan(next, max as nat) == Err::<nat, HexError>(HexError::PosOverflow));
                lemma_dec_scan_stops(d, (i - start) as int, max as nat);
            }
            return Err(HexError::PosOverflow);
        }
        v = v * 10 + x;
        i = i + 1;
    }
    assert(cs@.subrange(start as int, to as int) =~= d);
    Ok(v)
}

/// Once reading stops at a digit, the rest does not matter.
proof fn lemma_dec_scan_stops(d: Seq<char>, k: int, max: nat)
    requires
        0 <= k < d.len(),
        dec_scan(d.take(k + 1), max) is Err,
    ensures
        dec_scan(d, max) == dec_scan(d.take(k + 1), max),
    decreases d.len(),
{
    if d.len() > k + 1 {
        assert(d.drop_last().take(k + 1) =~= d.take(k + 1));
        lemma_dec_scan_stops(d.drop_last(), k, max);
    } else {
        assert(d.take(k + 1) =~= d);
    }
}

/// Parse a decimal `u8` (`str::parse::<u8>`): an optional `+`, then
/// decimal digits, at most 255.
pub fn parse_dec_u8(s: &str) -> (r: Result<u8, HexError>)
    ensures
        match r {
            Ok(v) => radix10(s@, u8::MAX as nat) == Ok::<nat, HexError>(v as nat),
            Err(e) => radix10(s@, u8::MAX as nat) == Err::<nat, HexError>(e),
        },
{
    let cs = chars_of(s);
    let n = cs.len();
    assert(cs@.subrange(0, n as int) =~= s@);
    match radix10_in(&cs, 0, n, u8::MAX as u64) {
        Ok(v) => Ok(v as u8),
        Err(e) => Err(e),
    }
}

/// Index past any leading copies of `a b` in `cs[from .. to]`.
fn skip_pairs(cs: &Vec<char>, from: usize, to: usize, a: char, b: char) -> (r: usize)
    requires
        from <= to <= cs@.len(),
    ensures
        from <= r <= to,
        cs@.subrange(r as int, to as int) == strip_all(cs@.subrange(from as int, to as int), seq![a, b]),
{
    let mut i = from;
    while to - i >= 2 && cs[i] == a && cs[i + 1] == b
        invariant
            from <= i <= to,
            to <= cs@.len(),
            strip_all(cs@.subrange(i as int, to as int), seq![a, b]) == strip_all(
                cs@.subrange(from as int, to as int),
                seq![a, b],
            ),
        decreases to - i,
    {
        assert(cs@.subrange(i + 2, to as int) =~= cs@.subrange(i as int, to as int).subrange(2, to - i));
        i = i + 2;
    }
    assert(strip_all(cs@.subrange(i as int, to as int), seq![a, b]) == cs@.subrange(i as int, to as int));
    i
}

/// Parse a hexadecimal CAN ID argument (`0x` prefixes optional).
pub fn parse_can_id(s: &str) -> (r: Result<u32, HexError>)
    ensures
        match r {
            Ok(v) => radix16(can_id_digits(s@), u32::MAX as nat) == Ok::<nat, HexError>(v as nat),
            Err(e) => radix16(can_id_digits(s@), u32::MAX as nat) == Err::<nat, HexError>(e),
        },
{
    let cs = chars_of(s);
    let n = cs.len();
    assert(cs@.subrange(0, n as int) =~= s@);
    proof {
        reveal_strlit("0x");
        reveal_strlit("0X");
        assert("0x"@ =~= seq!['0', 'x']);
        assert("0X"@ =~= seq!['0', 'X']);
    }
    let a = skip_pairs(&cs, 0, n, '0', 'x');
    let b = skip_pairs(&cs, a, n, '0', 'X');
    match radix16_in(&cs, b, n, u32::MAX as u64) {
        Ok(v) => Ok(v as u32),
        Err(e) => Err(e),
    }
}

/// Parse a hexadecimal PID argument (surrounding whitespace and `0x`
/// prefixes optional).
pub fn parse_pid(s: &str) -> (r: Result<u8, HexError>)
    ensures
        match r {
            Ok(v) => radix16(id_digits(s@), u8::MAX as nat) == Ok::<nat, HexError>(v as nat),
            Err(e) => radix16(id_digits(s@), u8::MAX as nat) == Err::<nat, HexError>(e),
        },
{
    let cs = chars_of(s);
    let n = cs.len();
    let ghost s0 = cs@.subrange(0, n as int);
    assert(s0 =~= s@);
    let mut a: usize = 0;
    while a < n && is_whitespace(cs[a])
        invariant
            a <= n,
            n == cs@.len(),
            trim_start(cs@.subrange(a as int, n as int)) == trim_start(s0),
        decreases n - a,
    {
        assert(cs@.subrange(a + 1, n as int) =~= cs@.subrange(a as int, n as int).drop_first());
        a = a + 1;
    }
    assert(trim_start(cs@.subrange(a as int, n as int)) == cs@.subrange(a as int, n as int));
    let mut b: usize = n;
    while b > a && is_whitespace(cs[b - 1])
        invariant
            a <= b <= n,
            n == cs@.len(),
            trim_end(cs@.subrange(a as int, b as int)) == trim_end(trim_start(s0)),
        decreases b - a,
    {
        assert(cs@.subrange(a as int, b - 1) =~= cs@.subrange(a as int, b as int).drop_last());
        b = b - 1;
    }
    assert(trim_end(cs@.subrange(a as int, b as int)) == cs@.subrange(a as int, b as int));
    proof {
        reveal_strlit("0x");
        reveal_strlit("0X");
        assert("0x"@ =~= seq!['0', 'x']);
        assert("0X"@ =~= seq!['0', 'X']);
    }
    let c = skip_pairs(&cs, a, b, '0', 'x');
    let d = skip_pairs(&cs, c, b, '0', 'X');
    assert(cs@.subrange(d as int, b as int) == id_digits(s@));
    match radix16_in(&cs, d, b, u8::MAX as u64) {
        Ok(v) => Ok(v as u8),
        Err(e) => Err(e),
    }
}

/// Reading succeeds exactly on hexadecimal digits denoting at most `max`,
/// with the number they denote.
proof fn lemma_scan_ok(d: Seq<char>, max: nat)
    ensures
        (hex_scan(d, max) is Ok) == (all_hex(d) && hex_num(d) <= max),
        hex_scan(d, max) is Ok ==> hex_scan(d, max) == Ok::<nat, HexError>(hex_num(d)),
    decreases d.len(),
{
    if d.len() > 0 {
        let p = d.drop_last();
        lemma_scan_ok(p, max);
        assert forall|i: int| 0 <= i < p.len() implies p[i] == d[i] by {}
        if all_hex(d) {
            assert forall|i: int| 0 <= i < p.len() implies #[trigger] hex_val(p[i]) is Some by {
                assert(hex_val(d[i]) is Some);
            }
            assert(hex_val(d[d.len() - 1]) is Some);
        }
        if all_hex(p) && hex_val(d.last()) is Some {
            assert forall|i: int| 0 <= i < d.len() implies #[trigger] hex_val(d[i]) is Some by {
                if i < p.len() {
                    assert(hex_val(p[i]) is Some);
                }
            }
        }
    }
}

/// The reason-giving reading agrees with `parse_hex`: it succeeds exactly
/// when `parse_hex` does, with the same number.
pub proof fn lemma_radix16_agrees(s: Seq<char>, max: nat)
    ensures
        (radix16(s, max) is Ok) == (parse_hex(s, max) is Some),
        parse_hex(s, max) matches Some(v) ==> radix16(s, max) == Ok::<nat, HexError>(v),
{
    if s.len() > 0 && s[0] == '+' {
        lemma_scan_ok(s.drop_first(), max);
    } else {
        lemma_scan_ok(s, max);
        if s.len() == 1 && s[0] == '-' {
            assert(hex_val(s[0]) is None);
        }
    }
}

/// A CAN ID as the viewer prints it (`0x` and fixed-width hex) is read back
/// by the command-line parser as the same ID.
pub proof fn lemma_printed_id_reads_back(id: u32, extended: bool)
    ensures
        radix16(can_id_digits(can_id_text(id, extended)), u32::MAX as nat) == Ok::<nat, HexError>(id as nat),
{
    let t = can_id_text(id, extended);
    lemma_can_id_text_roundtrip(id, extended);
    assert(id_digits(t) == can_id_digits(t));
    lemma_radix16_agrees(can_id_digits(t), u32::MAX as nat);
}

} // verus!
