//! Text primitives: string comparison, hexadecimal and decimal rendering,
//! whitespace classification and hexadecimal parsing.
use vstd::prelude::*;
use vstd::string::*;

verus! {

/// `String::push`: appends one character.
#[verifier::external_body]
pub(crate) fn push_char(s: &mut String, c: char)
    ensures
        final(s)@ == old(s)@.push(c),
{
    s.push(c);
}

/// Character-wise equality of two string slices.
pub fn str_eq(a: &str, b: &str) -> (r: bool)
    ensures
        r == (a@ == b@),
{
    let n = a.unicode_len();
    let m = b.unicode_len();
    if n != m {
        return false;
    }
    let mut i: usize = 0;
    while i < n
        invariant
            n == a@.len(),
            m == b@.len(),
            n == m,
            i <= n,
            forall|k: int| 0 <= k < i ==> a@[k] == b@[k],
        decreases n - i,
    {
        if a.get_char(i) != b.get_char(i) {
            return false;
        }
        i = i + 1;
    }
    assert(a@ =~= b@);
    true
}

/// Upper-case hexadecimal digit of `d < 16`.
pub open spec fn hex_digit(d: nat) -> char {
    if d < 10 {
        (48 + d) as char
    } else {
        (55 + d) as char
    }
}

/// Decimal digit of `d < 10`.
pub open spec fn dec_digit(d: nat) -> char {
    (48 + d) as char
}

/// Minimal upper-case hexadecimal rendering of `n` (`0` renders as `"0"`).
pub open spec fn hex_str(n: nat) -> Seq<char>
    decreases n,
{
    if n < 16 {
        seq![hex_digit(n)]
    } else {
        hex_str(n / 16).push(hex_digit(n % 16))
    }
}

/// Minimal decimal rendering of `n`.
pub open spec fn dec_str(n: nat) -> Seq<char>
    decreases n,
{
    if n < 10 {
        seq![dec_digit(n)]
    } else {
        dec_str(n / 10).push(dec_digit(n % 10))
    }
}

/// `s` left-padded with `'0'` to at least `width` characters.
pub open spec fn zero_pad(s: Seq<char>, width: nat) -> Seq<char> {
    if s.len() >= width {
        s
    } else {
        Seq::new((width - s.len()) as nat, |i: int| '0') + s
    }
}

/// `format!("{n:0width$X}")`.
pub open spec fn hex_padded(n: nat, width: nat) -> Seq<char> {
    zero_pad(hex_str(n), width)
}

/// `format!("{n}")` for a signed integer.
pub open spec fn int_str(n: int) -> Seq<char> {
    if n < 0 {
        seq!['-'] + dec_str((-n) as nat)
    } else {
        dec_str(n as nat)
    }
}

fn hex_char(d: u64) -> (c: char)
    requires
        d < 16,
    ensures
        c == hex_digit(d as nat),
{
    let table: [char; 16] = [
        '0', '1', '2', '3', '4', '5', '6', '7', '8', '9', 'A', 'B', 'C', 'D', 'E', 'F',
    ];
    assert(table@ == seq![
        '0', '1', '2', '3', '4', '5', '6', '7', '8', '9', 'A', 'B', 'C', 'D', 'E', 'F',
    ]);
    table[d as usize]
}

fn dec_char(d: u64) -> (c: char)
    requires
        d < 10,
    ensures
        c == dec_digit(d as nat),
{
    let table: [char; 10] = ['0', '1', '2', '3', '4', '5', '6', '7', '8', '9'];
    assert(table@ == seq!['0', '1', '2', '3', '4', '5', '6', '7', '8', '9']);
    table[d as usize]
}

/// Appends `format!("{n:0width$X}")`.
pub fn push_hex(s: &mut String, n: u64, width: usize)
    ensures
        final(s)@ == old(s)@ + hex_padded(n as nat, width as nat),
{
    // Collect digits least significant first.
    let mut digits: Vec<char> = Vec::new();
    let mut m: u64 = n;
    let ghost mut rest: nat = n as nat;
    loop
        invariant_except_break
            m as nat == rest,
            hex_str(n as nat) == hex_str(rest) + digits@.reverse(),
        ensures
            hex_str(n as nat) =~= digits@.reverse(),
        decreases m,
    {
        if m < 16 {
            digits.push(hex_char(m));
            proof {
                assert(hex_str(rest) == seq![hex_digit(rest)]);
                assert(digits@.reverse() =~= seq![hex_digit(rest)] + digits@.drop_last().reverse());
                assert(hex_str(n as nat) =~= digits@.reverse());
            }
            break;
        }
        let d = m % 16;
        proof {
            assert(hex_str(rest) == hex_str(rest / 16).push(hex_digit(rest % 16)));
        }
        digits.push(hex_char(d));
        proof {
            assert(digits@.reverse() =~= seq![hex_digit(rest % 16)] + digits@.drop_last().reverse());
            assert(hex_str(n as nat) =~= hex_str(rest / 16) + digits@.reverse());
        }
        m = m / 16;
        proof {
            rest = rest / 16;
        }
    }
    assert(hex_str(n as nat) =~= digits@.reverse());
    let len = digits.len();
    let ghost start = s@;
    if len < width {
        let mut k: usize = 0;
        while k < width - len
            invariant
                len < width,
                k <= width - len,
                s@ =~= start + Seq::new(k as nat, |i: int| '0'),
            decreases width - len - k,
        {
            push_char(s, '0');
            k = k + 1;
        }
    }
    let ghost mid = s@;
    let mut i: usize = len;
    while i > 0
        invariant
            len == digits@.len(),
            i <= len,
            s@ =~= mid + digits@.reverse().subrange(0, (len - i) as int),
        decreases i,
    {
        i = i - 1;
        push_char(s, digits[i]);
    }
    assert(digits@.reverse().subrange(0, len as int) =~= digits@.reverse());
}

/// Appends `format!("{n}")`.
pub fn push_dec(s: &mut String, n: u64)
    ensures
        final(s)@ == old(s)@ + dec_str(n as nat),
{
    let mut digits: Vec<char> = Vec::new();
    let mut m: u64 = n;
    let ghost mut rest: nat = n as nat;
    loop
        invariant_except_break
            m as nat == rest,
            dec_str(n as nat) == dec_str(rest) + digits@.reverse(),
        ensures
            dec_str(n as nat) =~= digits@.reverse(),
        decreases m,
    {
        if m < 10 {
            digits.push(dec_char(m));
            proof {
                assert(digits@.reverse() =~= seq![dec_digit(rest)] + digits@.drop_last().reverse());
                assert(dec_str(n as nat) =~= digits@.reverse());
            }
            break;
        }
        let d = m % 10;
        proof {
            assert(dec_str(rest) == dec_str(rest / 10).push(dec_digit(rest % 10)));
        }
        digits.push(dec_char(d));
        proof {
            assert(digits@.reverse() =~= seq![dec_digit(rest % 10)] + digits@.drop_last().reverse());
            assert(dec_str(n as nat) =~= dec_str(rest / 10) + digits@.reverse());
        }
        m = m / 10;
        proof {
            rest = rest / 10;
        }
    }
    assert(dec_str(n as nat) =~= digits@.reverse());
    let len = digits.len();
    let ghost mid = s@;
    let mut i: usize = len;
    while i > 0
        invariant
            len == digits@.len(),
            i <= len,
            s@ =~= mid + digits@.reverse().subrange(0, (len - i) as int),
        decreases i,
    {
        i = i - 1;
        push_char(s, digits[i]);
    }
    assert(digits@.reverse().subrange(0, len as int) =~= digits@.reverse());
}

/// Appends `format!("{n}")` for a signed integer.
pub fn push_int(s: &mut String, n: i64)
    ensures
        final(s)@ == old(s)@ + int_str(n as int),
{
    let ghost o = s@;
    if n < 0 {
        push_char(s, '-');
        let m: u64 = (-(n as i128)) as u64;
        push_dec(s, m);
        assert(s@ =~= o + int_str(n as int));
    } else {
        push_dec(s, n as u64);
    }
}

/// Appends the characters of a string slice.
pub fn push_str(s: &mut String, t: &str)
    ensures
        final(s)@ == old(s)@ + t@,
{
    s.append(t);
}

/// Unicode `White_Space` (what `char::is_whitespace` accepts).
pub open spec fn is_ws(c: char) -> bool {
    let u = c as u32;
    (0x09 <= u <= 0x0D) || u == 0x20 || u == 0x85 || u == 0xA0 || u == 0x1680 || (0x2000 <= u
        <= 0x200A) || u == 0x2028 || u == 0x2029 || u == 0x202F || u == 0x205F || u == 0x3000
}

/// `char::is_whitespace`.
pub fn is_whitespace(c: char) -> (r: bool)
    ensures
        r == is_ws(c),
{
    let u = c as u32;
    (0x09 <= u && u <= 0x0D) || u == 0x20 || u == 0x85 || u == 0xA0 || u == 0x1680 || (0x2000
        <= u && u <= 0x200A) || u == 0x2028 || u == 0x2029 || u == 0x202F || u == 0x205F || u
        == 0x3000
}

/// Value of a hexadecimal digit of either case.
pub open spec fn hex_val(c: char) -> Option<nat> {
    if '0' <= c <= '9' {
        Some((c as u32 - '0' as u32) as nat)
    } else if 'a' <= c <= 'f' {
        Some((c as u32 - 'a' as u32 + 10) as nat)
    } else if 'A' <= c <= 'F' {
        Some((c as u32 - 'A' as u32 + 10) as nat)
    } else {
        None
    }
}

/// All characters are hexadecimal digits.
pub open spec fn all_hex(s: Seq<char>) -> bool {
    forall|i: int| 0 <= i < s.len() ==> #[trigger] hex_val(s[i]) is Some
}

/// The number the hexadecimal digits denote.
pub open spec fn hex_num(s: Seq<char>) -> nat
    decreases s.len(),
{
    if s.len() == 0 {
        0
    } else {
        hex_num(s.drop_last()) * 16 + hex_val(s.last())->Some_0
    }
}

/// `from_str_radix(s, 16)` for an unsigned type whose maximum is `max`:
/// an optional `+`, then at least one hexadecimal digit, denoting at most
/// `max`.
pub open spec fn parse_hex(s: Seq<char>, max: nat) -> Option<nat> {
    let digits = if s.len() > 0 && s[0] == '+' {
        s.drop_first()
    } else {
        s
    };
    if digits.len() == 0 || !all_hex(digits) || hex_num(digits) > max {
        None
    } else {
        Some(hex_num(digits))
    }
}

pub(crate) fn hex_value_of(c: char) -> (r: Option<u64>)
    ensures
        r matches Some(v) ==> hex_val(c) == Some(v as nat) && v < 16,
        r is None ==> hex_val(c) is None,
{
    if '0' <= c && c <= '9' {
        Some((c as u32 - '0' as u32) as u64)
    } else if 'a' <= c && c <= 'f' {
        Some((c as u32 - 'a' as u32 + 10) as u64)
    } else if 'A' <= c && c <= 'F' {
        Some((c as u32 - 'A' as u32 + 10) as u64)
    } else {
        None
    }
}

proof fn lemma_hex_num_monotone(s: Seq<char>, k: int)
    requires
        0 <= k <= s.len(),
        all_hex(s),
    ensures
        hex_num(s.take(k)) <= hex_num(s),
    decreases s.len() - k,
{
    if k < s.len() {
        lemma_hex_num_monotone(s, k + 1);
        assert(s.take(k + 1).drop_last() =~= s.take(k));
    } else {
        assert(s.take(k) =~= s);
    }
}

/// Parse the characters `s[from .. to]` as `from_str_radix(.., 16)` with
/// maximum `max`.
pub fn parse_hex_chars(s: &Vec<char>, from: usize, to: usize, max: u64) -> (r: Option<u64>)
    requires
        from <= to <= s@.len(),
    ensures
        r matches Some(v) ==> parse_hex(s@.subrange(from as int, to as int), max as nat) == Some(v as nat),
        r is None ==> parse_hex(s@.subrange(from as int, to as int), max as nat) is None,
{
    let ghost t = s@.subrange(from as int, to as int);
    let mut start = from;
    if from < to && s[from] == '+' {
        start = from + 1;
    }
    let ghost digits = s@.subrange(start as int, to as int);
    assert(digits =~= if t.len() > 0 && t[0] == '+' {
        t.drop_first()
    } else {
        t
    });
    if start == to {
        return None;
    }
    let mut value: u64 = 0;
    let mut too_big = false;
    let mut i = start;
    while i < to
        invariant
            start <= i <= to,
            to <= s@.len(),
            digits == s@.subrange(start as int, to as int),
            t == s@.subrange(from as int, to as int),
            digits == (if t.len() > 0 && t[0] == '+' {
                t.drop_first()
            } else {
                t
            }),
            all_hex(digits.take(i - start)),
            !too_big ==> value == hex_num(digits.take(i - start)) && value <= max,
            too_big ==> hex_num(digits.take(i - start)) > max,
        decreases to - i,
    {
        let c = s[i];
        let ghost k = i - start;
        proof {
            assert(digits.take(k + 1).drop_last() =~= digits.take(k));
            assert(digits.take(k + 1).last() == c);
        }
        match hex_value_of(c) {
            None => {
                proof {
                    assert(digits[k] == c);
                    assert(hex_val(digits[k]) is None);
                    assert(!all_hex(digits));
                }
                return None;
            },
            Some(d) => {
                proof {
                    assert forall|j: int| 0 <= j < k + 1 implies #[trigger] hex_val(digits.take(k + 1)[j]) is Some by {
                        if j < k {
                            assert(digits.take(k + 1)[j] == digits.take(k)[j]);
                        }
                    }
                }
                proof {
                    assert(digits[k] == c);
                    assert(hex_num(digits.take(k + 1)) == hex_num(digits.take(k)) * 16 + d);
                }
                if !too_big {
                    if d > max || value > (max - d) / 16 {
                        too_big = true;
                        assert(value * 16 + d > max) by (nonlinear_arith)
                            requires
                                d > max || value > (max - d) / 16,
                        {
                        }
                    } else {
                        assert(value * 16 + d <= max) by (nonlinear_arith)
                            requires
                                value <= (max - d) / 16,
                                d < 16,
                                max >= d || max < d,
                        {
                        }
                        value = value * 16 + d;
                    }
                }
            },
        }
        i = i + 1;
    }
    assert(digits.take(to - start) =~= digits);
    if too_big {
        None
    } else {
        Some(value)
    }
}

/// The lowercase mapping of a string (Unicode `Lowercase` mapping, as
/// `str::to_lowercase` computes it).
pub uninterp spec fn lowercase_of(s: Seq<char>) -> Seq<char>;

/// `str::to_lowercase`. Its result is named, not described: it is the
/// Unicode lowercase mapping of the argument, which depends on the argument
/// alone.
#[verifier::external_body]
pub(crate) fn to_lowercase(s: &str) -> (r: String)
    ensures
        r@ == lowercase_of(s@),
{
    s.to_lowercase()
}

/// The uppercase mapping of a string (Unicode `Uppercase` mapping, as
/// `str::to_uppercase` computes it).
pub uninterp spec fn uppercase_of(s: Seq<char>) -> Seq<char>;

/// Every character is ASCII.
pub open spec fn is_ascii_text(s: Seq<char>) -> bool {
    forall|i: int| 0 <= i < s.len() ==> (#[trigger] s[i] as u32) < 128
}

/// ASCII letters `a`–`z` mapped to `A`–`Z`, every other character kept.
pub open spec fn ascii_upper(s: Seq<char>) -> Seq<char> {
    Seq::new(
        s.len(),
        |i: int|
            if 'a' <= s[i] <= 'z' {
                ((s[i] as u32) - 32) as char
            } else {
                s[i]
            },
    )
}

/// `str::to_uppercase`. Its result is named, not described: it is the
/// Unicode uppercase mapping of the argument, which depends on the argument
/// alone. Of an ASCII string the documentation gives the result: ASCII
/// letters become capitals and every other ASCII character has no
/// uppercase mapping, so it stays.
#[verifier::external_body]
pub(crate) fn to_uppercase(s: &str) -> (r: String)
    ensures
        r@ == uppercase_of(s@),
        is_ascii_text(s@) ==> r@ == ascii_upper(s@),
{
    s.to_uppercase()
}

/// `needle` occurs in `hay` as a contiguous run (`str::contains`).
pub open spec fn has_substring(hay: Seq<char>, needle: Seq<char>) -> bool {
    exists|i: int| 0 <= i && i + needle.len() <= hay.len() && #[trigger] hay.subrange(i, i + needle.len()) == needle
}

/// `hay.contains(needle)` for string slices.
pub fn str_contains(hay: &str, needle: &str) -> (r: bool)
    ensures
        r == has_substring(hay@, needle@),
{
    let n = hay.unicode_len();
    let m = needle.unicode_len();
    if m > n {
        proof {
            if has_substring(hay@, needle@) {
                let i = choose|i: int| 0 <= i && i + needle@.len() <= hay@.len() && #[trigger] hay@.subrange(i, i + needle@.len()) == needle@;
            }
        }
        return false;
    }
    if m == 0 {
        assert(hay@.subrange(0int, 0int + needle@.len()) =~= needle@);
        return true;
    }
    let mut i: usize = 0;
    while i <= n - m
        invariant
            n == hay@.len(),
            m == needle@.len(),
            1 <= m <= n,
            i <= n - m + 1,
            forall|j: int| 0 <= j < i ==> #[trigger] hay@.subrange(j, j + m) != needle@,
        decreases n - m + 1 - i,
    {
        let mut k: usize = 0;
        let mut same = true;
        while k < m && same
            invariant
                n == hay@.len(),
                m == needle@.len(),
                i + m <= n,
                k <= m,
                same ==> forall|t: int| 0 <= t < k ==> hay@[i + t] == needle@[t],
                !same ==> hay@.subrange(i as int, i + m) != needle@,
            decreases m - k,
        {
            if hay.get_char(i + k) != needle.get_char(k) {
                same = false;
                assert(hay@.subrange(i as int, i + m)[k as int] != needle@[k as int]);
            }
            k = k + 1;
        }
        if same {
            assert(hay@.subrange(i as int, i + m) =~= needle@);
            return true;
        }
        i = i + 1;
    }
    false
}

} // verus!
