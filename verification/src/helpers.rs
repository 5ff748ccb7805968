//! Shared text helpers of the viewer: CAN ID and payload rendering, CAN ID
//! parsing, and the choice of CAN network interfaces.
use vstd::prelude::*;

use crate::filter::{chars_of, pattern_element, pattern_matches, words};
use crate::report::join;
use crate::text::{hex_padded, is_whitespace, is_ws, parse_hex, parse_hex_chars, push_hex, push_str};

verus! {

/// `format!("0x{id:08X}")` extended, `format!("0x{id:03X}")` standard.
pub open spec fn can_id_text(id: u32, extended: bool) -> Seq<char> {
    "0x"@ + hex_padded(id as nat, if extended {
        8
    } else {
        3
    })
}

/// CAN id as hex, 3 digits standard / 8 digits extended.
pub fn format_can_id(id: u32, extended: bool) -> (s: String)
    ensures
        s@ == can_id_text(id, extended),
{
    let mut s = String::new();
    push_str(&mut s, "0x");
    if extended {
        push_hex(&mut s, id as u64, 8);
    } else {
        push_hex(&mut s, id as u64, 3);
    }
    s
}

pub open spec fn byte_texts(data: Seq<u8>) -> Seq<Seq<char>> {
    data.map_values(|b: u8| hex_padded(b as nat, 2))
}

/// Payload bytes as space-separated uppercase hex.
pub fn format_data_hex(data: &[u8]) -> (s: String)
    ensures
        s@ == join(byte_texts(data@), " "@),
{
    let ghost ps = byte_texts(data@);
    let mut s = String::new();
    let mut i: usize = 0;
    while i < data.len()
        invariant
            ps == byte_texts(data@),
            i <= data@.len(),
            s@ == join(ps.take(i as int), " "@),
        decreases data.len() - i,
    {
        proof {
            assert(ps.take(i + 1).drop_last() =~= ps.take(i as int));
        }
        if i > 0 {
            push_str(&mut s, " ");
        }
        push_hex(&mut s, data[i] as u64, 2);
        i = i + 1;
    }
    assert(ps.take(data@.len() as int) =~= ps);
    s
}

/// `s` without leading whitespace.
pub open spec fn trim_start(s: Seq<char>) -> Seq<char>
    decreases s.len(),
{
    if s.len() > 0 && is_ws(s[0]) {
        trim_start(s.drop_first())
    } else {
        s
    }
}

/// `s` without trailing whitespace.
pub open spec fn trim_end(s: Seq<char>) -> Seq<char>
    decreases s.len(),
{
    if s.len() > 0 && is_ws(s.last()) {
        trim_end(s.drop_last())
    } else {
        s
    }
}

/// `s` without any number of leading copies of the two-character `pat`
/// (`str::trim_start_matches`).
pub open spec fn strip_all(s: Seq<char>, pat: Seq<char>) -> Seq<char>
    decreases s.len(),
{
    if pat.len() == 2 && s.len() >= 2 && s[0] == pat[0] && s[1] == pat[1] {
        strip_all(s.subrange(2, s.len() as int), pat)
    } else {
        s
    }
}

/// The text `parse_hex_id` reads digits from: trimmed, then without leading
/// `0x`s, then without leading `0X`s.
pub open spec fn id_digits(s: Seq<char>) -> Seq<char> {
    strip_all(strip_all(trim_end(trim_start(s)), "0x"@), "0X"@)
}

/// A CAN id in hexadecimal, when the text is one.
pub open spec fn hex_id(s: Seq<char>) -> Option<u32> {
    match parse_hex(id_digits(s), u32::MAX as nat) {
        Some(v) => Some(v as u32),
        None => None,
    }
}

/// The CAN id written in `cs[from .. to]`.
fn hex_id_in(cs: &Vec<char>, from: usize, to: usize) -> (r: Option<u32>)
    requires
        from <= to <= cs@.len(),
    ensures
        r == hex_id(cs@.subrange(from as int, to as int)),
{
    let ghost s0 = cs@.subrange(from as int, to as int);
    // Leading whitespace.
    let mut a = from;
    while a < to && is_whitespace(cs[a])
        invariant
            from <= a <= to,
            to <= cs@.len(),
            trim_start(cs@.subrange(a as int, to as int)) == trim_start(s0),
        decreases to - a,
    {
        assert(cs@.subrange(a + 1, to as int) =~= cs@.subrange(a as int, to as int).drop_first());
        a = a + 1;
    }
    assert(trim_start(cs@.subrange(a as int, to as int)) == cs@.subrange(a as int, to as int));
    // Trailing whitespace.
    let mut b = to;
    while b > a && is_whitespace(cs[b - 1])
        invariant
            a <= b <= to,
            to <= cs@.len(),
            trim_end(cs@.subrange(a as int, b as int)) == trim_end(trim_start(s0)),
        decreases b - a,
    {
        assert(cs@.subrange(a as int, b - 1) =~= cs@.subrange(a as int, b as int).drop_last());
        b = b - 1;
    }
    assert(trim_end(cs@.subrange(a as int, b as int)) == cs@.subrange(a as int, b as int));
    // Leading "0x"s, then leading "0X"s.
    while b - a >= 2 && cs[a] == '0' && cs[a + 1] == 'x'
        invariant
            a <= b <= to,
            to <= cs@.len(),
            strip_all(cs@.subrange(a as int, b as int), "0x"@) == strip_all(trim_end(trim_start(s0)), "0x"@),
        decreases b - a,
    {
        proof {
            reveal_strlit("0x");
            assert(cs@.subrange(a + 2, b as int) =~= cs@.subrange(a as int, b as int).subrange(2, b - a));
        }
        a = a + 2;
    }
    proof {
        reveal_strlit("0x");
    }
    assert(strip_all(cs@.subrange(a as int, b as int), "0x"@) == cs@.subrange(a as int, b as int));
    while b - a >= 2 && cs[a] == '0' && cs[a + 1] == 'X'
        invariant
            a <= b <= to,
            to <= cs@.len(),
            strip_all(cs@.subrange(a as int, b as int), "0X"@) == id_digits(s0),
        decreases b - a,
    {
        proof {
            reveal_strlit("0X");
            assert(cs@.subrange(a + 2, b as int) =~= cs@.subrange(a as int, b as int).subrange(2, b - a));
        }
        a = a + 2;
    }
    proof {
        reveal_strlit("0X");
    }
    assert(strip_all(cs@.subrange(a as int, b as int), "0X"@) == cs@.subrange(a as int, b as int));
    match parse_hex_chars(cs, a, b, u32::MAX as u64) {
        Some(v) => Some(v as u32),
        None => None,
    }
}

/// Parse a CAN id, accepting `0x` prefixes and bare hex.
pub fn parse_hex_id(s: &str) -> (r: Option<u32>)
    ensures
        r == hex_id(s@),
{
    let cs = chars_of(s);
    assert(cs@.subrange(0, cs@.len() as int) =~= s@);
    hex_id_in(&cs, 0, cs.len())
}

/// A separator of CAN id lists: `,`, space or `;`.
pub open spec fn is_id_sep(c: char) -> bool {
    c == ',' || c == ' ' || c == ';'
}

/// The pieces between separators (`str::split` on the three separators).
pub open spec fn id_pieces(s: Seq<char>) -> Seq<Seq<char>>
    decreases s.len(),
{
    if s.len() == 0 {
        seq![Seq::empty()]
    } else {
        let p = id_pieces(s.drop_last());
        if is_id_sep(s.last()) {
            p.push(Seq::empty())
        } else {
            p.drop_last().push(p.last().push(s.last()))
        }
    }
}

proof fn lemma_id_pieces_nonempty(s: Seq<char>)
    ensures
        id_pieces(s).len() >= 1,
    decreases s.len(),
{
    if s.len() > 0 {
        lemma_id_pieces_nonempty(s.drop_last());
    }
}

pub open spec fn hex_id_pick() -> spec_fn(Seq<char>) -> Option<u32> {
    |p: Seq<char>| hex_id(p)
}

/// Parse a comma/space-separated CAN id filter list.
pub fn parse_can_ids(text: &str) -> (ids: Vec<u32>)
    ensures
        ids@ == id_pieces(text@).filter_map(hex_id_pick()),
{
    let cs = chars_of(text);
    let ghost s = cs@;
    let ghost pick = hex_id_pick();
    let mut ids: Vec<u32> = Vec::new();
    let mut start: usize = 0;
    let mut i: usize = 0;
    while i < cs.len()
        invariant
            s == cs@,
            pick == hex_id_pick(),
            start <= i <= s.len(),
            id_pieces(s.take(i as int)).len() >= 1,
            id_pieces(s.take(i as int)).last() == s.subrange(start as int, i as int),
            ids@ == id_pieces(s.take(i as int)).drop_last().filter_map(pick),
        decreases cs.len() - i,
    {
        let c = cs[i];
        let ghost p = id_pieces(s.take(i as int));
        proof {
            assert(s.take(i + 1).drop_last() =~= s.take(i as int));
            assert(s.take(i + 1).last() == c);
        }
        if c == ',' || c == ' ' || c == ';' {
            let v = hex_id_in(&cs, start, i);
            proof {
                let q = id_pieces(s.take(i + 1));
                assert(q == p.push(Seq::<char>::empty()));
                assert(q.drop_last() == p);
                assert(p =~= p.drop_last().push(p.last()));
                lemma_filter_map_push(p.drop_last(), pick, p.last());
            }
            match v {
                Some(x) => ids.push(x),
                None => {},
            }
            start = i + 1;
            proof {
                assert(s.subrange(start as int, i + 1) =~= Seq::<char>::empty());
            }
        } else {
            proof {
                let q = id_pieces(s.take(i + 1));
                assert(q == p.drop_last().push(p.last().push(c)));
                assert(q.drop_last() =~= p.drop_last());
                assert(s.subrange(start as int, i + 1) =~= s.subrange(start as int, i as int).push(c));
            }
        }
        i = i + 1;
    }
    let v = hex_id_in(&cs, start, cs.len());
    proof {
        assert(s.take(s.len() as int) =~= s);
        let p = id_pieces(s);
        assert(p =~= p.drop_last().push(p.last()));
        lemma_filter_map_push(p.drop_last(), pick, p.last());
    }
    match v {
        Some(x) => ids.push(x),
        None => {},
    }
    ids
}

pub(crate) proof fn lemma_filter_map_push<A, B>(s: Seq<A>, f: spec_fn(A) -> Option<B>, a: A)
    ensures
        s.push(a).filter_map(f) == match f(a) {
            Some(b) => s.filter_map(f).push(b),
            None => s.filter_map(f),
        },
{
    assert(s.push(a).drop_last() =~= s);
    assert(s.push(a).last() == a);
    reveal_with_fuel(Seq::filter_map, 1);
    match f(a) {
        Some(b) => {
            assert(s.filter_map(f) + seq![b] =~= s.filter_map(f).push(b));
        },
        None => {},
    }
}

proof fn lemma_hex_digit_value(d: nat)
    requires
        d < 16,
    ensures
        crate::text::hex_val(crate::text::hex_digit(d)) == Some(d),
        crate::text::hex_digit(d) != 'x' && crate::text::hex_digit(d) != 'X',
        crate::text::hex_digit(d) != '+',
        !is_ws(crate::text::hex_digit(d)),
        ('0' <= crate::text::hex_digit(d) <= '9') || ('A' <= crate::text::hex_digit(d) <= 'F'),
{
    let c = crate::text::hex_digit(d);
    if d < 10 {
        assert(c as u32 == 48 + d);
    } else {
        assert(c as u32 == 55 + d);
    }
}

/// The digits of `hex_str(n)` are hexadecimal digits denoting `n`.
proof fn lemma_hex_str_value(n: nat)
    ensures
        crate::text::all_hex(crate::text::hex_str(n)),
        crate::text::hex_num(crate::text::hex_str(n)) == n,
        crate::text::hex_str(n).len() >= 1,
        forall|i: int|
            0 <= i < crate::text::hex_str(n).len() ==> {
                let c = #[trigger] crate::text::hex_str(n)[i];
                c != 'x' && c != 'X' && c != '+' && !is_ws(c) && (('0' <= c <= '9') || ('A' <= c <= 'F'))
            },
    decreases n,
{
    let s = crate::text::hex_str(n);
    if n < 16 {
        lemma_hex_digit_value(n);
        assert(s.drop_last() =~= Seq::<char>::empty());
        assert(s.last() == crate::text::hex_digit(n));
        assert(crate::text::hex_num(s) == crate::text::hex_num(s.drop_last()) * 16 + n);
    } else {
        lemma_hex_str_value(n / 16);
        lemma_hex_digit_value(n % 16);
        let p = crate::text::hex_str(n / 16);
        assert(s == p.push(crate::text::hex_digit(n % 16)));
        assert(s.drop_last() =~= p);
        assert(s.last() == crate::text::hex_digit(n % 16));
        assert(crate::text::hex_num(s) == crate::text::hex_num(p) * 16 + n % 16);
        assert((n / 16) * 16 + n % 16 == n) by (nonlinear_arith);
        assert forall|i: int| 0 <= i < s.len() implies #[trigger] crate::text::hex_val(s[i]) is Some by {
            if i < p.len() {
                assert(s[i] == p[i]);
            }
        }
        assert forall|i: int| 0 <= i < s.len() implies {
            let c = #[trigger] s[i];
            c != 'x' && c != 'X' && c != '+' && !is_ws(c) && (('0' <= c <= '9') || ('A' <= c <= 'F'))
        } by {
            if i < p.len() {
                assert(s[i] == p[i]);
            }
        }
    }
}

/// Leading zero digits do not change the value.
proof fn lemma_hex_num_zeros(k: nat, s: Seq<char>)
    requires
        crate::text::all_hex(s),
    ensures
        crate::text::hex_num(Seq::new(k, |i: int| '0') + s) == crate::text::hex_num(s),
        crate::text::all_hex(Seq::new(k, |i: int| '0') + s),
    decreases s.len(), k,
{
    let z = Seq::new(k, |i: int| '0');
    if s.len() == 0 {
        if k > 0 {
            lemma_hex_num_zeros((k - 1) as nat, s);
            assert((z + s).drop_last() =~= Seq::new((k - 1) as nat, |i: int| '0') + s);
            assert((z + s).last() == '0');
        } else {
            assert(z + s =~= s);
        }
        assert forall|i: int| 0 <= i < (z + s).len() implies #[trigger] crate::text::hex_val((z + s)[i]) is Some by {
            assert((z + s)[i] == '0');
        }
    } else {
        lemma_hex_num_zeros(k, s.drop_last());
        assert((z + s).drop_last() =~= z + s.drop_last());
        assert((z + s).last() == s.last());
        assert forall|i: int| 0 <= i < (z + s).len() implies #[trigger] crate::text::hex_val((z + s)[i]) is Some by {
            if i < k {
                assert((z + s)[i] == '0');
            } else {
                assert((z + s)[i] == s[i - k]);
            }
        }
    }
}

proof fn lemma_strip_none(s: Seq<char>, pat: Seq<char>)
    requires
        pat.len() == 2,
        s.len() >= 2 ==> s[1] != pat[1],
    ensures
        strip_all(s, pat) == s,
{
}

proof fn lemma_trim_none(s: Seq<char>)
    requires
        s.len() > 0,
        !is_ws(s[0]),
        !is_ws(s.last()),
    ensures
        trim_end(trim_start(s)) == s,
{
}

/// A rendered CAN ID reads back as the same ID.
pub proof fn lemma_can_id_text_roundtrip(id: u32, extended: bool)
    ensures
        hex_id(can_id_text(id, extended)) == Some(id),
        trim_end(trim_start(can_id_text(id, extended))) == can_id_text(id, extended),
{
    let w: nat = if extended {
        8
    } else {
        3
    };
    let h = crate::text::hex_str(id as nat);
    lemma_hex_str_value(id as nat);
    let digits = crate::text::hex_padded(id as nat, w);
    let k: nat = if h.len() >= w {
        0
    } else {
        (w - h.len()) as nat
    };
    assert(digits =~= Seq::new(k, |i: int| '0') + h);
    lemma_hex_num_zeros(k, h);
    assert forall|i: int| 0 <= i < digits.len() implies {
        let c = #[trigger] digits[i];
        c != 'x' && c != 'X' && c != '+' && !is_ws(c)
    } by {
        if i < k {
            assert(digits[i] == '0');
        } else {
            assert(digits[i] == h[i - k]);
        }
    }
    let t = can_id_text(id, extended);
    reveal_strlit("0x");
    reveal_strlit("0X");
    assert(t =~= seq!['0', 'x'] + digits);
    assert(t.last() == digits.last());
    lemma_trim_none(t);
    assert(t.subrange(2, t.len() as int) =~= digits);
    lemma_strip_none(digits, "0x"@);
    assert(strip_all(t, "0x"@) == digits);
    lemma_strip_none(digits, "0X"@);
    assert(id_digits(t) == digits);
    assert(digits.len() > 0);
}


/// A two-digit byte text is the pattern element of that byte.
proof fn lemma_byte_text_element(b: u8)
    ensures
        pattern_element(crate::text::hex_padded(b as nat, 2)) == Some(b),
        crate::text::hex_padded(b as nat, 2).len() > 0,
        forall|i: int|
            0 <= i < crate::text::hex_padded(b as nat, 2).len() ==> !is_ws(
                #[trigger] crate::text::hex_padded(b as nat, 2)[i],
            ),
{
    let h = crate::text::hex_str(b as nat);
    lemma_hex_str_value(b as nat);
    let digits = crate::text::hex_padded(b as nat, 2);
    let k: nat = if h.len() >= 2 {
        0
    } else {
        (2 - h.len()) as nat
    };
    assert(digits =~= Seq::new(k, |i: int| '0') + h);
    lemma_hex_num_zeros(k, h);
    assert forall|i: int| 0 <= i < digits.len() implies {
        let c = #[trigger] digits[i];
        c != 'x' && c != 'X' && c != '+' && !is_ws(c) && c != '?' && (('0' <= c <= '9') || ('A' <= c <= 'F'))
    } by {
        if i < k {
            assert(digits[i] == '0');
        } else {
            assert(digits[i] == h[i - k]);
            assert(crate::text::hex_val(h[i - k]) is Some);
        }
    }
    assert(crate::text::is_ascii_text(digits));
    assert(crate::text::ascii_upper(digits) =~= digits);
    assert(digits.len() > 0);
    assert(!(digits.len() > 0 && digits[0] == '+'));
}

/// Appending a word after a separator (or at the start) appends it to the
/// words.
proof fn lemma_words_append_word(s: Seq<char>, w: Seq<char>)
    requires
        s.len() == 0 || is_ws(s.last()),
        w.len() > 0,
        forall|i: int| 0 <= i < w.len() ==> !is_ws(#[trigger] w[i]),
    ensures
        words(s + w) == words(s).push(w),
    decreases w.len(),
{
    if w.len() == 1 {
        assert((s + w).drop_last() =~= s);
        assert((s + w).last() == w[0]);
        if s.len() > 0 {
            assert((s + w)[(s + w).len() - 2] == s.last());
        }
        assert(seq![w[0]] =~= w);
    } else {
        let v = w.drop_last();
        assert forall|i: int| 0 <= i < v.len() implies !is_ws(#[trigger] v[i]) by {
            assert(v[i] == w[i]);
        }
        lemma_words_append_word(s, v);
        assert((s + w).drop_last() =~= s + v);
        assert((s + w).last() == w.last());
        assert((s + w)[(s + w).len() - 2] == w[w.len() - 2]);
        assert(!is_ws(w.last()));
        assert(!is_ws(w[w.len() - 2]));
        assert(v.push(w.last()) =~= w);
    }
}

/// The words of the first `k` byte texts joined by spaces are those texts.
proof fn lemma_words_of_texts(data: Seq<u8>, k: int)
    requires
        0 <= k <= data.len(),
    ensures
        words(join(byte_texts(data).take(k), " "@)) == byte_texts(data).take(k),
    decreases k,
{
    let ps = byte_texts(data);
    reveal_strlit(" ");
    if k == 0 {
        assert(ps.take(0) =~= Seq::<Seq<char>>::empty());
        assert(words(Seq::<char>::empty()) == Seq::<Seq<char>>::empty());
    } else {
        let j = k - 1;
        lemma_words_of_texts(data, j);
        let t = ps[j];
        lemma_byte_text_element(data[j]);
        assert(t == crate::text::hex_padded(data[j] as nat, 2));
        assert(ps.take(k).drop_last() =~= ps.take(j));
        assert(ps.take(k).last() == t);
        if j == 0 {
            assert(join(ps.take(1), " "@) == t);
            lemma_words_append_word(Seq::empty(), t);
            assert(Seq::<char>::empty() + t =~= t);
            assert(words(Seq::<char>::empty()) == Seq::<Seq<char>>::empty());
            assert(ps.take(1) =~= seq![t]);
        } else {
            let prev = join(ps.take(j), " "@);
            let sep = prev + " "@;
            assert(join(ps.take(k), " "@) == prev + " "@ + t);
            assert(sep.drop_last() =~= prev);
            assert(sep.last() == ' ');
            assert(words(sep) == words(prev));
            lemma_words_append_word(sep, t);
            assert(ps.take(j).push(t) =~= ps.take(k));
        }
    }
}

/// A payload matches the pattern read from its own hex text: the text of
/// each byte reads back as that byte, and no position is a wildcard.
pub proof fn lemma_payload_matches_own_text(data: Seq<u8>)
    ensures
        words(join(byte_texts(data), " "@)).map_values(|w: Seq<char>| pattern_element(w)) == data.map_values(
            |b: u8| Some(b),
        ),
        pattern_matches(
            data,
            words(join(byte_texts(data), " "@)).map_values(|w: Seq<char>| pattern_element(w)),
        ),
{
    let ps = byte_texts(data);
    lemma_words_of_texts(data, ps.len() as int);
    assert(ps.take(ps.len() as int) =~= ps);
    let p = words(join(ps, " "@)).map_values(|w: Seq<char>| pattern_element(w));
    assert forall|i: int| 0 <= i < data.len() implies #[trigger] p[i] == Some(data[i]) by {
        lemma_byte_text_element(data[i]);
    }
    assert(p =~= data.map_values(|b: u8| Some(b)));
}

/// Lower-case hexadecimal digit of `d < 16`.
pub open spec fn hex_digit_lower(d: nat) -> char {
    if d < 10 {
        (48 + d) as char
    } else {
        (87 + d) as char
    }
}

/// Minimal lower-case hexadecimal rendering of `n` (`format!("{n:x}")`).
pub open spec fn hex_lower(n: nat) -> Seq<char>
    decreases n,
{
    if n < 16 {
        seq![hex_digit_lower(n)]
    } else {
        hex_lower(n / 16).push(hex_digit_lower(n % 16))
    }
}

proof fn lemma_hex_digit_lower_value(d: nat)
    requires
        d < 16,
    ensures
        crate::text::hex_val(hex_digit_lower(d)) == Some(d),
        hex_digit_lower(d) != 'x' && hex_digit_lower(d) != 'X' && hex_digit_lower(d) != '+',
        !is_ws(hex_digit_lower(d)),
{
    let c = hex_digit_lower(d);
    if d < 10 {
        assert(c as u32 == 48 + d);
    } else {
        assert(c as u32 == 87 + d);
    }
}

/// The digits of `hex_lower(n)` are hexadecimal digits denoting `n`.
proof fn lemma_hex_lower_value(n: nat)
    ensures
        crate::text::all_hex(hex_lower(n)),
        crate::text::hex_num(hex_lower(n)) == n,
        hex_lower(n).len() >= 1,
        forall|i: int|
            0 <= i < hex_lower(n).len() ==> {
                let c = #[trigger] hex_lower(n)[i];
                c != 'x' && c != 'X' && c != '+' && !is_ws(c)
            },
    decreases n,
{
    let s = hex_lower(n);
    if n < 16 {
        lemma_hex_digit_lower_value(n);
        assert(s.drop_last() =~= Seq::<char>::empty());
        assert(crate::text::hex_num(s) == crate::text::hex_num(s.drop_last()) * 16 + n);
    } else {
        lemma_hex_lower_value(n / 16);
        lemma_hex_digit_lower_value(n % 16);
        let p = hex_lower(n / 16);
        assert(s.drop_last() =~= p);
        assert(crate::text::hex_num(s) == crate::text::hex_num(p) * 16 + n % 16);
        assert((n / 16) * 16 + n % 16 == n) by (nonlinear_arith);
        assert forall|i: int| 0 <= i < s.len() implies #[trigger] crate::text::hex_val(s[i]) is Some by {
            if i < p.len() {
                assert(s[i] == p[i]);
            }
        }
        assert forall|i: int| 0 <= i < s.len() implies {
            let c = #[trigger] s[i];
            c != 'x' && c != 'X' && c != '+' && !is_ws(c)
        } by {
            if i < p.len() {
                assert(s[i] == p[i]);
            }
        }
    }
}

/// An ID written as bare upper-case hex (`format!("{id:X}")`) reads back.
pub proof fn lemma_bare_hex_id_reads_back(id: u32)
    ensures
        hex_id(crate::text::hex_str(id as nat)) == Some(id),
{
    let t = crate::text::hex_str(id as nat);
    lemma_hex_str_value(id as nat);
    assert(t[0] != 'x' && !is_ws(t[0]) && !is_ws(t[t.len() - 1]));
    assert(t.last() == t[t.len() - 1]);
    lemma_trim_none(t);
    reveal_strlit("0x");
    reveal_strlit("0X");
    if t.len() >= 2 {
        assert(t[1] != 'x' && t[1] != 'X');
    }
    lemma_strip_none(t, "0x"@);
    lemma_strip_none(t, "0X"@);
    assert(id_digits(t) == t);
    assert(t[0] != '+');
}

/// An ID written as lower-case hex after `0x`, between spaces
/// (`format!(" 0x{id:x} ")`), reads back.
pub proof fn lemma_spaced_lower_hex_id_reads_back(id: u32)
    ensures
        hex_id(seq![' ', '0', 'x'] + hex_lower(id as nat) + seq![' ']) == Some(id),
{
    let l = hex_lower(id as nat);
    lemma_hex_lower_value(id as nat);
    let t = seq![' ', '0', 'x'] + l + seq![' '];
    let inner = seq!['0', 'x'] + l;
    assert(t.drop_first() =~= inner + seq![' ']);
    assert(is_ws(' '));
    assert(trim_start(t) == trim_start(inner + seq![' ']));
    assert((inner + seq![' '])[0] == '0');
    assert(trim_start(inner + seq![' ']) == inner + seq![' ']);
    assert((inner + seq![' ']).drop_last() =~= inner);
    assert(inner.last() == l[l.len() - 1]);
    assert(!is_ws(inner.last()));
    assert(trim_end(inner + seq![' ']) == trim_end(inner));
    assert(trim_end(inner) == inner);
    reveal_strlit("0x");
    reveal_strlit("0X");
    assert(inner.subrange(2, inner.len() as int) =~= l);
    if l.len() >= 2 {
        assert(l[1] != 'x' && l[1] != 'X');
    }
    lemma_strip_none(l, "0x"@);
    assert(strip_all(inner, "0x"@) == l);
    lemma_strip_none(l, "0X"@);
    assert(id_digits(t) == l);
    assert(l[0] != '+');
}

} // verus!
