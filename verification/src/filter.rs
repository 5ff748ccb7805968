//! Frame filtering and statistics: data patterns with wildcards, message
//! counts, and the filter over time range, IDs, channel, pattern and DBC
//! message/signal names.
use vstd::prelude::*;

use crate::frame::{key_of, CanFrameDto};
use crate::mux::lemma_filter_take_succ;
use crate::text::{
    ascii_upper, has_substring, is_ascii_text, is_whitespace, is_ws, lowercase_of, parse_hex,
    parse_hex_chars, push_char, str_contains, str_eq, to_lowercase, to_uppercase, uppercase_of,
};

verus! {

/// The characters of a string slice.
pub fn chars_of(s: &str) -> (v: Vec<char>)
    ensures
        v@ == s@,
{
    let n = s.unicode_len();
    let mut v: Vec<char> = Vec::new();
    let mut i: usize = 0;
    while i < n
        invariant
            n == s@.len(),
            i <= n,
            v@ =~= s@.take(i as int),
        decreases n - i,
    {
        v.push(s.get_char(i));
        i = i + 1;
    }
    assert(s@.take(n as int) =~= s@);
    v
}

/// The whitespace-separated words of `s` (`str::split_whitespace`).
pub open spec fn words(s: Seq<char>) -> Seq<Seq<char>>
    decreases s.len(),
{
    if s.len() == 0 {
        Seq::empty()
    } else {
        let w = words(s.drop_last());
        if is_ws(s.last()) {
            w
        } else if s.len() >= 2 && !is_ws(s[s.len() - 2]) {
            w.drop_last().push(w.last().push(s.last()))
        } else {
            w.push(seq![s.last()])
        }
    }
}

/// The uppercase form of a word (`str::to_uppercase`): the ASCII mapping
/// for an ASCII word, else the Unicode mapping.
pub open spec fn upper_word(w: Seq<char>) -> Seq<char> {
    if is_ascii_text(w) {
        ascii_upper(w)
    } else {
        uppercase_of(w)
    }
}

/// An uppercased word that is a wildcard: `??` or `XX`.
pub open spec fn is_wildcard(u: Seq<char>) -> bool {
    u.len() == 2 && ((u[0] == '?' && u[1] == '?') || (u[0] == 'X' && u[1] == 'X'))
}

/// One pattern element, read from the uppercased word: `None` for a
/// wildcard or for a word that is not a byte in hexadecimal.
pub open spec fn pattern_element(w: Seq<char>) -> Option<u8> {
    let u = upper_word(w);
    if is_wildcard(u) {
        None
    } else {
        match parse_hex(u, 255) {
            Some(v) => Some(v as u8),
            None => None,
        }
    }
}

/// Parse data pattern into bytes and wildcards.
/// Pattern format: "01 ?? FF" where ?? is wildcard.
pub fn parse_data_pattern(pattern: &str) -> (p: Vec<Option<u8>>)
    ensures
        p@ == words(pattern@).map_values(|w: Seq<char>| pattern_element(w)),
{
    let cs = chars_of(pattern);
    let ghost s = cs@;
    let mut out: Vec<Option<u8>> = Vec::new();
    let ghost mut done: Seq<Seq<char>> = Seq::empty();
    let mut word_start: usize = 0;
    let mut in_word = false;
    let mut i: usize = 0;
    while i < cs.len()
        invariant
            s == cs@,
            i <= s.len(),
            word_start <= i,
            in_word == (i > 0 && !is_ws(s[i - 1])),
            in_word ==> word_start < i && forall|k: int| word_start <= k < i ==> !is_ws(#[trigger] s[k]),
            in_word ==> (word_start == 0 || is_ws(s[word_start - 1])),
            words(s.take(i as int)) == if in_word {
                done.push(s.subrange(word_start as int, i as int))
            } else {
                done
            },
            out@ == done.map_values(|w: Seq<char>| pattern_element(w)),
        decreases cs.len() - i,
    {
        let c = cs[i];
        proof {
            assert(s.take(i + 1).drop_last() =~= s.take(i as int));
            assert(s.take(i + 1).last() == c);
            if i >= 1 {
                assert(s.take(i + 1)[i - 1] == s[i - 1]);
            }
        }
        if is_whitespace(c) {
            if in_word {
                let e = word_element(&cs, word_start, i);
                let ghost w = s.subrange(word_start as int, i as int);
                proof {
                    done = done.push(w);
                }
                out.push(e);
                assert(out@ =~= done.map_values(|w: Seq<char>| pattern_element(w)));
            }
            in_word = false;
        } else {
            if !in_word {
                word_start = i;
                assert(s.subrange(i as int, i + 1) =~= seq![c]);
            } else {
                assert(s.subrange(word_start as int, i + 1) =~= s.subrange(word_start as int, i as int).push(c));
            }
            in_word = true;
        }
        i = i + 1;
    }
    assert(s.take(s.len() as int) =~= s);
    if in_word {
        let e = word_element(&cs, word_start, cs.len());
        let ghost w = s.subrange(word_start as int, s.len() as int);
        proof {
            done = done.push(w);
        }
        out.push(e);
        assert(out@ =~= done.map_values(|w: Seq<char>| pattern_element(w)));
    }
    out
}

/// The pattern element of the word `cs[from .. to]`.
fn word_element(cs: &Vec<char>, from: usize, to: usize) -> (e: Option<u8>)
    requires
        from <= to <= cs@.len(),
    ensures
        e == pattern_element(cs@.subrange(from as int, to as int)),
{
    let ghost w = cs@.subrange(from as int, to as int);
    let mut word = String::new();
    let mut i = from;
    while i < to
        invariant
            from <= i <= to <= cs@.len(),
            word@ == cs@.subrange(from as int, i as int),
        decreases to - i,
    {
        push_char(&mut word, cs[i]);
        assert(cs@.subrange(from as int, i + 1) =~= cs@.subrange(from as int, i as int).push(cs@[i as int]));
        i = i + 1;
    }
    let upper = to_uppercase(word.as_str());
    let us = chars_of(upper.as_str());
    assert(us@ == upper_word(w));
    if us.len() == 2 && ((us[0] == '?' && us[1] == '?') || (us[0] == 'X' && us[1] == 'X')) {
        return None;
    }
    match parse_hex_chars(&us, 0, us.len(), 255) {
        Some(v) => {
            assert(us@.subrange(0, us@.len() as int) =~= us@);
            Some(v as u8)
        },
        None => {
            assert(us@.subrange(0, us@.len() as int) =~= us@);
            None
        },
    }
}

/// The data matches the pattern: it is at least as long, and every non-wildcard
/// element equals the byte at its position.
pub open spec fn pattern_matches(data: Seq<u8>, pattern: Seq<Option<u8>>) -> bool {
    pattern.len() <= data.len() && forall|i: int|
        0 <= i < pattern.len() ==> (#[trigger] pattern[i] matches Some(b) ==> data[i] == b)
}

/// Check if frame data matches pattern.
pub fn match_data_pattern(data: &[u8], pattern: &[Option<u8>]) -> (r: bool)
    ensures
        r == pattern_matches(data@, pattern@),
{
    if pattern.len() > data.len() {
        return false;
    }
    let mut i: usize = 0;
    while i < pattern.len()
        invariant
            pattern@.len() <= data@.len(),
            i <= pattern@.len(),
            forall|k: int| 0 <= k < i ==> (#[trigger] pattern@[k] matches Some(b) ==> data@[k] == b),
        decreases pattern.len() - i,
    {
        if let Some(expected) = pattern[i] {
            if data[i] != expected {
                assert(pattern@[i as int] matches Some(b) && data@[i as int] != b);
                return false;
            }
        }
        i = i + 1;
    }
    true
}

/// Match status filter for DBC matching.
#[derive(Debug, Clone, Copy, PartialEq, Eq, Structural)]
pub enum MatchStatus {
    All,
    Matched,
    Unmatched,
}

impl Default for MatchStatus {
    fn default() -> (m: Self)
        ensures
            m == MatchStatus::All,
    {
        MatchStatus::All
    }
}

/// Message ID counts for aggregation.
#[derive(Debug, Clone, Copy, PartialEq, Eq, Structural)]
pub struct MessageCount {
    pub can_id: u32,
    pub is_extended: bool,
    pub count: u64,
}

/// Frames with the key.
pub open spec fn count_key(frames: Seq<CanFrameDto>, key: (u32, bool)) -> nat
    decreases frames.len(),
{
    if frames.len() == 0 {
        0
    } else {
        count_key(frames.drop_last(), key) + if key_of(frames.last()) == key {
            1nat
        } else {
            0nat
        }
    }
}

pub open spec fn count_key_of(c: MessageCount) -> (u32, bool) {
    (c.can_id, c.is_extended)
}

/// `counts` lists every key of the frames once, with its frame count.
pub open spec fn counts_all_keys(frames: Seq<CanFrameDto>, counts: Seq<MessageCount>) -> bool {
    &&& forall|i: int|
        0 <= i < counts.len() ==> (#[trigger] counts[i]).count == count_key(frames, count_key_of(counts[i]))
            && counts[i].count > 0
    &&& forall|i: int, j: int|
        0 <= i < j < counts.len() ==> count_key_of(#[trigger] counts[i]) != count_key_of(#[trigger] counts[j])
    &&& forall|k: int| 0 <= k < frames.len() ==> key_listed(counts, key_of(#[trigger] frames[k]))
}

/// Some entry has the key.
pub open spec fn key_listed(counts: Seq<MessageCount>, key: (u32, bool)) -> bool {
    exists|i: int| 0 <= i < counts.len() && count_key_of(#[trigger] counts[i]) == key
}

proof fn lemma_count_key_step(frames: Seq<CanFrameDto>, k: int, key: (u32, bool))
    requires
        0 <= k < frames.len(),
    ensures
        count_key(frames.take(k + 1), key) == count_key(frames.take(k), key) + if key_of(frames[k]) == key {
            1nat
        } else {
            0nat
        },
{
    assert(frames.take(k + 1).drop_last() =~= frames.take(k));
}

/// Counts per key in order of first appearance.
fn count_in_order(frames: &Vec<CanFrameDto>) -> (counts: Vec<MessageCount>)
    ensures
        counts_all_keys(frames@, counts@),
{
    let mut counts: Vec<MessageCount> = Vec::new();
    let mut k: usize = 0;
    while k < frames.len()
        invariant
            k <= frames@.len(),
            counts_all_keys(frames@.take(k as int), counts@),
            forall|i: int| 0 <= i < counts@.len() ==> (#[trigger] counts@[i]).count <= k,
        decreases frames.len() - k,
    {
        let id = frames[k].can_id;
        let ext = frames[k].is_extended;
        let ghost key = (id, ext);
        let ghost before = counts@;
        let ghost pre = frames@.take(k as int);
        let ghost post = frames@.take(k + 1);
        proof {
            assert forall|i: int| 0 <= i < before.len() implies count_key(post, count_key_of(#[trigger] before[i]))
                == count_key(pre, count_key_of(before[i])) + if key_of(frames@[k as int]) == count_key_of(before[i]) {
                1nat
            } else {
                0nat
            } by {
                lemma_count_key_step(frames@, k as int, count_key_of(before[i]));
            }
            assert forall|t: int| 0 <= t < k implies #[trigger] post[t] == pre[t] by {}
            assert(post[k as int] == frames@[k as int]);
        }
        let mut g: usize = 0;
        while g < counts.len() && !(counts[g].can_id == id && counts[g].is_extended == ext)
            invariant
                key == (id, ext),
                g <= counts@.len(),
                forall|h: int| 0 <= h < g ==> count_key_of(#[trigger] counts@[h]) != key,
            decreases counts.len() - g,
        {
            g = g + 1;
        }
        if g < counts.len() {
            let c = counts[g];
            assert(count_key_of(before[g as int]) == key);
            assert(key_of(frames@[k as int]) == key);
            counts.set(g, MessageCount { can_id: c.can_id, is_extended: c.is_extended, count: c.count + 1 });
            proof {
                assert forall|i: int| 0 <= i < counts@.len() implies (#[trigger] counts@[i]).count == count_key(
                    post,
                    count_key_of(counts@[i]),
                ) && counts@[i].count > 0 by {
                    lemma_count_key_step(frames@, k as int, count_key_of(before[i]));
                    if i != g {
                        assert(counts@[i] == before[i]);
                        assert(count_key_of(before[i]) != count_key_of(before[g as int]));
                    }
                }
                assert forall|t: int| 0 <= t < post.len() implies key_listed(counts@, key_of(#[trigger] post[t])) by {
                    if t < k {
                        assert(key_listed(before, key_of(pre[t])));
                        let i = choose|i: int|
                            0 <= i < before.len() && count_key_of(#[trigger] before[i]) == key_of(pre[t]);
                        assert(count_key_of(counts@[i]) == count_key_of(before[i]));
                    } else {
                        assert(count_key_of(counts@[g as int]) == key_of(post[t]));
                    }
                }
                assert forall|i: int, j: int| 0 <= i < j < counts@.len() implies count_key_of(#[trigger] counts@[i])
                    != count_key_of(#[trigger] counts@[j]) by {
                    assert(count_key_of(counts@[i]) == count_key_of(before[i]));
                    assert(count_key_of(counts@[j]) == count_key_of(before[j]));
                }
            }
        } else {
            counts.push(MessageCount { can_id: id, is_extended: ext, count: 1 });
            proof {
                assert(count_key(pre, key) == 0) by {
                    if count_key(pre, key) > 0 {
                        lemma_count_key_positive(pre, key);
                        let t = choose|t: int| 0 <= t < pre.len() && key_of(pre[t]) == key;
                        assert(key_listed(before, key_of(pre[t])));
                        let i = choose|i: int|
                            0 <= i < before.len() && count_key_of(#[trigger] before[i]) == key_of(pre[t]);
                    }
                }
                assert forall|i: int| 0 <= i < counts@.len() implies (#[trigger] counts@[i]).count == count_key(
                    post,
                    count_key_of(counts@[i]),
                ) && counts@[i].count > 0 by {
                    if i < before.len() {
                        assert(counts@[i] == before[i]);
                        lemma_count_key_step(frames@, k as int, count_key_of(before[i]));
                        assert(count_key_of(before[i]) != key);
                    } else {
                        lemma_count_key_step(frames@, k as int, key);
                    }
                }
                assert forall|t: int| 0 <= t < post.len() implies key_listed(counts@, key_of(#[trigger] post[t])) by {
                    if t < k {
                        assert(key_listed(before, key_of(pre[t])));
                        let i = choose|i: int|
                            0 <= i < before.len() && count_key_of(#[trigger] before[i]) == key_of(pre[t]);
                        assert(counts@[i] == before[i]);
                    } else {
                        assert(count_key_of(counts@[before.len() as int]) == key_of(post[t]));
                    }
                }
                assert forall|i: int, j: int| 0 <= i < j < counts@.len() implies count_key_of(#[trigger] counts@[i])
                    != count_key_of(#[trigger] counts@[j]) by {
                    if j == before.len() {
                        assert(counts@[i] == before[i]);
                    } else {
                        assert(counts@[i] == before[i] && counts@[j] == before[j]);
                    }
                }
            }
        }
        k = k + 1;
    }
    assert(frames@.take(frames@.len() as int) =~= frames@);
    counts
}

/// A positive count has a frame with the key.
proof fn lemma_count_key_positive(frames: Seq<CanFrameDto>, key: (u32, bool))
    requires
        count_key(frames, key) > 0,
    ensures
        exists|t: int| 0 <= t < frames.len() && key_of(frames[t]) == key,
    decreases frames.len(),
{
    if key_of(frames.last()) != key {
        lemma_count_key_positive(frames.drop_last(), key);
        let t = choose|t: int| 0 <= t < frames.len() - 1 && key_of(frames.drop_last()[t]) == key;
        assert(frames[t] == frames.drop_last()[t]);
    } else {
        assert(key_of(frames[frames.len() - 1]) == key);
    }
}

pub open spec fn by_count_desc(counts: Seq<MessageCount>) -> bool {
    forall|i: int, j: int| 0 <= i < j < counts.len() ==> (#[trigger] counts[i]).count >= (#[trigger] counts[j]).count
}

/// Get message ID counts (sorted by count descending).
///
/// Each (CAN ID, extended) key of the frames is listed once with its frame
/// count; keys with equal counts keep the order of their first frame.
pub fn get_message_counts(frames: Vec<CanFrameDto>) -> (result: Vec<MessageCount>)
    ensures
        counts_all_keys(frames@, result@),
        by_count_desc(result@),
{
    let counts = count_in_order(&frames);
    // Stable insertion by descending count.
    let mut result: Vec<MessageCount> = Vec::new();
    let mut k: usize = 0;
    while k < counts.len()
        invariant
            counts_all_keys(frames@, counts@),
            k <= counts@.len(),
            by_count_desc(result@),
            result@.len() == k,
            forall|i: int| 0 <= i < result@.len() ==> #[trigger] counts@.take(k as int).contains(result@[i]),
            forall|i: int| 0 <= i < k ==> #[trigger] result@.contains(counts@[i]),
            forall|i: int, j: int|
                0 <= i < j < result@.len() ==> count_key_of(#[trigger] result@[i]) != count_key_of(
                    #[trigger] result@[j],
                ),
        decreases counts.len() - k,
    {
        let c = counts[k];
        let mut pos: usize = 0;
        while pos < result.len() && result[pos].count >= c.count
            invariant
                pos <= result@.len(),
                forall|h: int| 0 <= h < pos ==> (#[trigger] result@[h]).count >= c.count,
            decreases result.len() - pos,
        {
            pos = pos + 1;
        }
        let ghost before = result@;
        result.insert(pos, c);
        proof {
            assert(pos < before.len() ==> before[pos as int].count < c.count);
            assert forall|i: int, j: int| 0 <= i < j < result@.len() implies (#[trigger] result@[i]).count
                >= (#[trigger] result@[j]).count by {
                if j < pos {
                    assert(result@[i] == before[i] && result@[j] == before[j]);
                } else if j == pos {
                    assert(result@[i] == before[i]);
                } else if i < pos {
                    assert(result@[i] == before[i] && result@[j] == before[j - 1]);
                } else if i == pos {
                    assert(result@[j] == before[j - 1]);
                    if j - 1 > pos {
                        assert(before[pos as int].count >= before[j - 1].count);
                    }
                } else {
                    assert(result@[i] == before[i - 1] && result@[j] == before[j - 1]);
                }
            }
            assert forall|i: int| 0 <= i < result@.len() implies #[trigger] counts@.take(k + 1).contains(result@[i]) by {
                if i == pos {
                    assert(counts@.take(k + 1)[k as int] == c);
                } else {
                    let oi = if i < pos { i } else { i - 1 };
                    assert(result@[i] == before[oi]);
                    assert(counts@.take(k as int).contains(before[oi]));
                    let t = choose|t: int| 0 <= t < k && counts@.take(k as int)[t] == before[oi];
                    assert(counts@.take(k + 1)[t] == before[oi]);
                }
            }
            assert forall|i: int, j: int| 0 <= i < j < result@.len() implies count_key_of(#[trigger] result@[i])
                != count_key_of(#[trigger] result@[j]) by {
                let oi = if i < pos { i } else { i - 1 };
                let oj = if j < pos { j } else { j - 1 };
                if i == pos || j == pos {
                    let other = if i == pos { j } else { i };
                    let o = if other < pos { other } else { other - 1 };
                    assert(result@[other] == before[o]);
                    assert(counts@.take(k as int).contains(before[o]));
                    let t = choose|t: int| 0 <= t < k && counts@.take(k as int)[t] == before[o];
                    assert(counts@[t] == before[o]);
                    assert(count_key_of(counts@[t]) != count_key_of(counts@[k as int]));
                } else {
                    assert(result@[i] == before[oi] && result@[j] == before[oj]);
                }
            }
            assert forall|i: int| 0 <= i < k + 1 implies #[trigger] result@.contains(counts@[i]) by {
                if i == k {
                    assert(result@[pos as int] == c);
                } else {
                    assert(before.contains(counts@[i]));
                    let t = choose|t: int| 0 <= t < before.len() && before[t] == counts@[i];
                    if t < pos {
                        assert(result@[t] == counts@[i]);
                    } else {
                        assert(result@[t + 1] == counts@[i]);
                    }
                }
            }
        }
        k = k + 1;
    }
    proof {
        assert(counts@.take(counts@.len() as int) =~= counts@);
        assert(result@.len() == counts@.len());
        assert forall|i: int| 0 <= i < result@.len() implies (#[trigger] result@[i]).count == count_key(
            frames@,
            count_key_of(result@[i]),
        ) && result@[i].count > 0 by {
            assert(counts@.take(counts@.len() as int).contains(result@[i]));
            assert(counts@.contains(result@[i]));
            let t = choose|t: int| 0 <= t < counts@.len() && counts@[t] == result@[i];
        }
        assert forall|k2: int| 0 <= k2 < frames@.len() implies key_listed(result@, key_of(#[trigger] frames@[k2])) by {
            assert(key_listed(counts@, key_of(frames@[k2])));
            let t = choose|t: int| 0 <= t < counts@.len() && count_key_of(#[trigger] counts@[t]) == key_of(frames@[k2]);
            assert(result@.contains(counts@[t]));
            let i = choose|i: int| 0 <= i < result@.len() && result@[i] == counts@[t];
            assert(count_key_of(result@[i]) == key_of(frames@[k2]));
        }
            assert(counts_all_keys(frames@, result@));
    }
    result
}

/// The sum of the counts.
pub open spec fn total_count(counts: Seq<MessageCount>) -> nat
    decreases counts.len(),
{
    if counts.len() == 0 {
        0
    } else {
        total_count(counts.drop_last()) + counts.last().count as nat
    }
}

/// Frames of `frames` whose key is the key of some entry, entry by entry.
spec fn keyed_sum(frames: Seq<CanFrameDto>, counts: Seq<MessageCount>) -> nat
    decreases counts.len(),
{
    if counts.len() == 0 {
        0
    } else {
        keyed_sum(frames, counts.drop_last()) + count_key(frames, count_key_of(counts.last()))
    }
}

/// Entries with the key.
spec fn key_entries(counts: Seq<MessageCount>, key: (u32, bool)) -> nat
    decreases counts.len(),
{
    if counts.len() == 0 {
        0
    } else {
        key_entries(counts.drop_last(), key) + if count_key_of(counts.last()) == key {
            1nat
        } else {
            0nat
        }
    }
}

proof fn lemma_total_is_keyed_sum(frames: Seq<CanFrameDto>, counts: Seq<MessageCount>)
    requires
        forall|i: int|
            0 <= i < counts.len() ==> (#[trigger] counts[i]).count == count_key(frames, count_key_of(counts[i])),
    ensures
        total_count(counts) == keyed_sum(frames, counts),
    decreases counts.len(),
{
    if counts.len() > 0 {
        let c = counts.drop_last();
        assert forall|i: int| 0 <= i < c.len() implies (#[trigger] c[i]).count == count_key(
            frames,
            count_key_of(c[i]),
        ) by {
            assert(c[i] == counts[i]);
        }
        lemma_total_is_keyed_sum(frames, c);
        assert(counts.last() == counts[counts.len() - 1]);
    }
}

proof fn lemma_keyed_sum_step(frames: Seq<CanFrameDto>, counts: Seq<MessageCount>)
    requires
        frames.len() > 0,
    ensures
        keyed_sum(frames, counts) == keyed_sum(frames.drop_last(), counts) + key_entries(
            counts,
            key_of(frames.last()),
        ),
    decreases counts.len(),
{
    if counts.len() > 0 {
        lemma_keyed_sum_step(frames, counts.drop_last());
    }
}

proof fn lemma_keyed_sum_empty(frames: Seq<CanFrameDto>, counts: Seq<MessageCount>)
    requires
        frames.len() == 0,
    ensures
        keyed_sum(frames, counts) == 0,
    decreases counts.len(),
{
    if counts.len() > 0 {
        lemma_keyed_sum_empty(frames, counts.drop_last());
    }
}

proof fn lemma_key_entries_absent(counts: Seq<MessageCount>, key: (u32, bool))
    requires
        forall|i: int| 0 <= i < counts.len() ==> count_key_of(#[trigger] counts[i]) != key,
    ensures
        key_entries(counts, key) == 0,
    decreases counts.len(),
{
    if counts.len() > 0 {
        let c = counts.drop_last();
        assert forall|i: int| 0 <= i < c.len() implies count_key_of(#[trigger] c[i]) != key by {
            assert(c[i] == counts[i]);
        }
        lemma_key_entries_absent(c, key);
        assert(count_key_of(counts[counts.len() - 1]) != key);
    }
}

proof fn lemma_key_entries_one(counts: Seq<MessageCount>, key: (u32, bool))
    requires
        key_listed(counts, key),
        forall|i: int, j: int|
            0 <= i < j < counts.len() ==> count_key_of(#[trigger] counts[i]) != count_key_of(#[trigger] counts[j]),
    ensures
        key_entries(counts, key) == 1,
    decreases counts.len(),
{
    let c = counts.drop_last();
    let n = counts.len() - 1;
    assert forall|i: int, j: int| 0 <= i < j < c.len() implies count_key_of(#[trigger] c[i]) != count_key_of(
        #[trigger] c[j],
    ) by {
        assert(c[i] == counts[i] && c[j] == counts[j]);
    }
    if count_key_of(counts[n]) == key {
        assert forall|i: int| 0 <= i < c.len() implies count_key_of(#[trigger] c[i]) != key by {
            assert(c[i] == counts[i]);
            assert(count_key_of(counts[i]) != count_key_of(counts[n]));
        }
        lemma_key_entries_absent(c, key);
    } else {
        let t = choose|t: int| 0 <= t < counts.len() && count_key_of(#[trigger] counts[t]) == key;
        assert(c[t] == counts[t]);
        assert(key_listed(c, key));
        lemma_key_entries_one(c, key);
    }
}

proof fn lemma_keyed_sum_covers(frames: Seq<CanFrameDto>, counts: Seq<MessageCount>)
    requires
        forall|i: int, j: int|
            0 <= i < j < counts.len() ==> count_key_of(#[trigger] counts[i]) != count_key_of(#[trigger] counts[j]),
        forall|k: int| 0 <= k < frames.len() ==> key_listed(counts, key_of(#[trigger] frames[k])),
    ensures
        keyed_sum(frames, counts) == frames.len(),
    decreases frames.len(),
{
    if frames.len() == 0 {
        lemma_keyed_sum_empty(frames, counts);
    } else {
        let f = frames.drop_last();
        assert forall|k: int| 0 <= k < f.len() implies key_listed(counts, key_of(#[trigger] f[k])) by {
            assert(f[k] == frames[k]);
        }
        lemma_keyed_sum_covers(f, counts);
        lemma_keyed_sum_step(frames, counts);
        assert(key_listed(counts, key_of(frames[frames.len() - 1])));
        lemma_key_entries_one(counts, key_of(frames.last()));
    }
}

/// The message counts add up to the number of frames: every frame is
/// counted under exactly one entry.
pub proof fn lemma_message_counts_total(frames: Seq<CanFrameDto>, counts: Seq<MessageCount>)
    requires
        counts_all_keys(frames, counts),
    ensures
        total_count(counts) == frames.len(),
{
    lemma_total_is_keyed_sum(frames, counts);
    lemma_keyed_sum_covers(frames, counts);
}

/// Cached message info for filtering.
#[derive(Debug)]
pub struct DbcMessageInfo {
    pub name: String,
    pub signal_names: Vec<String>,
}

/// Message info by (CAN ID, extended); a later entry for a key replaces an
/// earlier one.
#[derive(Debug)]
pub struct DbcMessageCache {
    pub entries: Vec<(u32, bool, DbcMessageInfo)>,
}

/// The info of `key`: the last entry with it.
pub open spec fn cache_lookup(entries: Seq<(u32, bool, DbcMessageInfo)>, key: (u32, bool)) -> Option<
    DbcMessageInfo,
>
    decreases entries.len(),
{
    if entries.len() == 0 {
        None
    } else if (entries.last().0, entries.last().1) == key {
        Some(entries.last().2)
    } else {
        cache_lookup(entries.drop_last(), key)
    }
}

fn lookup<'a>(cache: &'a DbcMessageCache, key_id: u32, key_ext: bool) -> (r: Option<&'a DbcMessageInfo>)
    ensures
        match r {
            Some(i) => cache_lookup(cache.entries@, (key_id, key_ext)) == Some(*i),
            None => cache_lookup(cache.entries@, (key_id, key_ext)) is None,
        },
{
    let mut i = cache.entries.len();
    assert(cache.entries@.take(i as int) =~= cache.entries@);
    while i > 0
        invariant
            i <= cache.entries@.len(),
            cache_lookup(cache.entries@, (key_id, key_ext)) == cache_lookup(
                cache.entries@.take(i as int),
                (key_id, key_ext),
            ),
        decreases i,
    {
        let e = &cache.entries[i - 1];
        proof {
            let t = cache.entries@.take(i as int);
            assert(t.drop_last() =~= cache.entries@.take(i - 1));
            assert(t.last() == cache.entries@[i - 1]);
        }
        if e.0 == key_id && e.1 == key_ext {
            return Some(&e.2);
        }
        i = i - 1;
    }
    None
}

/// A DBC message as the cache sees it: ID, name, signal names.
pub open spec fn cache_entry(m: (u32, String, Vec<String>)) -> (u32, bool, Seq<char>, Seq<Seq<char>>) {
    (m.0, m.0 > 0x7FF, lowercase_of(m.1@), m.2@.map_values(|s: String| lowercase_of(s@)))
}

pub open spec fn entry_view(e: (u32, bool, DbcMessageInfo)) -> (u32, bool, Seq<char>, Seq<Seq<char>>) {
    (e.0, e.1, e.2.name@, e.2.signal_names@.map_values(|s: String| s@))
}

/// Build the message cache from DBC messages (ID, name, signal names):
/// an ID above 0x7FF is extended; names are lowercased.
pub fn build_message_cache(messages: &[(u32, String, Vec<String>)]) -> (cache: DbcMessageCache)
    ensures
        cache.entries@.map_values(|e: (u32, bool, DbcMessageInfo)| entry_view(e)) == messages@.map_values(
            |m: (u32, String, Vec<String>)| cache_entry(m),
        ),
{
    let mut entries: Vec<(u32, bool, DbcMessageInfo)> = Vec::new();
    let mut k: usize = 0;
    while k < messages.len()
        invariant
            k <= messages@.len(),
            entries@.map_values(|e: (u32, bool, DbcMessageInfo)| entry_view(e)) =~= messages@.take(
                k as int,
            ).map_values(|m: (u32, String, Vec<String>)| cache_entry(m)),
        decreases messages.len() - k,
    {
        let m = &messages[k];
        let name = to_lowercase(m.1.as_str());
        let mut signal_names: Vec<String> = Vec::new();
        let mut j: usize = 0;
        while j < m.2.len()
            invariant
                j <= m.2@.len(),
                signal_names@.map_values(|s: String| s@) =~= m.2@.take(j as int).map_values(
                    |s: String| lowercase_of(s@),
                ),
            decreases m.2.len() - j,
        {
            let l = to_lowercase(m.2[j].as_str());
            let ghost before = signal_names@;
            signal_names.push(l);
            proof {
                assert(m.2@.take(j + 1) =~= m.2@.take(j as int).push(m.2@[j as int]));
                assert(signal_names@.map_values(|s: String| s@) =~= before.map_values(|s: String| s@).push(l@));
            }
            j = j + 1;
        }
        assert(m.2@.take(m.2@.len() as int) =~= m.2@);
        let ghost before = entries@;
        entries.push((m.0, m.0 > 0x7FF, DbcMessageInfo { name, signal_names }));
        assert(entries@.map_values(|e: (u32, bool, DbcMessageInfo)| entry_view(e)) =~= before.map_values(
            |e: (u32, bool, DbcMessageInfo)| entry_view(e),
        ).push(cache_entry(*m)));
        k = k + 1;
    }
    assert(messages@.take(messages@.len() as int) =~= messages@);
    DbcMessageCache { entries }
}

/// Filter configuration. Times are microseconds on the capture timebase.
#[derive(Debug)]
pub struct FilterConfig {
    /// Minimum timestamp (inclusive)
    pub time_min_us: Option<i64>,
    /// Maximum timestamp (inclusive)
    pub time_max_us: Option<i64>,
    /// CAN IDs to include (empty = all)
    pub can_ids: Vec<u32>,
    /// Message names to filter (substring match, case-insensitive)
    pub messages: Vec<String>,
    /// Signal names to filter (substring match, case-insensitive)
    pub signals: Vec<String>,
    /// Data pattern filter (e.g., "01 ?? FF")
    pub data_pattern: Option<String>,
    /// Channel to filter (exact match)
    pub channel: Option<String>,
    /// Match status (all, matched, unmatched)
    pub match_status: MatchStatus,
}

/// Result of filtering frames.
#[derive(Debug)]
pub struct FilterResult {
    /// Filtered frames
    pub frames: Vec<CanFrameDto>,
    /// Total frames before filtering
    pub total_count: usize,
    /// Filtered frame count
    pub filtered_count: usize,
}

/// The lowercased filter strings.
pub open spec fn lowered(v: Seq<String>) -> Seq<Seq<char>> {
    v.map_values(|s: String| lowercase_of(s@))
}

/// The parsed data pattern, when one is given.
pub open spec fn config_pattern(cfg: FilterConfig) -> Option<Seq<Option<u8>>> {
    match cfg.data_pattern {
        Some(p) => Some(words(p@).map_values(|w: Seq<char>| pattern_element(w))),
        None => None,
    }
}

/// Filters that need the DBC are in use.
pub open spec fn needs_dbc(cfg: FilterConfig) -> bool {
    cfg.match_status != MatchStatus::All || cfg.messages@.len() > 0 || cfg.signals@.len() > 0
}

/// Some lowercased message filter occurs in the message name.
pub open spec fn message_ok(cfg: FilterConfig, info: Option<DbcMessageInfo>) -> bool {
    match info {
        Some(i) => exists|m: int|
            0 <= m < cfg.messages@.len() && has_substring(i.name@, #[trigger] lowered(cfg.messages@)[m]),
        None => false,
    }
}

/// Some lowercased signal filter occurs in some signal name of the message.
pub open spec fn signal_ok(cfg: FilterConfig, info: Option<DbcMessageInfo>) -> bool {
    match info {
        Some(i) => exists|s: int, n: int|
            0 <= s < cfg.signals@.len() && 0 <= n < i.signal_names@.len() && #[trigger] has_substring(
                i.signal_names@[n]@,
                lowered(cfg.signals@)[s],
            ),
        None => false,
    }
}

/// The frame passes the DBC-related filters.
pub open spec fn dbc_ok(cfg: FilterConfig, entries: Seq<(u32, bool, DbcMessageInfo)>, f: CanFrameDto) -> bool {
    let info = cache_lookup(entries, key_of(f));
    &&& (cfg.match_status == MatchStatus::Matched ==> info is Some)
    &&& (cfg.match_status == MatchStatus::Unmatched ==> info is None)
    &&& (cfg.messages@.len() > 0 ==> message_ok(cfg, info))
    &&& (cfg.signals@.len() > 0 ==> signal_ok(cfg, info))
}

/// The frame's data matches the data pattern, when a non-empty one is given.
pub open spec fn pattern_ok(cfg: FilterConfig, f: CanFrameDto) -> bool {
    match config_pattern(cfg) {
        Some(p) => p.len() > 0 ==> pattern_matches(f.data@, p),
        None => true,
    }
}

/// The frame passes every filter.
pub open spec fn frame_passes(cfg: FilterConfig, entries: Seq<(u32, bool, DbcMessageInfo)>, f: CanFrameDto) -> bool {
    &&& (cfg.time_min_us matches Some(m) ==> f.timestamp_us >= m)
    &&& (cfg.time_max_us matches Some(m) ==> f.timestamp_us <= m)
    &&& (cfg.can_ids@.len() > 0 ==> cfg.can_ids@.contains(f.can_id))
    &&& (cfg.channel matches Some(ch) ==> f.channel@ == ch@)
    &&& pattern_ok(cfg, f)
    &&& (needs_dbc(cfg) ==> dbc_ok(cfg, entries, f))
}

pub open spec fn pass_pred(cfg: FilterConfig, entries: Seq<(u32, bool, DbcMessageInfo)>) -> spec_fn(CanFrameDto) -> bool {
    |f: CanFrameDto| frame_passes(cfg, entries, f)
}

/// Lowercase every string.
fn lower_all(v: &Vec<String>) -> (r: Vec<String>)
    ensures
        r@.map_values(|s: String| s@) == lowered(v@),
{
    let mut r: Vec<String> = Vec::new();
    let mut i: usize = 0;
    while i < v.len()
        invariant
            i <= v@.len(),
            r@.map_values(|s: String| s@) =~= lowered(v@).take(i as int),
        decreases v.len() - i,
    {
        let l = to_lowercase(v[i].as_str());
        let ghost before = r@;
        r.push(l);
        proof {
            assert(r@.map_values(|s: String| s@) =~= before.map_values(|s: String| s@).push(l@));
        }
        i = i + 1;
    }
    assert(lowered(v@).take(v@.len() as int) =~= lowered(v@));
    r
}

fn ids_contain_id(ids: &Vec<u32>, id: u32) -> (r: bool)
    ensures
        r == ids@.contains(id),
{
    let mut i: usize = 0;
    while i < ids.len()
        invariant
            i <= ids@.len(),
            forall|k: int| 0 <= k < i ==> ids@[k] != id,
        decreases ids.len() - i,
    {
        if ids[i] == id {
            assert(ids@[i as int] == id);
            return true;
        }
        i = i + 1;
    }
    false
}

/// Some filter string occurs in the name.
fn any_in(name: &String, filters: &Vec<String>) -> (r: bool)
    ensures
        r == exists|m: int| 0 <= m < filters@.len() && has_substring(name@, #[trigger] filters@[m]@),
{
    let mut m: usize = 0;
    while m < filters.len()
        invariant
            m <= filters@.len(),
            forall|t: int| 0 <= t < m ==> !has_substring(name@, #[trigger] filters@[t]@),
        decreases filters.len() - m,
    {
        if str_contains(name.as_str(), filters[m].as_str()) {
            return true;
        }
        m = m + 1;
    }
    false
}

/// Some filter string occurs in some signal name.
fn any_signal_in(names: &Vec<String>, filters: &Vec<String>) -> (r: bool)
    ensures
        r == exists|s: int, n: int|
            0 <= s < filters@.len() && 0 <= n < names@.len() && #[trigger] has_substring(names@[n]@, filters@[s]@),
{
    let mut n: usize = 0;
    while n < names.len()
        invariant
            n <= names@.len(),
            forall|s: int, t: int|
                0 <= s < filters@.len() && 0 <= t < n ==> !#[trigger] has_substring(names@[t]@, filters@[s]@),
        decreases names.len() - n,
    {
        if any_in(&names[n], filters) {
            return true;
        }
        n = n + 1;
    }
    false
}

/// Whether a frame passes, given the prepared filters.
#[verifier::spinoff_prover]
#[verifier::rlimit(30)]
fn passes(
    frame: &CanFrameDto,
    filters: &FilterConfig,
    msg_cache: &DbcMessageCache,
    pattern: &Option<Vec<Option<u8>>>,
    message_filters: &Vec<String>,
    signal_filters: &Vec<String>,
) -> (r: bool)
    requires
        match pattern {
            Some(p) => config_pattern(*filters) == Some(p@),
            None => config_pattern(*filters) is None,
        },
        message_filters@.map_values(|s: String| s@) == lowered(filters.messages@),
        signal_filters@.map_values(|s: String| s@) == lowered(filters.signals@),
    ensures
        r == frame_passes(*filters, msg_cache.entries@, *frame),
{
    if let Some(min) = filters.time_min_us {
        if frame.timestamp_us < min {
            return false;
        }
    }
    if let Some(max) = filters.time_max_us {
        if frame.timestamp_us > max {
            return false;
        }
    }
    if filters.can_ids.len() > 0 && !ids_contain_id(&filters.can_ids, frame.can_id) {
        return false;
    }
    if let Some(ch) = &filters.channel {
        if !str_eq(frame.channel.as_str(), ch.as_str()) {
            return false;
        }
    }
    if let Some(p) = pattern {
        if p.len() > 0 && !match_data_pattern(frame.data.as_slice(), p.as_slice()) {
            return false;
        }
    }
    let needs = filters.match_status != MatchStatus::All || filters.messages.len() > 0
        || filters.signals.len() > 0;
    if needs {
        let info = lookup(msg_cache, frame.can_id, frame.is_extended);
        match filters.match_status {
            MatchStatus::All => {},
            MatchStatus::Matched => {
                if info.is_none() {
                    return false;
                }
            },
            MatchStatus::Unmatched => {
                if info.is_some() {
                    return false;
                }
            },
        }
        if filters.messages.len() > 0 {
            match info {
                None => {
                    return false;
                },
                Some(i) => {
                    let ok = any_in(&i.name, message_filters);
                    proof {
                        assert forall|m: int| 0 <= m < message_filters@.len() implies message_filters@[m]@
                            == #[trigger] lowered(filters.messages@)[m] by {
                            assert(message_filters@.map_values(|s: String| s@)[m] == message_filters@[m]@);
                        }
                        assert(message_filters@.map_values(|s: String| s@).len() == message_filters@.len());
                        assert(lowered(filters.messages@).len() == filters.messages@.len());
                        let info_v = cache_lookup(msg_cache.entries@, key_of(*frame));
                        assert(info_v == Some(*i));
                        if message_ok(*filters, info_v) {
                            let m = choose|m: int|
                                0 <= m < filters.messages@.len() && has_substring(i.name@, #[trigger] lowered(filters.messages@)[m]);
                            assert(message_filters@[m]@ == lowered(filters.messages@)[m]);
                        }
                        if ok {
                            let m = choose|m: int| 0 <= m < message_filters@.len() && has_substring(i.name@, #[trigger] message_filters@[m]@);
                            assert(message_filters@[m]@ == lowered(filters.messages@)[m]);
                        }
                    }
                    if !ok {
                        return false;
                    }
                },
            }
        }
        if filters.signals.len() > 0 {
            match info {
                None => {
                    return false;
                },
                Some(i) => {
                    let ok = any_signal_in(&i.signal_names, signal_filters);
                    proof {
                        assert forall|m: int| 0 <= m < signal_filters@.len() implies signal_filters@[m]@
                            == #[trigger] lowered(filters.signals@)[m] by {
                            assert(signal_filters@.map_values(|s: String| s@)[m] == signal_filters@[m]@);
                        }
                        assert(signal_filters@.map_values(|s: String| s@).len() == signal_filters@.len());
                        assert(lowered(filters.signals@).len() == filters.signals@.len());
                        let info_v = cache_lookup(msg_cache.entries@, key_of(*frame));
                        assert(info_v == Some(*i));
                        if signal_ok(*filters, info_v) {
                            let (a, n) = choose|a: int, n: int|
                                0 <= a < filters.signals@.len() && 0 <= n < i.signal_names@.len() && #[trigger] has_substring(
                                    i.signal_names@[n]@,
                                    lowered(filters.signals@)[a],
                                );
                            assert(signal_filters@[a]@ == lowered(filters.signals@)[a]);
                            assert(has_substring(i.signal_names@[n]@, signal_filters@[a]@));
                        }
                        if ok {
                            let (a, n) = choose|a: int, n: int|
                                0 <= a < signal_filters@.len() && 0 <= n < i.signal_names@.len() && #[trigger] has_substring(
                                    i.signal_names@[n]@,
                                    signal_filters@[a]@,
                                );
                            assert(signal_filters@[a]@ == lowered(filters.signals@)[a]);
                            assert(has_substring(i.signal_names@[n]@, lowered(filters.signals@)[a]));
                        }
                    }
                    if !ok {
                        return false;
                    }
                },
            }
        }
    }
    true
}

/// An empty frame: zero timestamp, ID and DLC, no flags, empty channel and
/// payload.
fn placeholder_frame() -> (f: CanFrameDto)
    ensures
        f.timestamp_us == 0,
        f.channel@ == Seq::<char>::empty(),
        f.can_id == 0,
        !f.is_extended,
        !f.is_fd,
        !f.brs,
        !f.esi,
        f.dlc == 0,
        f.data@ == Seq::<u8>::empty(),
{
    CanFrameDto {
        timestamp_us: 0,
        channel: String::new(),
        can_id: 0,
        is_extended: false,
        is_fd: false,
        brs: false,
        esi: false,
        dlc: 0,
        data: Vec::new(),
    }
}

/// Filter frames using a pre-built message cache.
///
/// A frame is kept iff its timestamp lies in the optional inclusive range,
/// its ID is listed (when IDs are given), its channel matches (when given),
/// its data matches the non-empty data pattern (when given), and — when the
/// match status is not `All` or message/signal names are given — its DBC
/// message meets the match status and contains one of the lowercased names.
/// Kept frames keep their order.
pub fn filter_frames_with_cache(
    frames: Vec<CanFrameDto>,
    filters: &FilterConfig,
    msg_cache: &DbcMessageCache,
) -> (r: FilterResult)
    ensures
        r.total_count == frames@.len(),
        r.frames@ == frames@.filter(pass_pred(*filters, msg_cache.entries@)),
        r.filtered_count == r.frames@.len(),
{
    let total_count = frames.len();
    let pattern: Option<Vec<Option<u8>>> = match &filters.data_pattern {
        Some(p) => Some(parse_data_pattern(p.as_str())),
        None => None,
    };
    let message_filters = lower_all(&filters.messages);
    let signal_filters = lower_all(&filters.signals);
    let ghost orig = frames@;
    let ghost pred = pass_pred(*filters, msg_cache.entries@);
    let mut frames = frames;
    let mut kept: Vec<CanFrameDto> = Vec::new();
    let mut i: usize = 0;
    while i < frames.len()
        invariant
            frames@.len() == orig.len(),
            pred == pass_pred(*filters, msg_cache.entries@),
            i <= orig.len(),
            forall|k: int| i <= k < orig.len() ==> #[trigger] frames@[k] == orig[k],
            kept@ == orig.take(i as int).filter(pred),
            match pattern {
                Some(p) => config_pattern(*filters) == Some(p@),
                None => config_pattern(*filters) is None,
            },
            message_filters@.map_values(|s: String| s@) == lowered(filters.messages@),
            signal_filters@.map_values(|s: String| s@) == lowered(filters.signals@),
        decreases orig.len() - i,
    {
        proof {
            lemma_filter_take_succ(orig, pred, i as int);
        }
        let keep = passes(&frames[i], filters, msg_cache, &pattern, &message_filters, &signal_filters);
        if keep {
            let mut f = placeholder_frame();
            std::mem::swap(&mut f, &mut frames[i]);
            assert(f == orig[i as int]);
            kept.push(f);
        }
        i = i + 1;
    }
    assert(orig.take(orig.len() as int) =~= orig);
    let filtered_count = kept.len();
    FilterResult { frames: kept, total_count, filtered_count }
}

} // verus!
