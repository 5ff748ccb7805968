//! Choice of SocketCAN interfaces among the system's network interfaces,
//! and the kernel filter words of a capture filter.
use vstd::prelude::*;

use crate::helpers::{trim_end, trim_start};
use crate::text::{is_whitespace, str_eq};

verus! {

/// `name` begins with `prefix`.
pub open spec fn starts_with(name: Seq<char>, prefix: Seq<char>) -> bool {
    prefix.len() <= name.len() && name.subrange(0, prefix.len() as int) == prefix
}

/// A network interface is a CAN interface when its link type reads `280`
/// (ARPHRD_CAN) or its name starts with `vcan` or `can`.
pub open spec fn is_can_interface(e: (Seq<char>, Option<Seq<char>>)) -> bool {
    (e.1 matches Some(t) && trim_end(trim_start(t)) == "280"@) || starts_with(e.0, "vcan"@)
        || starts_with(e.0, "can"@)
}

/// The names, without repetitions, in order of first occurrence.
pub open spec fn names_in_order(names: Seq<Seq<char>>) -> Seq<Seq<char>>
    decreases names.len(),
{
    if names.len() == 0 {
        Seq::empty()
    } else {
        let d = names_in_order(names.drop_last());
        if d.contains(names.last()) {
            d
        } else {
            d.push(names.last())
        }
    }
}

pub open spec fn entry_views(es: Seq<(String, Option<String>)>) -> Seq<(Seq<char>, Option<Seq<char>>)> {
    es.map_values(
        |e: (String, Option<String>)|
            (
                e.0@,
                match e.1 {
                    Some(t) => Some(t@),
                    None => None,
                },
            ),
    )
}

pub open spec fn can_pred() -> spec_fn((Seq<char>, Option<Seq<char>>)) -> bool {
    |e: (Seq<char>, Option<Seq<char>>)| is_can_interface(e)
}

/// The CAN interfaces among the system's network interfaces.
pub open spec fn can_interfaces(es: Seq<(Seq<char>, Option<Seq<char>>)>) -> Seq<Seq<char>> {
    names_in_order(es.filter(can_pred()).map_values(|e: (Seq<char>, Option<Seq<char>>)| e.0))
}

fn prefix_is(name: &Vec<char>, prefix: &str) -> (r: bool)
    ensures
        r == starts_with(name@, prefix@),
{
    let m = prefix.unicode_len();
    if m > name.len() {
        return false;
    }
    let mut i: usize = 0;
    while i < m
        invariant
            m == prefix@.len(),
            m <= name@.len(),
            i <= m,
            forall|k: int| 0 <= k < i ==> name@[k] == prefix@[k],
        decreases m - i,
    {
        if name[i] != prefix.get_char(i) {
            assert(name@.subrange(0, m as int)[i as int] != prefix@[i as int]);
            return false;
        }
        i = i + 1;
    }
    assert(name@.subrange(0, m as int) =~= prefix@);
    true
}

/// The link type, without surrounding whitespace, reads `280`.
fn type_is_can(t: &str) -> (r: bool)
    ensures
        r == (trim_end(trim_start(t@)) == "280"@),
{
    let cs = crate::filter::chars_of(t);
    let mut a: usize = 0;
    assert(cs@.subrange(0, cs@.len() as int) =~= t@);
    while a < cs.len() && is_whitespace(cs[a])
        invariant
            a <= cs@.len(),
            trim_start(cs@.subrange(a as int, cs@.len() as int)) == trim_start(t@),
        decreases cs.len() - a,
    {
        assert(cs@.subrange(a + 1, cs@.len() as int) =~= cs@.subrange(a as int, cs@.len() as int).drop_first());
        a = a + 1;
    }
    assert(cs@.subrange(0, cs@.len() as int) =~= t@);
    let mut b: usize = cs.len();
    while b > a && is_whitespace(cs[b - 1])
        invariant
            a <= b <= cs@.len(),
            trim_end(cs@.subrange(a as int, b as int)) == trim_end(trim_start(t@)),
        decreases b - a,
    {
        assert(cs@.subrange(a as int, b - 1) =~= cs@.subrange(a as int, b as int).drop_last());
        b = b - 1;
    }
    proof {
        assert(trim_start(cs@.subrange(a as int, cs@.len() as int)) == cs@.subrange(a as int, cs@.len() as int));
        assert(trim_end(cs@.subrange(a as int, b as int)) == cs@.subrange(a as int, b as int));
        reveal_strlit("280");
    }
    if b - a != 3 {
        return false;
    }
    let r = cs[a] == '2' && cs[a + 1] == '8' && cs[a + 2] == '0';
    proof {
        let w = cs@.subrange(a as int, b as int);
        if r {
            assert(w =~= "280"@);
        } else {
            assert(w[0] != '2' || w[1] != '8' || w[2] != '0');
        }
    }
    r
}

/// The CAN interfaces among network interfaces given as (name, link type
/// file contents when readable), in order, without repetitions.
pub fn list_can_interfaces(entries: &[(String, Option<String>)]) -> (names: Vec<String>)
    ensures
        names@.map_values(|s: String| s@) == can_interfaces(entry_views(entries@)),
{
    let ghost ev = entry_views(entries@);
    let ghost pred = can_pred();
    let mut names: Vec<String> = Vec::new();
    let mut k: usize = 0;
    while k < entries.len()
        invariant
            ev == entry_views(entries@),
            pred == can_pred(),
            k <= entries@.len(),
            names@.map_values(|s: String| s@) == names_in_order(
                ev.take(k as int).filter(pred).map_values(|e: (Seq<char>, Option<Seq<char>>)| e.0),
            ),
        decreases entries.len() - k,
    {
        let name = &entries[k].0;
        let cs = crate::filter::chars_of(name.as_str());
        let typed = match &entries[k].1 {
            Some(t) => type_is_can(t.as_str()),
            None => false,
        };
        let qualifies = typed || prefix_is(&cs, "vcan") || prefix_is(&cs, "can");
        let ghost e = ev[k as int];
        proof {
            crate::mux::lemma_filter_take_succ(ev, pred, k as int);
            assert(e.0 == name@);
            assert(qualifies == is_can_interface(e));
        }
        let ghost before = ev.take(k as int).filter(pred).map_values(|x: (Seq<char>, Option<Seq<char>>)| x.0);
        let ghost nv = names@.map_values(|s: String| s@);
        if qualifies {
            let mut present = false;
            let mut j: usize = 0;
            while j < names.len() && !present
                invariant
                    nv == names@.map_values(|s: String| s@),
                    j <= names@.len(),
                    present == exists|t: int| 0 <= t < j && nv[t] == name@,
                decreases names.len() - j,
            {
                assert(nv[j as int] == names@[j as int]@);
                if str_eq(names[j].as_str(), name.as_str()) {
                    present = true;
                }
                j = j + 1;
            }
            proof {
                let after = ev.take(k + 1).filter(pred).map_values(|x: (Seq<char>, Option<Seq<char>>)| x.0);
                assert(after =~= before.push(name@));
                assert(after.drop_last() =~= before);
                if present {
                    let t = choose|t: int| 0 <= t < j && nv[t] == name@;
                    assert(nv.contains(name@));
                } else {
                    assert(!nv.contains(name@));
                }
            }
            if !present {
                names.push(name.clone());
                proof {
                    assert(names@.map_values(|s: String| s@) =~= nv.push(name@));
                }
            }
        } else {
            proof {
                let after = ev.take(k + 1).filter(pred).map_values(|x: (Seq<char>, Option<Seq<char>>)| x.0);
                assert(after =~= before);
            }
        }
        k = k + 1;
    }
    assert(ev.take(ev.len() as int) =~= ev);
    names
}

/// A capture filter on CAN IDs: a frame passes when `id & mask == can_id &
/// mask` (or fails, when inverted).
#[derive(Debug, Clone, Copy, PartialEq, Eq, Structural)]
pub struct CanBpfFilter {
    pub can_id: u32,
    pub mask: u32,
    pub is_extended: bool,
    pub inverted: bool,
}

/// The extended-frame flag of SocketCAN IDs.
pub const CAN_EFF_FLAG: u32 = 0x8000_0000;

/// The (id, mask) words handed to the kernel for a filter: both with the
/// extended-frame flag set for an extended filter, unchanged otherwise.
/// Whether the filter is inverted is passed on separately.
pub fn kernel_filter_words(f: &CanBpfFilter) -> (r: (u32, u32))
    ensures
        r.0 == (if f.is_extended {
            f.can_id | CAN_EFF_FLAG
        } else {
            f.can_id
        }),
        r.1 == (if f.is_extended {
            f.mask | CAN_EFF_FLAG
        } else {
            f.mask
        }),
{
    if f.is_extended {
        (f.can_id | CAN_EFF_FLAG, f.mask | CAN_EFF_FLAG)
    } else {
        (f.can_id, f.mask)
    }
}

} // verus!
