//! Remembered file paths of the session: moving paths saved under the
//! application's former names to its current one.
use vstd::prelude::*;

use crate::filter::chars_of;
use crate::text::{push_char, push_str, str_eq};

verus! {

/// `s` with every occurrence of `pat` replaced by `rep`, matching from the
/// left without overlap (`str::replace`, for a non-empty pattern).
pub open spec fn replace_all(s: Seq<char>, pat: Seq<char>, rep: Seq<char>) -> Seq<char>
    decreases s.len(),
{
    if pat.len() == 0 || s.len() < pat.len() {
        s
    } else if s.take(pat.len() as int) == pat {
        rep + replace_all(s.skip(pat.len() as int), pat, rep)
    } else {
        seq![s[0]] + replace_all(s.skip(1), pat, rep)
    }
}

/// The path with the former application directories renamed.
pub open spec fn legacy_rewrite(path: Seq<char>) -> Seq<char> {
    replace_all(
        replace_all(
            replace_all(
                replace_all(path, "/can-viewer/"@, "/sigma-diagnostics/"@),
                "/.config/can-viewer"@,
                "/.config/sigma-diagnostics"@,
            ),
            "/diagnostics/"@,
            "/sigma-diagnostics/"@,
        ),
        "/.config/diagnostics"@,
        "/.config/sigma-diagnostics"@,
    )
}

/// `pat` occurs in `cs` at `i`.
fn occurs_at(cs: &Vec<char>, i: usize, pat: &Vec<char>) -> (r: bool)
    requires
        i <= cs@.len(),
    ensures
        r == (cs@.len() - i >= pat@.len() && cs@.skip(i as int).take(pat@.len() as int) == pat@),
{
    let n = cs.len();
    if n - i < pat.len() {
        return false;
    }
    let mut k: usize = 0;
    while k < pat.len()
        invariant
            n == cs@.len(),
            i + pat@.len() <= n,
            k <= pat@.len(),
            forall|j: int| 0 <= j < k ==> cs@[i + j] == pat@[j],
        decreases pat.len() - k,
    {
        if cs[i + k] != pat[k] {
            assert(cs@.skip(i as int).take(pat@.len() as int)[k as int] != pat@[k as int]);
            return false;
        }
        k = k + 1;
    }
    assert(cs@.skip(i as int).take(pat@.len() as int) =~= pat@);
    true
}

/// `str::replace` for a non-empty pattern.
fn replace_str(s: &str, pat: &str, rep: &str) -> (r: String)
    ensures
        r@ == replace_all(s@, pat@, rep@),
{
    let cs = chars_of(s);
    let ps = chars_of(pat);
    let mut out = String::new();
    if ps.len() == 0 {
        push_str(&mut out, s);
        return out;
    }
    let mut i: usize = 0;
    assert(cs@.skip(0) =~= s@);
    assert(out@ + replace_all(cs@.skip(0), ps@, rep@) =~= replace_all(s@, pat@, rep@));
    while i < cs.len()
        invariant
            cs@ == s@,
            ps@ == pat@,
            ps@.len() > 0,
            i <= cs@.len(),
            out@ + replace_all(cs@.skip(i as int), ps@, rep@) == replace_all(s@, pat@, rep@),
        decreases cs.len() - i,
    {
        let ghost rest = cs@.skip(i as int);
        if occurs_at(&cs, i, &ps) {
            assert(rest.take(ps@.len() as int) == ps@);
            assert(rest.skip(ps@.len() as int) =~= cs@.skip(i + ps@.len()));
            push_str(&mut out, rep);
            i = i + ps.len();
        } else {
            assert(rest.skip(1) =~= cs@.skip(i + 1));
            assert(rest[0] == cs@[i as int]);
            push_char(&mut out, cs[i]);
            i = i + 1;
        }
        proof {
            assert(out@ + replace_all(cs@.skip(i as int), ps@, rep@) =~= replace_all(s@, pat@, rep@));
        }
    }
    assert(cs@.skip(i as int) =~= Seq::<char>::empty());
    assert(out@ =~= out@ + replace_all(cs@.skip(i as int), ps@, rep@));
    out
}

/// The path with the application's former directory names replaced by
/// its current one.
pub fn rewrite_legacy_path(path: &str) -> (r: String)
    ensures
        r@ == legacy_rewrite(path@),
{
    let a = replace_str(path, "/can-viewer/", "/sigma-diagnostics/");
    let b = replace_str(a.as_str(), "/.config/can-viewer", "/.config/sigma-diagnostics");
    let c = replace_str(b.as_str(), "/diagnostics/", "/sigma-diagnostics/");
    replace_str(c.as_str(), "/.config/diagnostics", "/.config/sigma-diagnostics")
}

/// The remembered path to keep: the path itself when it names a file,
/// else its rewrite when that differs and names a file, else none. The
/// caller looks both up on disk.
pub fn sanitize_path(path: &str, path_is_file: bool, rewritten: &str, rewritten_is_file: bool) -> (r: Option<
    String,
>)
    ensures
        match r {
            Some(p) => (path_is_file && p@ == path@) || (!path_is_file && rewritten@ != path@
                && rewritten_is_file && p@ == rewritten@),
            None => !path_is_file && (rewritten@ == path@ || !rewritten_is_file),
        },
{
    if path_is_file {
        let mut p = String::new();
        push_str(&mut p, path);
        return Some(p);
    }
    if !str_eq(rewritten, path) && rewritten_is_file {
        let mut p = String::new();
        push_str(&mut p, rewritten);
        return Some(p);
    }
    None
}

} // verus!
