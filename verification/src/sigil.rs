//! Recognition of the annotation sigil: `//`, an optional bracketed
//! revision list, a `~`, then either a continuation marker `|` or a run of
//! up-adjust markers `^`.

use vstd::prelude::*;
use vstd::string::*;

use crate::text::{class_run, in_class, lemma_class_run_agree, lemma_class_run_props, run_len,
    CharClass};

verus! {

/// If the sigil pattern matches at position `p`, the position of its `~`.
///
/// The pattern at `p` is `//` followed either directly by `~`, or by
/// `[`, one or more revision-list characters, `]`, and then `~`.
pub open spec fn match_tilde_at(s: Seq<char>, p: int) -> Option<int> {
    if !(0 <= p && p + 3 <= s.len()) {
        None
    } else if s[p] != '/' || s[p + 1] != '/' {
        None
    } else if s[p + 2] == '~' {
        Some(p + 2)
    } else if s[p + 2] == '[' {
        let k = class_run(s, CharClass::Rev, p + 3);
        if k >= 1 && p + 4 + k < s.len() && s[p + 3 + k] == ']' && s[p + 4 + k] == '~' {
            Some(p + 4 + k)
        } else {
            None
        }
    } else {
        None
    }
}

pub open spec fn sigil_at(s: Seq<char>, p: int) -> bool {
    match_tilde_at(s, p) is Some
}

/// The position of the leftmost sigil at or after `p`, if any.
pub open spec fn first_sigil_from(s: Seq<char>, p: int) -> Option<int>
    decreases s.len() - p when 0 <= p <= s.len()
{
    if p >= s.len() {
        None
    } else if sigil_at(s, p) {
        Some(p)
    } else {
        first_sigil_from(s, p + 1)
    }
}

/// The position of the leftmost sigil in the line, if any.
pub open spec fn first_sigil(s: Seq<char>) -> Option<int> {
    first_sigil_from(s, 0)
}

/// The `~` position of the leftmost sigil; meaningful only when one exists.
pub open spec fn tilde_of(s: Seq<char>, p: int) -> int {
    match match_tilde_at(s, p) {
        Some(t) => t,
        None => 0,
    }
}

/// Whether the sigil whose `~` sits at `t` carries the continuation marker.
pub open spec fn is_follow(s: Seq<char>, t: int) -> bool {
    t + 1 < s.len() && s[t + 1] == '|'
}

/// The number of up-adjust markers after the `~` at `t`.
pub open spec fn caret_count(s: Seq<char>, t: int) -> int {
    if is_follow(s, t) {
        0
    } else {
        class_run(s, CharClass::Caret, t + 1)
    }
}

/// The position one past the whole sigil match.
pub open spec fn sigil_end(s: Seq<char>, t: int) -> int {
    if is_follow(s, t) {
        t + 2
    } else {
        t + 1 + caret_count(s, t)
    }
}

/// Whether the two reference markers are mixed on one sigil: a continuation
/// marker directly followed by an up-adjust marker, or the other way round.
pub open spec fn has_conflict(s: Seq<char>, t: int) -> bool {
    let e = sigil_end(s, t);
    if is_follow(s, t) {
        e < s.len() && s[e] == '^'
    } else {
        caret_count(s, t) > 0 && e < s.len() && s[e] == '|'
    }
}

pub proof fn lemma_match_tilde_props(s: Seq<char>, p: int, t: int)
    requires
        match_tilde_at(s, p) == Some(t),
    ensures
        0 <= p,
        p + 2 <= t < s.len(),
        s[t] == '~',
        t < sigil_end(s, t) <= s.len(),
    decreases 0int,
{
    if s[p + 2] == '~' {
    } else {
        lemma_class_run_props(s, CharClass::Rev, p + 3);
    }
    if is_follow(s, t) {
    } else {
        lemma_class_run_props(s, CharClass::Caret, t + 1);
    }
}

pub proof fn lemma_first_sigil_from_props(s: Seq<char>, p: int)
    requires
        0 <= p <= s.len(),
    ensures
        first_sigil_from(s, p) matches Some(q) ==> p <= q < s.len() && sigil_at(s, q) && forall|
            r: int,
        |
            p <= r < q ==> !sigil_at(s, r),
        first_sigil_from(s, p) is None ==> forall|r: int| p <= r < s.len() ==> !sigil_at(s, r),
    decreases s.len() - p,
{
    if p < s.len() && !sigil_at(s, p) {
        lemma_first_sigil_from_props(s, p + 1);
    }
}

pub proof fn lemma_first_sigil_from_exact(s: Seq<char>, p: int, q: int)
    requires
        0 <= p <= q <= s.len(),
        forall|r: int| p <= r < q ==> !sigil_at(s, r),
        q < s.len() ==> sigil_at(s, q),
    ensures
        q < s.len() ==> first_sigil_from(s, p) == Some(q),
        q == s.len() ==> first_sigil_from(s, p) is None,
    decreases q - p,
{
    if p < q {
        lemma_first_sigil_from_exact(s, p + 1, q);
    }
}

/// A line without a `~` has no sigil.
pub proof fn lemma_no_tilde_no_sigil(s: Seq<char>)
    requires
        forall|k: int| 0 <= k < s.len() ==> s[k] != '~',
    ensures
        first_sigil(s) is None,
{
    assert forall|p: int| 0 <= p < s.len() implies !sigil_at(s, p) by {
        match match_tilde_at(s, p) {
            Some(t) => lemma_match_tilde_props(s, p, t),
            None => (),
        }
    }
    lemma_first_sigil_from_exact(s, 0, s.len() as int);
}

/// A sigil match whose `~` lies inside a region on which two sequences agree
/// is a match in either one of them.
pub proof fn lemma_match_tilde_agree(u: Seq<char>, v: Seq<char>, m: int, p: int, t: int)
    requires
        0 <= m <= u.len(),
        m <= v.len(),
        forall|k: int| 0 <= k < m ==> u[k] == #[trigger] v[k],
        match_tilde_at(u, p) == Some(t),
        t < m,
    ensures
        match_tilde_at(v, p) == Some(t),
{
    lemma_match_tilde_props(u, p, t);
    if u[p + 2] == '~' {
    } else {
        let k = class_run(u, CharClass::Rev, p + 3);
        lemma_class_run_props(u, CharClass::Rev, p + 3);
        lemma_class_run_agree(u, v, CharClass::Rev, p + 3, m);
    }
}

/// Exec test of `match_tilde_at` at one position.
fn match_tilde_exec(line: &str, p: usize, n: usize) -> (r: Option<usize>)
    requires
        p <= n,
        n == line@.len(),
    ensures
        r matches Some(t) ==> match_tilde_at(line@, p as int) == Some(t as int),
        r is None ==> match_tilde_at(line@, p as int) is None,
{
    if n - p < 3 {
        return None;
    }
    if line.get_char(p) != '/' || line.get_char(p + 1) != '/' {
        return None;
    }
    let c2 = line.get_char(p + 2);
    if c2 == '~' {
        return Some(p + 2);
    }
    if c2 == '[' {
        let k = run_len(line, CharClass::Rev, p + 3, n);
        proof {
            lemma_class_run_props(line@, CharClass::Rev, p + 3);
        }
        if k >= 1 && n - p >= 5 && k <= (n - p) - 5 && line.get_char(p + 3 + k) == ']'
            && line.get_char(p + 4 + k) == '~' {
            return Some(p + 4 + k);
        }
        return None;
    }
    None
}

/// Finds the leftmost sigil in the line: its start and its `~` position.
pub fn find_sigil(line: &str) -> (r: Option<(usize, usize)>)
    ensures
        r matches Some(pt) ==> first_sigil(line@) == Some(pt.0 as int) && tilde_of(
            line@,
            pt.0 as int,
        ) == pt.1 as int,
        r is None ==> first_sigil(line@) is None,
{
    let n = line.unicode_len();
    let mut p: usize = 0;
    loop
        invariant
            p <= n,
            n == line@.len(),
            forall|q: int| 0 <= q < p ==> !sigil_at(line@, q),
        ensures
            p == n == line@.len(),
            first_sigil(line@) is None,
        decreases n - p,
    {
        if p == n {
            proof {
                lemma_first_sigil_from_exact(line@, 0, n as int);
            }
            break ;
        }
        if let Some(t) = match_tilde_exec(line, p, n) {
            proof {
                lemma_first_sigil_from_exact(line@, 0, p as int);
            }
            return Some((p, t));
        }
        p = p + 1;
    }
    None
}

/// Reads the continuation flag, the up-adjust count, and the end of the
/// sigil whose `~` sits at `t`.
pub fn read_adjust(line: &str, t: usize, n: usize) -> (r: (bool, usize, usize))
    requires
        t < n,
        n == line@.len(),
        line@[t as int] == '~',
    ensures
        r.0 == is_follow(line@, t as int),
        r.1 == caret_count(line@, t as int),
        r.2 == sigil_end(line@, t as int),
        r.2 <= n,
{
    if t + 1 < n && line.get_char(t + 1) == '|' {
        (true, 0, t + 2)
    } else {
        let k = run_len(line, CharClass::Caret, t + 1, n);
        proof {
            lemma_class_run_props(line@, CharClass::Caret, t + 1);
        }
        (false, k, t + 1 + k)
    }
}

} // verus!
