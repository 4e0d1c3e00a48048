//! Character-level text utilities: line splitting and joining, character
//! classes and runs, searching, trimming, and decimal rendering.

use vstd::prelude::*;
use vstd::string::*;

verus! {

/// Character classes the scanners recognize runs of.
#[derive(Clone, Copy, Debug, PartialEq, Eq, Structural)]
pub enum CharClass {
    /// Characters allowed in a bracketed revision list: `[\w\-,]` (ASCII).
    Rev,
    /// The up-adjust marker `^`.
    Caret,
    /// An ASCII decimal digit.
    Digit,
    /// ASCII whitespace that can occur inside a line.
    Blank,
    /// Anything that is not `Blank`.
    NonBlank,
}

pub open spec fn is_blank_char(c: char) -> bool {
    c == ' ' || c == '\t' || c == '\r' || c == '\x0B' || c == '\x0C'
}

pub open spec fn in_class(cls: CharClass, c: char) -> bool {
    match cls {
        CharClass::Rev => ('a' <= c && c <= 'z') || ('A' <= c && c <= 'Z') || ('0' <= c && c
            <= '9') || c == '_' || c == '-' || c == ',',
        CharClass::Caret => c == '^',
        CharClass::Digit => '0' <= c && c <= '9',
        CharClass::Blank => is_blank_char(c),
        CharClass::NonBlank => !is_blank_char(c),
    }
}

/// Length of the run of characters of class `cls` starting at `i`.
pub open spec fn class_run(s: Seq<char>, cls: CharClass, i: int) -> int
    decreases s.len() - i when 0 <= i <= s.len()
{
    if i < s.len() && in_class(cls, s[i]) {
        1 + class_run(s, cls, i + 1)
    } else {
        0
    }
}

pub proof fn lemma_class_run_props(s: Seq<char>, cls: CharClass, i: int)
    requires
        0 <= i <= s.len(),
    ensures
        0 <= class_run(s, cls, i),
        i + class_run(s, cls, i) <= s.len(),
        forall|j: int|
            i <= j < i + class_run(s, cls, i) ==> in_class(cls, #[trigger] s[j]),
        i + class_run(s, cls, i) < s.len() ==> !in_class(cls, s[i + class_run(s, cls, i)]),
    decreases s.len() - i,
{
    if i < s.len() && in_class(cls, s[i]) {
        lemma_class_run_props(s, cls, i + 1);
    }
}

/// A run is determined by its members: if everything in `[i, j)` is in the
/// class and `j` is the end of the string or a non-member, the run is `j - i`.
pub proof fn lemma_class_run_exact(s: Seq<char>, cls: CharClass, i: int, j: int)
    requires
        0 <= i <= j <= s.len(),
        forall|k: int| i <= k < j ==> in_class(cls, #[trigger] s[k]),
        j < s.len() ==> !in_class(cls, s[j]),
    ensures
        class_run(s, cls, i) == j - i,
    decreases j - i,
{
    if i < j {
        lemma_class_run_exact(s, cls, i + 1, j);
    }
}

/// Two sequences agreeing on a range have the same run there, as long as the
/// run of the first ends before the range does.
pub proof fn lemma_class_run_agree(s1: Seq<char>, s2: Seq<char>, cls: CharClass, i: int, hi: int)
    requires
        0 <= i <= hi,
        hi <= s1.len(),
        hi <= s2.len(),
        forall|k: int| 0 <= k < hi ==> s1[k] == #[trigger] s2[k],
        i + class_run(s1, cls, i) < hi,
    ensures
        class_run(s2, cls, i) == class_run(s1, cls, i),
{
    lemma_class_run_props(s1, cls, i);
    let e = i + class_run(s1, cls, i);
    assert(forall|k: int| i <= k < e ==> in_class(cls, #[trigger] s2[k]));
    lemma_class_run_exact(s2, cls, i, e);
}

/// Exec counterpart of `class_run`, scanning from `from`.
pub fn run_len(s: &str, cls: CharClass, from: usize, n: usize) -> (r: usize)
    requires
        from <= n,
        n == s@.len(),
    ensures
        r == class_run(s@, cls, from as int),
{
    let mut i: usize = from;
    loop
        invariant
            from <= i <= n,
            n == s@.len(),
            forall|k: int| from <= k < i ==> in_class(cls, #[trigger] s@[k]),
            class_run(s@, cls, from as int) == (i - from) + class_run(s@, cls, i as int),
        ensures
            from <= i <= n,
            class_run(s@, cls, from as int) == i - from,
        decreases n - i,
    {
        if i == n {
            proof {
                lemma_class_run_exact(s@, cls, i as int, i as int);
            }
            break ;
        }
        let c = s.get_char(i);
        let member = match cls {
            CharClass::Rev => ('a' <= c && c <= 'z') || ('A' <= c && c <= 'Z') || ('0' <= c && c
                <= '9') || c == '_' || c == '-' || c == ',',
            CharClass::Caret => c == '^',
            CharClass::Digit => '0' <= c && c <= '9',
            CharClass::Blank => c == ' ' || c == '\t' || c == '\r' || c == '\x0B' || c == '\x0C',
            CharClass::NonBlank => !(c == ' ' || c == '\t' || c == '\r' || c == '\x0B' || c
                == '\x0C'),
        };
        if !member {
            proof {
                lemma_class_run_exact(s@, cls, i as int, i as int);
            }
            break ;
        }
        i = i + 1;
    }
    i - from
}

/// Index of the first occurrence of `c` at or after `i`, or `s.len()`.
pub open spec fn find_char_from(s: Seq<char>, c: char, i: int) -> int
    decreases s.len() - i when 0 <= i <= s.len()
{
    if i >= s.len() {
        s.len() as int
    } else if s[i] == c {
        i
    } else {
        find_char_from(s, c, i + 1)
    }
}

pub proof fn lemma_find_char_from(s: Seq<char>, c: char, i: int)
    requires
        0 <= i <= s.len(),
    ensures
        i <= find_char_from(s, c, i) <= s.len(),
        find_char_from(s, c, i) < s.len() ==> s[find_char_from(s, c, i)] == c,
        forall|k: int| i <= k < find_char_from(s, c, i) ==> s[k] != c,
    decreases s.len() - i,
{
    if i < s.len() && s[i] != c {
        lemma_find_char_from(s, c, i + 1);
    }
}

pub proof fn lemma_find_char_exact(s: Seq<char>, c: char, i: int, j: int)
    requires
        0 <= i <= j <= s.len(),
        forall|k: int| i <= k < j ==> s[k] != c,
        j < s.len() ==> s[j] == c,
    ensures
        find_char_from(s, c, i) == j,
    decreases j - i,
{
    if i < j {
        lemma_find_char_exact(s, c, i + 1, j);
    }
}

/// Exec counterpart of `find_char_from`.
pub fn find_char(s: &str, c: char, from: usize, n: usize) -> (r: usize)
    requires
        from <= n,
        n == s@.len(),
    ensures
        r == find_char_from(s@, c, from as int),
{
    let mut i: usize = from;
    loop
        invariant
            from <= i <= n,
            n == s@.len(),
            forall|k: int| from <= k < i ==> s@[k] != c,
            find_char_from(s@, c, from as int) == find_char_from(s@, c, i as int),
        ensures
            from <= i <= n,
            find_char_from(s@, c, from as int) == i,
        decreases n - i,
    {
        if i == n {
            proof {
                lemma_find_char_exact(s@, c, i as int, i as int);
            }
            break ;
        }
        if s.get_char(i) == c {
            proof {
                lemma_find_char_exact(s@, c, i as int, i as int);
            }
            break ;
        }
        i = i + 1;
    }
    i
}

/// A line with a trailing carriage return stripped, as line splitting does
/// when the separator was `\r\n`.
pub open spec fn strip_cr(l: Seq<char>) -> Seq<char> {
    if l.len() > 0 && l[l.len() - 1] == '\r' {
        l.drop_last()
    } else {
        l
    }
}

/// The lines of `s` starting at offset `i`: split at `\n`, strip a `\r`
/// that precedes a `\n`, and keep a final unterminated segment as it is.
pub open spec fn spec_lines_from(s: Seq<char>, i: int) -> Seq<Seq<char>>
    decreases s.len() - i when 0 <= i <= s.len() via spec_lines_from_dec
{
    if i >= s.len() {
        Seq::empty()
    } else {
        let b = find_char_from(s, '\n', i);
        if b >= s.len() {
            seq![s.subrange(i, s.len() as int)]
        } else {
            seq![strip_cr(s.subrange(i, b))] + spec_lines_from(s, b + 1)
        }
    }
}

#[via_fn]
proof fn spec_lines_from_dec(s: Seq<char>, i: int) {
    if 0 <= i <= s.len() {
        lemma_find_char_from(s, '\n', i);
    }
}

/// The lines of a whole text.
pub open spec fn spec_lines(s: Seq<char>) -> Seq<Seq<char>> {
    spec_lines_from(s, 0)
}

/// Unfolds one line: if `[i, b)` holds no newline and `s[b]` is one, the
/// lines from `i` are the segment up to `b` followed by the lines from `b+1`.
pub proof fn lemma_spec_lines_step(s: Seq<char>, i: int, b: int)
    requires
        0 <= i <= b <= s.len(),
        forall|k: int| i <= k < b ==> s[k] != '\n',
        b < s.len() ==> s[b] == '\n',
    ensures
        b < s.len() ==> spec_lines_from(s, i) == seq![strip_cr(s.subrange(i, b))]
            + spec_lines_from(s, b + 1),
        b == s.len() && i < b ==> spec_lines_from(s, i) == seq![s.subrange(i, b)],
        b == s.len() && i == b ==> spec_lines_from(s, i) == Seq::<Seq<char>>::empty(),
{
    lemma_find_char_exact(s, '\n', i, b);
}

/// No line produced by splitting contains a newline.
pub proof fn lemma_spec_lines_no_newline(s: Seq<char>, i: int, j: int)
    requires
        0 <= i <= s.len(),
        0 <= j < spec_lines_from(s, i).len(),
    ensures
        forall|k: int|
            0 <= k < spec_lines_from(s, i)[j].len() ==> spec_lines_from(s, i)[j][k] != '\n',
    decreases s.len() - i,
{
    let b = find_char_from(s, '\n', i);
    lemma_find_char_from(s, '\n', i);
    if i < s.len() {
        if b >= s.len() {
        } else {
            if j > 0 {
                lemma_spec_lines_no_newline(s, b + 1, j - 1);
            }
        }
    }
}

/// Splits a text into its lines, as `str::lines` does.
pub fn split_lines<'a>(s: &'a str) -> (r: Vec<&'a str>)
    ensures
        r.deep_view() == spec_lines(s@),
{
    let n = s.unicode_len();
    let mut out: Vec<&'a str> = Vec::new();
    let mut start: usize = 0;
    let mut i: usize = 0;
    loop
        invariant
            start <= i <= n,
            n == s@.len(),
            forall|k: int| start <= k < i ==> s@[k] != '\n',
            spec_lines(s@) == out.deep_view() + spec_lines_from(s@, start as int),
        ensures
            start <= i == n == s@.len(),
            forall|k: int| start <= k < i ==> s@[k] != '\n',
            spec_lines(s@) == out.deep_view() + spec_lines_from(s@, start as int),
        decreases n - i,
    {
        if i == n {
            break ;
        }
        if s.get_char(i) == '\n' {
            let e = if i > start && s.get_char(i - 1) == '\r' {
                i - 1
            } else {
                i
            };
            let piece = s.substring_char(start, e);
            proof {
                lemma_spec_lines_step(s@, start as int, i as int);
                assert(strip_cr(s@.subrange(start as int, i as int)) =~= s@.subrange(
                    start as int,
                    e as int,
                ));
                assert(out.deep_view().push(piece@) =~= out.deep_view() + seq![piece@]);
            }
            out.push(piece);
            proof {
                assert(spec_lines(s@) == out.deep_view() + spec_lines_from(s@, i + 1));
            }
            start = i + 1;
        }
        i = i + 1;
    }
    if start < n {
        let piece = s.substring_char(start, n);
        proof {
            lemma_spec_lines_step(s@, start as int, n as int);
            assert(out.deep_view().push(piece@) =~= out.deep_view() + seq![piece@]);
        }
        out.push(piece);
    }
    proof {
        if start == n {
            assert(spec_lines_from(s@, start as int) =~= Seq::<Seq<char>>::empty());
        }
        assert(out.deep_view() =~= spec_lines(s@));
    }
    out
}

/// The text formed by emitting every line followed by one newline.
pub open spec fn spec_join(ls: Seq<Seq<char>>) -> Seq<char>
    decreases ls.len(),
{
    if ls.len() == 0 {
        Seq::empty()
    } else {
        ls[0] + seq!['\n'] + spec_join(ls.drop_first())
    }
}

pub proof fn lemma_join_push(ls: Seq<Seq<char>>, l: Seq<char>)
    ensures
        spec_join(ls.push(l)) == spec_join(ls) + l + seq!['\n'],
    decreases ls.len(),
{
    let p = ls.push(l);
    if ls.len() == 0 {
        assert(p.drop_first() =~= Seq::<Seq<char>>::empty());
        assert(spec_join(p) == p[0] + seq!['\n'] + spec_join(p.drop_first()));
        assert(p[0] == l);
        assert(spec_join(ls) == Seq::<char>::empty());
        assert(spec_join(p) =~= spec_join(ls) + l + seq!['\n']);
    } else {
        lemma_join_push(ls.drop_first(), l);
        assert(p.drop_first() =~= ls.drop_first().push(l));
        assert(spec_join(p) == p[0] + seq!['\n'] + spec_join(ls.drop_first().push(l)));
        assert(p[0] == ls[0]);
        assert(spec_join(p) =~= spec_join(ls) + l + seq!['\n']);
    }
}

/// Splitting the join of newline-free lines gives the lines back, up to the
/// carriage-return stripping that splitting performs.
pub proof fn lemma_lines_of_join(ls: Seq<Seq<char>>)
    requires
        forall|j: int, k: int|
            0 <= j < ls.len() && 0 <= k < ls[j].len() ==> #[trigger] ls[j][k] != '\n',
    ensures
        spec_lines(spec_join(ls)) == ls.map_values(|l: Seq<char>| strip_cr(l)),
    decreases ls.len(),
{
    let s = spec_join(ls);
    if ls.len() == 0 {
        assert(spec_lines(s) =~= ls.map_values(|l: Seq<char>| strip_cr(l)));
    } else {
        let head = ls[0];
        let rest = ls.drop_first();
        let b = head.len() as int;
        assert(s =~= head + seq!['\n'] + spec_join(rest));
        assert(forall|k: int| 0 <= k < b ==> s[k] != '\n');
        assert(s[b] == '\n');
        lemma_spec_lines_step(s, 0, b);
        assert(s.subrange(0, b) =~= head);
        assert(forall|j: int, k: int|
            0 <= j < rest.len() && 0 <= k < rest[j].len() ==> #[trigger] rest[j][k] != '\n');
        lemma_lines_of_join(rest);
        lemma_spec_lines_from_offset(s, b + 1);
        assert(s.subrange(b + 1, s.len() as int) =~= spec_join(rest));
        assert(spec_lines(s) =~= ls.map_values(|l: Seq<char>| strip_cr(l)));
    }
}

/// The lines from offset `i` are the lines of the suffix starting at `i`.
pub proof fn lemma_spec_lines_from_offset(s: Seq<char>, i: int)
    requires
        0 <= i <= s.len(),
    ensures
        spec_lines_from(s, i) == spec_lines(s.subrange(i, s.len() as int)),
    decreases s.len() - i,
{
    let t = s.subrange(i, s.len() as int);
    if i >= s.len() {
        assert(spec_lines_from(s, i) =~= spec_lines(t));
    } else {
        let b = find_char_from(s, '\n', i);
        lemma_find_char_from(s, '\n', i);
        lemma_find_char_from(t, '\n', 0);
        lemma_find_char_exact(t, '\n', 0, b - i);
        if b >= s.len() {
            assert(t.subrange(0, t.len() as int) =~= s.subrange(i, s.len() as int));
            assert(spec_lines_from(s, i) =~= spec_lines(t));
        } else {
            lemma_spec_lines_from_offset(s, b + 1);
            assert(t.subrange(0, b - i) =~= s.subrange(i, b));
            assert(t.subrange(b - i + 1, t.len() as int) =~= s.subrange(b + 1, s.len() as int));
            lemma_spec_lines_from_offset(t, b - i + 1);
            assert(spec_lines_from(s, i) =~= spec_lines(t));
        }
    }
}

/// Number of blank characters at the end of `s`.
pub open spec fn blank_suffix(s: Seq<char>) -> int
    decreases s.len(),
{
    if s.len() > 0 && is_blank_char(s[s.len() - 1]) {
        1 + blank_suffix(s.drop_last())
    } else {
        0
    }
}

pub proof fn lemma_blank_suffix_props(s: Seq<char>)
    ensures
        0 <= blank_suffix(s) <= s.len(),
        forall|k: int| s.len() - blank_suffix(s) <= k < s.len() ==> is_blank_char(#[trigger] s[k]),
        blank_suffix(s) < s.len() ==> !is_blank_char(s[s.len() - blank_suffix(s) - 1]),
    decreases s.len(),
{
    if s.len() > 0 && is_blank_char(s[s.len() - 1]) {
        lemma_blank_suffix_props(s.drop_last());
        let t = s.drop_last();
        assert forall|k: int| s.len() - blank_suffix(s) <= k < s.len() implies is_blank_char(
            #[trigger] s[k],
        ) by {
            if k < s.len() - 1 {
                assert(s[k] == t[k]);
            }
        }
        if blank_suffix(s) < s.len() {
            assert(s[s.len() - blank_suffix(s) - 1] == t[t.len() - blank_suffix(t) - 1]);
        }
    }
}

pub proof fn lemma_blank_suffix_exact(s: Seq<char>, j: int)
    requires
        0 <= j <= s.len(),
        forall|k: int| j <= k < s.len() ==> is_blank_char(#[trigger] s[k]),
        j > 0 ==> !is_blank_char(s[j - 1]),
    ensures
        blank_suffix(s) == s.len() - j,
    decreases s.len(),
{
    if s.len() > 0 && is_blank_char(s[s.len() - 1]) {
        lemma_blank_suffix_exact(s.drop_last(), j);
    }
}

/// `s` with leading and trailing blanks removed.
pub open spec fn spec_trim(s: Seq<char>) -> Seq<char> {
    let lo = class_run(s, CharClass::Blank, 0);
    if lo == s.len() {
        Seq::empty()
    } else {
        s.subrange(lo, s.len() - blank_suffix(s))
    }
}

pub proof fn lemma_spec_trim_wf(s: Seq<char>)
    ensures
        class_run(s, CharClass::Blank, 0) < s.len() ==> class_run(s, CharClass::Blank, 0) < s.len()
            - blank_suffix(s),
{
    lemma_class_run_props(s, CharClass::Blank, 0);
    lemma_blank_suffix_props(s);
    let lo = class_run(s, CharClass::Blank, 0);
    if lo < s.len() && lo >= s.len() - blank_suffix(s) {
        assert(is_blank_char(s[lo]));
    }
}

/// Exec counterpart of `spec_trim`.
pub fn trim_str<'a>(s: &'a str) -> (r: &'a str)
    ensures
        r@ == spec_trim(s@),
{
    let n = s.unicode_len();
    let lo = run_len(s, CharClass::Blank, 0, n);
    proof {
        lemma_class_run_props(s@, CharClass::Blank, 0);
    }
    if lo == n {
        return s.substring_char(n, n);
    }
    proof {
        lemma_spec_trim_wf(s@);
        lemma_blank_suffix_props(s@);
    }
    let mut j: usize = n;
    loop
        invariant
            lo < j <= n,
            n == s@.len(),
            lo == class_run(s@, CharClass::Blank, 0),
            lo < n,
            forall|k: int| j <= k < n ==> is_blank_char(#[trigger] s@[k]),
        ensures
            lo < j <= n,
            blank_suffix(s@) == n - j,
        decreases j,
    {
        let c = s.get_char(j - 1);
        if !(c == ' ' || c == '\t' || c == '\r' || c == '\x0B' || c == '\x0C') {
            proof {
                lemma_blank_suffix_exact(s@, j as int);
            }
            break ;
        }
        if j - 1 == lo {
            proof {
                lemma_class_run_props(s@, CharClass::Blank, 0);
                assert(!is_blank_char(s@[lo as int]));
                assert(false);
            }
        }
        j = j - 1;
    }
    s.substring_char(lo, j)
}

/// Whether no character of `s` is `c`.
pub open spec fn avoids(s: Seq<char>, c: char) -> bool {
    forall|k: int| 0 <= k < s.len() ==> s[k] != c
}

pub proof fn lemma_avoids_concat(a: Seq<char>, b: Seq<char>, c: char)
    requires
        avoids(a, c),
        avoids(b, c),
    ensures
        avoids(a + b, c),
{
    assert forall|k: int| 0 <= k < (a + b).len() implies (a + b)[k] != c by {
        if k < a.len() {
            assert((a + b)[k] == a[k]);
        } else {
            assert((a + b)[k] == b[k - a.len()]);
        }
    }
}

/// A contiguous part of a sequence avoids whatever the whole avoids.
pub proof fn lemma_avoids_subrange(s: Seq<char>, c: char, lo: int, hi: int)
    requires
        avoids(s, c),
        0 <= lo <= hi <= s.len(),
    ensures
        avoids(s.subrange(lo, hi), c),
{
    assert forall|k: int| 0 <= k < hi - lo implies s.subrange(lo, hi)[k] != c by {
        assert(s.subrange(lo, hi)[k] == s[lo + k]);
    }
}

/// The decimal digit character for `d`.
pub open spec fn digit_char(d: int) -> char {
    if d == 0 {
        '0'
    } else if d == 1 {
        '1'
    } else if d == 2 {
        '2'
    } else if d == 3 {
        '3'
    } else if d == 4 {
        '4'
    } else if d == 5 {
        '5'
    } else if d == 6 {
        '6'
    } else if d == 7 {
        '7'
    } else if d == 8 {
        '8'
    } else {
        '9'
    }
}

/// The decimal rendering of a nonnegative number, most significant digit
/// first, without leading zeros (a lone `0` for zero).
pub open spec fn dec_digits(n: int) -> Seq<char>
    decreases n when n >= 0
{
    if 0 <= n < 10 {
        seq![digit_char(n)]
    } else {
        dec_digits(n / 10).push(digit_char(n % 10))
    }
}

/// The decimal rendering of a signed number.
pub open spec fn render_int(n: int) -> Seq<char> {
    if n < 0 {
        seq!['-'] + dec_digits(-n)
    } else {
        dec_digits(n)
    }
}

/// Every character of a decimal rendering of a nonnegative number is a digit.
pub proof fn lemma_dec_digits_chars(n: int)
    requires
        n >= 0,
    ensures
        forall|k: int|
            0 <= k < dec_digits(n).len() ==> in_class(CharClass::Digit, #[trigger] dec_digits(n)[k]),
    decreases n,
{
    if n >= 10 {
        lemma_dec_digits_chars(n / 10);
        assert forall|k: int| 0 <= k < dec_digits(n).len() implies in_class(
            CharClass::Digit,
            #[trigger] dec_digits(n)[k],
        ) by {
            if k < dec_digits(n / 10).len() {
                assert(dec_digits(n)[k] == dec_digits(n / 10)[k]);
            } else {
                assert(dec_digits(n)[k] == digit_char(n % 10));
            }
        }
    }
}

fn digit_str(d: u64) -> (r: &'static str)
    requires
        d < 10,
    ensures
        r@ == seq![digit_char(d as int)],
{
    match d {
        0 => {
            proof {
                reveal_strlit("0");
                assert("0"@ =~= seq![digit_char(0)]);
            }
            "0"
        },
        1 => {
            proof {
                reveal_strlit("1");
                assert("1"@ =~= seq![digit_char(1)]);
            }
            "1"
        },
        2 => {
            proof {
                reveal_strlit("2");
                assert("2"@ =~= seq![digit_char(2)]);
            }
            "2"
        },
        3 => {
            proof {
                reveal_strlit("3");
                assert("3"@ =~= seq![digit_char(3)]);
            }
            "3"
        },
        4 => {
            proof {
                reveal_strlit("4");
                assert("4"@ =~= seq![digit_char(4)]);
            }
            "4"
        },
        5 => {
            proof {
                reveal_strlit("5");
                assert("5"@ =~= seq![digit_char(5)]);
            }
            "5"
        },
        6 => {
            proof {
                reveal_strlit("6");
                assert("6"@ =~= seq![digit_char(6)]);
            }
            "6"
        },
        7 => {
            proof {
                reveal_strlit("7");
                assert("7"@ =~= seq![digit_char(7)]);
            }
            "7"
        },
        8 => {
            proof {
                reveal_strlit("8");
                assert("8"@ =~= seq![digit_char(8)]);
            }
            "8"
        },
        _ => {
            proof {
                reveal_strlit("9");
                assert("9"@ =~= seq![digit_char(9)]);
            }
            "9"
        },
    }
}

/// Renders a nonnegative number in decimal.
pub fn dec_u64_string(n: u64) -> (r: String)
    ensures
        r@ == dec_digits(n as int),
    decreases n,
{
    if n < 10 {
        let r = digit_str(n).to_owned();
        r
    } else {
        let mut s = dec_u64_string(n / 10);
        s.append(digit_str(n % 10));
        proof {
            assert(s@ =~= dec_digits(n as int));
        }
        s
    }
}

/// Renders a signed number in decimal.
pub fn render_i64_string(n: i64) -> (r: String)
    ensures
        r@ == render_int(n as int),
{
    if n < 0 {
        proof {
            reveal_strlit("-");
        }
        let mut s = "-".to_owned();
        let m: u64 = if n == i64::MIN {
            9223372036854775808u64
        } else {
            (-n) as u64
        };
        s.append(dec_u64_string(m).as_str());
        proof {
            assert("-"@ =~= seq!['-']);
            assert(s@ =~= render_int(n as int));
        }
        s
    } else {
        dec_u64_string(n as u64)
    }
}

} // verus!
