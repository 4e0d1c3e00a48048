//! Parsing of companion compiler output: blocks of the shape
//! `error[<CODE>]: <message>` whose next line carries a `--> file:line:col`
//! location, yielding structured error codes keyed by line number.

use vstd::prelude::*;
use vstd::string::*;

use crate::text::{class_run, in_class, lemma_class_run_props, run_len, spec_lines, split_lines,
    CharClass};

verus! {

/// One diagnostic block found in the companion text.
pub struct EntryModel {
    /// The structured code, shaped like `E` followed by four digits.
    pub code: Seq<char>,
    /// The full message after `]: `.
    pub msg: Seq<char>,
    /// The source line number carried by the location suffix.
    pub line: int,
}

/// Exec record for one diagnostic block found in the companion text.
pub struct StderrResult {
    pub error_code: String,
    pub error_message_detail: String,
    pub line_number: usize,
}

impl View for StderrResult {
    type V = EntryModel;

    open spec fn view(&self) -> EntryModel {
        EntryModel {
            code: self.error_code@,
            msg: self.error_message_detail@,
            line: self.line_number as int,
        }
    }
}

impl DeepView for StderrResult {
    type V = EntryModel;

    open spec fn deep_view(&self) -> EntryModel {
        self.view()
    }
}

/// Whether `s` has the structured-code shape: `E` then exactly four digits.
pub open spec fn is_error_code_spec(s: Seq<char>) -> bool {
    s.len() == 5 && s[0] == 'E' && in_class(CharClass::Digit, s[1]) && in_class(
        CharClass::Digit,
        s[2],
    ) && in_class(CharClass::Digit, s[3]) && in_class(CharClass::Digit, s[4])
}

/// Checks whether the given string is a valid structured error code.
pub fn is_error_code(s: &str) -> (b: bool)
    ensures
        b == is_error_code_spec(s@),
{
    let n = s.unicode_len();
    if n != 5 {
        return false;
    }
    let c1 = s.get_char(1);
    let c2 = s.get_char(2);
    let c3 = s.get_char(3);
    let c4 = s.get_char(4);
    s.get_char(0) == 'E' && ('0' <= c1 && c1 <= '9') && ('0' <= c2 && c2 <= '9') && ('0' <= c3 && c3
        <= '9') && ('0' <= c4 && c4 <= '9')
}

/// Whether a diagnostic-block header starts at `j`: `error[`, a structured
/// code, `]: `, and at least one message character.
pub open spec fn header_at(l: Seq<char>, j: int) -> bool {
    &&& 0 <= j
    &&& j + 14 < l.len()
    &&& l[j] == 'e'
    &&& l[j + 1] == 'r'
    &&& l[j + 2] == 'r'
    &&& l[j + 3] == 'o'
    &&& l[j + 4] == 'r'
    &&& l[j + 5] == '['
    &&& is_error_code_spec(l.subrange(j + 6, j + 11))
    &&& l[j + 11] == ']'
    &&& l[j + 12] == ':'
    &&& l[j + 13] == ' '
}

pub open spec fn first_header_from(l: Seq<char>, j: int) -> Option<int>
    decreases l.len() - j when 0 <= j <= l.len()
{
    if j >= l.len() {
        None
    } else if header_at(l, j) {
        Some(j)
    } else {
        first_header_from(l, j + 1)
    }
}

proof fn lemma_first_header_exact(l: Seq<char>, j: int, q: int)
    requires
        0 <= j <= q <= l.len(),
        forall|r: int| j <= r < q ==> !header_at(l, r),
        q < l.len() ==> header_at(l, q),
    ensures
        q < l.len() ==> first_header_from(l, j) == Some(q),
        q == l.len() ==> first_header_from(l, j) is None,
    decreases q - j,
{
    if j < q {
        lemma_first_header_exact(l, j + 1, q);
    }
}

fn header_at_exec(l: &str, j: usize, n: usize) -> (b: bool)
    requires
        j <= n,
        n == l@.len(),
    ensures
        b == header_at(l@, j as int),
{
    if n - j < 15 {
        return false;
    }
    if l.get_char(j) != 'e' || l.get_char(j + 1) != 'r' || l.get_char(j + 2) != 'r' || l.get_char(
        j + 3,
    ) != 'o' || l.get_char(j + 4) != 'r' || l.get_char(j + 5) != '[' {
        return false;
    }
    let code = l.substring_char(j + 6, j + 11);
    proof {
        assert(code@ =~= l@.subrange(j + 6, j + 11));
    }
    if !is_error_code(code) {
        return false;
    }
    l.get_char(j + 11) == ']' && l.get_char(j + 12) == ':' && l.get_char(j + 13) == ' '
}

/// Finds the leftmost diagnostic-block header in a line.
fn find_header(l: &str, n: usize) -> (r: Option<usize>)
    requires
        n == l@.len(),
    ensures
        r matches Some(j) ==> first_header_from(l@, 0) == Some(j as int) && header_at(
            l@,
            j as int,
        ),
        r is None ==> first_header_from(l@, 0) is None,
{
    let mut j: usize = 0;
    loop
        invariant
            j <= n,
            n == l@.len(),
            forall|q: int| 0 <= q < j ==> !header_at(l@, q),
        ensures
            j == n,
            first_header_from(l@, 0) is None,
        decreases n - j,
    {
        if j == n {
            proof {
                lemma_first_header_exact(l@, 0, n as int);
            }
            break ;
        }
        if header_at_exec(l, j, n) {
            proof {
                lemma_first_header_exact(l@, 0, j as int);
            }
            return Some(j);
        }
        j = j + 1;
    }
    None
}

/// The numeric value of one decimal digit character.
pub open spec fn digit_val(c: char) -> int {
    if c == '0' {
        0
    } else if c == '1' {
        1
    } else if c == '2' {
        2
    } else if c == '3' {
        3
    } else if c == '4' {
        4
    } else if c == '5' {
        5
    } else if c == '6' {
        6
    } else if c == '7' {
        7
    } else if c == '8' {
        8
    } else {
        9
    }
}

/// The value of a digit string read in base ten.
pub open spec fn dec_value(s: Seq<char>) -> int
    decreases s.len(),
{
    if s.len() == 0 {
        0
    } else {
        10 * dec_value(s.drop_last()) + digit_val(s.last())
    }
}

pub proof fn lemma_dec_value_nonneg(s: Seq<char>)
    ensures
        dec_value(s) >= 0,
    decreases s.len(),
{
    if s.len() > 0 {
        lemma_dec_value_nonneg(s.drop_last());
    }
}

/// Reading more digits never shrinks the value.
pub proof fn lemma_dec_value_prefix(s: Seq<char>, m: int)
    requires
        0 <= m <= s.len(),
    ensures
        dec_value(s) >= dec_value(s.take(m)),
    decreases s.len() - m,
{
    if m < s.len() {
        lemma_dec_value_prefix(s, m + 1);
        let t = s.take(m + 1);
        assert(t.drop_last() =~= s.take(m));
        assert(t.last() == s[m]);
        lemma_dec_value_nonneg(s.take(m));
    } else {
        assert(s.take(m) =~= s);
    }
}

/// Whether a `:`, one or more digits, and another `:` sit at `r`.
pub open spec fn colon_num_at(l: Seq<char>, r: int) -> bool {
    let k = class_run(l, CharClass::Digit, r + 1);
    &&& 0 <= r < l.len()
    &&& l[r] == ':'
    &&& k >= 1
    &&& r + 1 + k < l.len()
    &&& l[r + 1 + k] == ':'
}

/// The rightmost `:<digits>:` at or left of `r` but not left of `lo`.
pub open spec fn rightmost_colon_from(l: Seq<char>, r: int, lo: int) -> Option<int>
    decreases r + 1 - lo when lo <= r + 1
{
    if r < lo {
        None
    } else if colon_num_at(l, r) {
        Some(r)
    } else {
        rightmost_colon_from(l, r - 1, lo)
    }
}

proof fn lemma_rightmost_colon_exact(l: Seq<char>, r: int, lo: int, q: int)
    requires
        lo <= q + 1,
        q <= r,
        forall|m: int| q < m <= r ==> !colon_num_at(l, m),
        q >= lo ==> colon_num_at(l, q),
    ensures
        q >= lo ==> rightmost_colon_from(l, r, lo) == Some(q),
        q < lo ==> rightmost_colon_from(l, r, lo) is None,
    decreases r - q,
{
    if r > q {
        lemma_rightmost_colon_exact(l, r - 1, lo, q);
    }
}

/// The line number encoded by a location line `  --> file:line:col`, before
/// any range check: blanks, `-->`, then the number in the rightmost
/// `:<digits>:` group.
pub open spec fn loc_spec(l: Seq<char>) -> Option<int> {
    let w = class_run(l, CharClass::Blank, 0);
    if w < 1 || w + 4 > l.len() {
        None
    } else if !(l[w] == '-' && l[w + 1] == '-' && l[w + 2] == '>') {
        None
    } else {
        match rightmost_colon_from(l, l.len() - 1, w + 4) {
            None => None,
            Some(r) => Some(
                dec_value(l.subrange(r + 1, r + 1 + class_run(l, CharClass::Digit, r + 1))),
            ),
        }
    }
}

/// `loc_spec` restricted to numbers a `usize` can carry.
pub open spec fn loc_capped(l: Seq<char>) -> Option<int> {
    match loc_spec(l) {
        Some(v) => if v <= usize::MAX as int {
            Some(v)
        } else {
            None
        },
        None => None,
    }
}

fn colon_num_at_exec(l: &str, r: usize, n: usize) -> (b: bool)
    requires
        r < n,
        n == l@.len(),
    ensures
        b == colon_num_at(l@, r as int),
{
    if l.get_char(r) != ':' {
        return false;
    }
    let k = run_len(l, CharClass::Digit, r + 1, n);
    proof {
        lemma_class_run_props(l@, CharClass::Digit, r + 1);
    }
    k >= 1 && k < n - r - 1 && l.get_char(r + 1 + k) == ':'
}

/// Parses the digit run at `d0` of length `k`, refusing values beyond
/// `usize`.
fn parse_digit_run(l: &str, d0: usize, k: usize, n: usize) -> (r: Option<usize>)
    requires
        d0 + k <= n,
        n == l@.len(),
    ensures
        r matches Some(v) ==> dec_value(l@.subrange(d0 as int, d0 + k)) == v as int,
        r is None ==> dec_value(l@.subrange(d0 as int, d0 + k)) > usize::MAX as int,
{
    let mut acc: u128 = 0;
    let mut idx: usize = 0;
    let ghost digits = l@.subrange(d0 as int, d0 + k);
    while idx < k
        invariant
            idx <= k,
            d0 + k <= n == l@.len(),
            digits == l@.subrange(d0 as int, d0 + k),
            acc as int == dec_value(digits.take(idx as int)),
            acc <= usize::MAX as u128,
        decreases k - idx,
    {
        let c = l.get_char(d0 + idx);
        let d: u128 = if c == '0' {
            0
        } else if c == '1' {
            1
        } else if c == '2' {
            2
        } else if c == '3' {
            3
        } else if c == '4' {
            4
        } else if c == '5' {
            5
        } else if c == '6' {
            6
        } else if c == '7' {
            7
        } else if c == '8' {
            8
        } else {
            9
        };
        proof {
            assert(d as int == digit_val(digits[idx as int]));
        }
        let next = acc * 10 + d;
        proof {
            let t = digits.take(idx + 1);
            assert(t.drop_last() =~= digits.take(idx as int));
            assert(t.last() == digits[idx as int]);
        }
        if next > (usize::MAX as u128) {
            proof {
                lemma_dec_value_prefix(digits, idx + 1);
                assert(digits.take(digits.len() as int) =~= digits);
            }
            return None;
        }
        acc = next;
        idx = idx + 1;
    }
    proof {
        assert(digits.take(digits.len() as int) =~= digits);
    }
    Some(acc as usize)
}

/// Reads the line number out of a location line, when one is present and
/// fits a `usize`.
fn loc_of(l: &str) -> (r: Option<usize>)
    ensures
        r matches Some(v) ==> loc_capped(l@) == Some(v as int),
        r is None ==> loc_capped(l@) is None,
{
    let n = l.unicode_len();
    let w = run_len(l, CharClass::Blank, 0, n);
    proof {
        lemma_class_run_props(l@, CharClass::Blank, 0);
    }
    if w < 1 || n - w < 4 {
        return None;
    }
    if !(l.get_char(w) == '-' && l.get_char(w + 1) == '-' && l.get_char(w + 2) == '>') {
        return None;
    }
    let lo = w + 4;
    let mut r: usize = n - 1;
    let mut found: bool = false;
    loop
        invariant_except_break
            !found,
        invariant
            lo - 1 <= r < n,
            n == l@.len(),
            lo == w + 4 <= n,
            forall|m: int| r < m < n ==> !colon_num_at(l@, m),
        ensures
            lo - 1 <= r < n,
            found ==> rightmost_colon_from(l@, n - 1, lo as int) == Some(r as int) && colon_num_at(
                l@,
                r as int,
            ),
            !found ==> rightmost_colon_from(l@, n - 1, lo as int) is None,
        decreases r,
    {
        if r >= lo && colon_num_at_exec(l, r, n) {
            proof {
                lemma_rightmost_colon_exact(l@, n - 1, lo as int, r as int);
            }
            found = true;
            break ;
        }
        if r <= lo {
            proof {
                lemma_rightmost_colon_exact(l@, n - 1, lo as int, lo - 1);
            }
            break ;
        }
        r = r - 1;
    }
    if !found {
        return None;
    }
    let k = run_len(l, CharClass::Digit, r + 1, n);
    proof {
        lemma_class_run_props(l@, CharClass::Digit, r + 1);
    }
    parse_digit_run(l, r + 1, k, n)
}

/// The diagnostic block formed by a header line and its location line, if
/// both have the required shape.
pub open spec fn entry_of_lines(l: Seq<char>, next: Seq<char>) -> Option<EntryModel> {
    match first_header_from(l, 0) {
        None => None,
        Some(j) => match loc_capped(next) {
            None => None,
            Some(v) => Some(
                EntryModel { code: l.subrange(j + 6, j + 11), msg: l.skip(j + 14), line: v },
            ),
        },
    }
}

/// Folds block recognition over consecutive line pairs from index `i` on.
pub open spec fn companion_rec(lines: Seq<Seq<char>>, i: int, acc: Seq<EntryModel>) -> Seq<
    EntryModel,
>
    decreases lines.len() - i when 0 <= i
{
    if i + 1 >= lines.len() {
        acc
    } else {
        companion_rec(
            lines,
            i + 1,
            match entry_of_lines(lines[i], lines[i + 1]) {
                Some(en) => acc.push(en),
                None => acc,
            },
        )
    }
}

/// Every diagnostic block of a companion text, in scan order.
pub open spec fn companion_spec(text: Seq<char>) -> Seq<EntryModel> {
    companion_rec(spec_lines(text), 0, Seq::empty())
}

proof fn lemma_first_header_from_props(l: Seq<char>, j: int)
    requires
        0 <= j <= l.len(),
    ensures
        first_header_from(l, j) matches Some(q) ==> header_at(l, q),
    decreases l.len() - j,
{
    if j < l.len() && !header_at(l, j) {
        lemma_first_header_from_props(l, j + 1);
    }
}

/// Every code a companion scan yields has the structured-code shape.
pub proof fn lemma_companion_rec_shape(lines: Seq<Seq<char>>, i: int, acc: Seq<EntryModel>)
    requires
        0 <= i,
        forall|k: int| 0 <= k < acc.len() ==> is_error_code_spec(#[trigger] acc[k].code),
    ensures
        forall|k: int|
            0 <= k < companion_rec(lines, i, acc).len() ==> is_error_code_spec(
                #[trigger] companion_rec(lines, i, acc)[k].code,
            ),
    decreases lines.len() - i,
{
    if i + 1 < lines.len() {
        match entry_of_lines(lines[i], lines[i + 1]) {
            Some(en) => {
                let l0 = lines[i];
                lemma_first_header_from_props(l0, 0);
                match first_header_from(l0, 0) {
                    Some(j) => {
                        assert(header_at(l0, j));
                        assert(is_error_code_spec(en.code));
                    },
                    None => {
                        assert(false);
                    },
                }
                assert forall|k: int| 0 <= k < acc.push(en).len() implies is_error_code_spec(
                    #[trigger] acc.push(en)[k].code,
                ) by {
                    if k < acc.len() {
                        assert(acc.push(en)[k] == acc[k]);
                    } else {
                        assert(acc.push(en)[k] == en);
                    }
                }
                lemma_companion_rec_shape(lines, i + 1, acc.push(en));
                assert(companion_rec(lines, i, acc) == companion_rec(lines, i + 1, acc.push(en)));
            },
            None => {
                lemma_companion_rec_shape(lines, i + 1, acc);
                assert(companion_rec(lines, i, acc) == companion_rec(lines, i + 1, acc));
            },
        }
    }
}

/// Scans the companion text for diagnostic blocks with structured codes.
#[verifier::loop_isolation(false)]
pub fn parse_error_code(stderr_content: &str) -> (r: Vec<StderrResult>)
    ensures
        r.deep_view() == companion_spec(stderr_content@),
{
    let lines = split_lines(stderr_content);
    let ghost gl = spec_lines(stderr_content@);
    let mut results: Vec<StderrResult> = Vec::new();
    let nlines = lines.len();
    proof {
        assert(results.deep_view() =~= Seq::<EntryModel>::empty());
    }
    if nlines < 2 {
        return results;
    }
    let mut i: usize = 0;
    while i < nlines - 1
        invariant
            i <= nlines - 1,
            nlines == lines.len(),
            lines.deep_view() == gl,
            nlines == gl.len(),
            nlines >= 2,
            companion_spec(stderr_content@) == companion_rec(gl, i as int, results.deep_view()),
        decreases nlines - i,
    {
        let line: &str = lines[i];
        let next: &str = lines[i + 1];
        proof {
            assert(line@ == gl[i as int]);
            assert(next@ == gl[i + 1]);
        }
        let n = line.unicode_len();
        let ghost old_model = results.deep_view();
        match find_header(line, n) {
            None => {},
            Some(j) => {
                match loc_of(next) {
                    None => {},
                    Some(v) => {
                        let code = line.substring_char(j + 6, j + 11);
                        let msg = line.substring_char(j + 14, n);
                        let entry = StderrResult {
                            error_code: code.to_owned(),
                            error_message_detail: msg.to_owned(),
                            line_number: v,
                        };
                        proof {
                            assert(entry@.code =~= gl[i as int].subrange(j + 6, j + 11));
                            assert(entry@.msg =~= gl[i as int].skip(j + 14));
                        }
                        results.push(entry);
                        proof {
                            assert(results.deep_view() =~= old_model.push(entry@));
                        }
                    },
                }
            },
        }
        i = i + 1;
    }
    results
}

} // verus!
