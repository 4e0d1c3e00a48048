//! Parsing of expected-diagnostic annotations out of source text, and the
//! records they resolve to.

use vstd::prelude::*;
use vstd::string::*;

use crate::sigil::{caret_count, first_sigil, has_conflict, is_follow, sigil_end, tilde_of,
    find_sigil, read_adjust, lemma_first_sigil_from_props, lemma_match_tilde_props};
use crate::text::{class_run, find_char_from, lemma_class_run_props, lemma_find_char_from,
    run_len, find_char, spec_trim, trim_str, spec_lines, split_lines, CharClass};
use crate::companion::{companion_spec, parse_error_code, EntryModel};

verus! {

/// The kinds of compiler message an annotation can expect.
#[derive(Clone, Copy, Debug, PartialEq, Eq, Structural)]
pub enum RustcErrorKind {
    Help,
    Error,
    Note,
    Suggestion,
    Warning,
}

/// Case-insensitive match of one ASCII character.
pub open spec fn ci(c: char, l: char, u: char) -> bool {
    c == l || c == u
}

/// The kind named by a word already stripped of any `:`-suffix, compared
/// case-insensitively.
pub open spec fn kind_of_part(p: Seq<char>) -> Option<RustcErrorKind> {
    if p.len() == 4 && ci(p[0], 'h', 'H') && ci(p[1], 'e', 'E') && ci(p[2], 'l', 'L') && ci(
        p[3],
        'p',
        'P',
    ) {
        Some(RustcErrorKind::Help)
    } else if p.len() == 5 && ci(p[0], 'e', 'E') && ci(p[1], 'r', 'R') && ci(p[2], 'r', 'R') && ci(
        p[3],
        'o',
        'O',
    ) && ci(p[4], 'r', 'R') {
        Some(RustcErrorKind::Error)
    } else if p.len() == 4 && ci(p[0], 'n', 'N') && ci(p[1], 'o', 'O') && ci(p[2], 't', 'T') && ci(
        p[3],
        'e',
        'E',
    ) {
        Some(RustcErrorKind::Note)
    } else if p.len() == 10 && ci(p[0], 's', 'S') && ci(p[1], 'u', 'U') && ci(p[2], 'g', 'G') && ci(
        p[3],
        'g',
        'G',
    ) && ci(p[4], 'e', 'E') && ci(p[5], 's', 'S') && ci(p[6], 't', 'T') && ci(p[7], 'i', 'I') && ci(
        p[8],
        'o',
        'O',
    ) && ci(p[9], 'n', 'N') {
        Some(RustcErrorKind::Suggestion)
    } else if p.len() == 4 && ci(p[0], 'w', 'W') && ci(p[1], 'a', 'A') && ci(p[2], 'r', 'R') && ci(
        p[3],
        'n',
        'N',
    ) {
        Some(RustcErrorKind::Warning)
    } else if p.len() == 7 && ci(p[0], 'w', 'W') && ci(p[1], 'a', 'A') && ci(p[2], 'r', 'R') && ci(
        p[3],
        'n',
        'N',
    ) && ci(p[4], 'i', 'I') && ci(p[5], 'n', 'N') && ci(p[6], 'g', 'G') {
        Some(RustcErrorKind::Warning)
    } else {
        None
    }
}

/// The kind named by a word, after splitting off a `:`-delimited suffix.
pub open spec fn kind_from_word(w: Seq<char>) -> Option<RustcErrorKind> {
    kind_of_part(w.take(find_char_from(w, ':', 0)))
}

fn kind_of_part_exec(p: &str) -> (r: Option<RustcErrorKind>)
    ensures
        r == kind_of_part(p@),
{
    let n = p.unicode_len();
    if n == 4 {
        let c0 = p.get_char(0);
        let c1 = p.get_char(1);
        let c2 = p.get_char(2);
        let c3 = p.get_char(3);
        if (c0 == 'h' || c0 == 'H') && (c1 == 'e' || c1 == 'E') && (c2 == 'l' || c2 == 'L') && (c3
            == 'p' || c3 == 'P') {
            return Some(RustcErrorKind::Help);
        }
        if (c0 == 'n' || c0 == 'N') && (c1 == 'o' || c1 == 'O') && (c2 == 't' || c2 == 'T') && (c3
            == 'e' || c3 == 'E') {
            return Some(RustcErrorKind::Note);
        }
        if (c0 == 'w' || c0 == 'W') && (c1 == 'a' || c1 == 'A') && (c2 == 'r' || c2 == 'R') && (c3
            == 'n' || c3 == 'N') {
            return Some(RustcErrorKind::Warning);
        }
        return None;
    }
    if n == 5 {
        let c0 = p.get_char(0);
        let c1 = p.get_char(1);
        let c2 = p.get_char(2);
        let c3 = p.get_char(3);
        let c4 = p.get_char(4);
        if (c0 == 'e' || c0 == 'E') && (c1 == 'r' || c1 == 'R') && (c2 == 'r' || c2 == 'R') && (c3
            == 'o' || c3 == 'O') && (c4 == 'r' || c4 == 'R') {
            return Some(RustcErrorKind::Error);
        }
        return None;
    }
    if n == 7 {
        let c0 = p.get_char(0);
        let c1 = p.get_char(1);
        let c2 = p.get_char(2);
        let c3 = p.get_char(3);
        let c4 = p.get_char(4);
        let c5 = p.get_char(5);
        let c6 = p.get_char(6);
        if (c0 == 'w' || c0 == 'W') && (c1 == 'a' || c1 == 'A') && (c2 == 'r' || c2 == 'R') && (c3
            == 'n' || c3 == 'N') && (c4 == 'i' || c4 == 'I') && (c5 == 'n' || c5 == 'N') && (c6
            == 'g' || c6 == 'G') {
            return Some(RustcErrorKind::Warning);
        }
        return None;
    }
    if n == 10 {
        let c0 = p.get_char(0);
        let c1 = p.get_char(1);
        let c2 = p.get_char(2);
        let c3 = p.get_char(3);
        let c4 = p.get_char(4);
        let c5 = p.get_char(5);
        let c6 = p.get_char(6);
        let c7 = p.get_char(7);
        let c8 = p.get_char(8);
        let c9 = p.get_char(9);
        if (c0 == 's' || c0 == 'S') && (c1 == 'u' || c1 == 'U') && (c2 == 'g' || c2 == 'G') && (c3
            == 'g' || c3 == 'G') && (c4 == 'e' || c4 == 'E') && (c5 == 's' || c5 == 'S') && (c6
            == 't' || c6 == 'T') && (c7 == 'i' || c7 == 'I') && (c8 == 'o' || c8 == 'O') && (c9
            == 'n' || c9 == 'N') {
            return Some(RustcErrorKind::Suggestion);
        }
        return None;
    }
    None
}

impl RustcErrorKind {
    /// Parses a message-kind word such as `error`, `WARN:` or `help`,
    /// case-insensitively and ignoring a `:`-delimited suffix.
    pub fn from_str(s: &str) -> (r: Result<RustcErrorKind, ()>)
        ensures
            kind_from_word(s@) matches Some(k) ==> r == Ok::<RustcErrorKind, ()>(k),
            kind_from_word(s@) is None ==> r == Err::<RustcErrorKind, ()>(()),
    {
        let n = s.unicode_len();
        let e = find_char(s, ':', 0, n);
        proof {
            lemma_find_char_from(s@, ':', 0);
        }
        let part0 = s.substring_char(0, e);
        proof {
            assert(part0@ =~= s@.take(find_char_from(s@, ':', 0)));
        }
        match kind_of_part_exec(part0) {
            Some(k) => Ok(k),
            None => Err(()),
        }
    }

    /// The compiletest-style name of the kind.
    pub fn display_text(&self) -> (r: &'static str)
        ensures
            r@ == kind_display_spec(*self),
    {
        match self {
            RustcErrorKind::Help => "help message",
            RustcErrorKind::Error => "error",
            RustcErrorKind::Note => "note",
            RustcErrorKind::Suggestion => "suggestion",
            RustcErrorKind::Warning => "warning",
        }
    }
}

pub open spec fn kind_display_spec(k: RustcErrorKind) -> Seq<char> {
    match k {
        RustcErrorKind::Help => "help message"@,
        RustcErrorKind::Error => "error"@,
        RustcErrorKind::Note => "note"@,
        RustcErrorKind::Suggestion => "suggestion"@,
        RustcErrorKind::Warning => "warning"@,
    }
}

/// Splits the text after the sigil into a recognized kind and the trimmed
/// remaining message; an unrecognized leading word leaves the message whole.
pub open spec fn classify_spec(raw: Seq<char>) -> (Option<RustcErrorKind>, Seq<char>) {
    let a = class_run(raw, CharClass::Blank, 0);
    if a == raw.len() {
        (None::<RustcErrorKind>, spec_trim(raw))
    } else {
        let b = a + class_run(raw, CharClass::NonBlank, a);
        match kind_from_word(raw.subrange(a, b)) {
            Some(k) => (Some(k), spec_trim(raw.skip(b))),
            None => (None::<RustcErrorKind>, spec_trim(raw)),
        }
    }
}

/// Splits annotation text into a recognized kind and the message that
/// remains once the kind word is stripped and the rest trimmed.
pub fn classify(raw: &str) -> (r: (Option<RustcErrorKind>, String))
    ensures
        r.0 == classify_spec(raw@).0,
        r.1@ == classify_spec(raw@).1,
{
    let n = raw.unicode_len();
    let a = run_len(raw, CharClass::Blank, 0, n);
    proof {
        lemma_class_run_props(raw@, CharClass::Blank, 0);
    }
    if a == n {
        return (None, trim_str(raw).to_owned());
    }
    let nb = run_len(raw, CharClass::NonBlank, a, n);
    proof {
        lemma_class_run_props(raw@, CharClass::NonBlank, a as int);
    }
    let b = a + nb;
    let w = raw.substring_char(a, b);
    let wlen = b - a;
    let e = find_char(w, ':', 0, wlen);
    proof {
        lemma_find_char_from(w@, ':', 0);
    }
    let part0 = w.substring_char(0, e);
    proof {
        assert(part0@ =~= w@.take(find_char_from(w@, ':', 0)));
    }
    let kind = kind_of_part_exec(part0);
    if kind.is_some() {
        let rest = raw.substring_char(b, n);
        proof {
            assert(rest@ =~= raw@.skip(b as int));
        }
        (kind, trim_str(rest).to_owned())
    } else {
        (kind, trim_str(raw).to_owned())
    }
}

/// How an annotation placed its expected diagnostic relative to its own line.
#[derive(Debug, PartialEq, Eq, Structural)]
pub enum WhichLine {
    /// The diagnostic is expected on the annotation's own line.
    ThisLine,
    /// The diagnostic shares the target of the most recent non-follow
    /// annotation, whose line number is carried here.
    FollowPrevious(usize),
    /// The diagnostic is expected the carried number of lines above.
    AdjustBackward(usize),
}

/// Mathematical counterpart of `WhichLine`.
pub enum WhichModel {
    ThisLine,
    FollowPrevious(int),
    AdjustBackward(int),
}

impl View for WhichLine {
    type V = WhichModel;

    open spec fn view(&self) -> WhichModel {
        match self {
            WhichLine::ThisLine => WhichModel::ThisLine,
            WhichLine::FollowPrevious(n) => WhichModel::FollowPrevious(*n as int),
            WhichLine::AdjustBackward(n) => WhichModel::AdjustBackward(*n as int),
        }
    }
}

/// A structural fault in the annotation source that aborts the conversion.
#[derive(Clone, Copy, Debug, PartialEq, Eq, Structural)]
pub enum FatalError {
    /// A continuation marker appeared before any non-follow annotation.
    FollowWithoutAnchor,
    /// A continuation marker and up-adjust markers were mixed on one sigil.
    ConflictingMarkers,
    /// An up-adjust count that would resolve to a non-positive line.
    AdjustOutOfRange,
    /// An annotation carried no word at all after its sigil.
    EmptyAnnotation,
}

/// One expected diagnostic, resolved to an absolute source line.
#[derive(Debug)]
pub struct Error {
    /// The 1-based line number the diagnostic describes.
    pub line_num: usize,
    /// Signed distance from the annotation's own line to `line_num`:
    /// zero for the same line, negative when the target lies above.
    pub relative_line_num: i32,
    /// The expected kind, when the annotation named a recognized one.
    pub kind: Option<RustcErrorKind>,
    /// The free-text message, trimmed, with a recognized kind word removed.
    pub msg: String,
    /// The structured code recovered from companion output, when matched.
    pub error_code: Option<String>,
}

/// Mathematical counterpart of `Error`.
pub struct ErrorModel {
    pub line_num: int,
    pub relative_line_num: int,
    pub kind: Option<RustcErrorKind>,
    pub msg: Seq<char>,
    pub error_code: Option<Seq<char>>,
}

impl View for Error {
    type V = ErrorModel;

    open spec fn view(&self) -> ErrorModel {
        ErrorModel {
            line_num: self.line_num as int,
            relative_line_num: self.relative_line_num as int,
            kind: self.kind,
            msg: self.msg@,
            error_code: match self.error_code {
                Some(ref c) => Some(c@),
                None => None,
            },
        }
    }
}

/// The directive keyword standing for an expected kind; an absent kind is
/// rendered as an expected error.
pub open spec fn directive_tag(kind: Option<RustcErrorKind>) -> Seq<char> {
    match kind {
        Some(RustcErrorKind::Help) => "help"@,
        Some(RustcErrorKind::Error) => "dg-error"@,
        Some(RustcErrorKind::Note) => "dg-note"@,
        Some(RustcErrorKind::Suggestion) => "suggestion"@,
        Some(RustcErrorKind::Warning) => "dg-warning"@,
        None => "dg-error"@,
    }
}

/// A structured code rendered dot-delimited; absent or empty codes render
/// as nothing.
pub open spec fn render_code(code: Option<Seq<char>>) -> Seq<char> {
    match code {
        None => Seq::empty(),
        Some(c) => if c.len() == 0 {
            Seq::empty()
        } else {
            "."@ + c + "."@
        },
    }
}

/// The offset suffix: empty on the same line, else the signed offset after
/// a dot, followed by one space.
pub open spec fn render_rel(rel: int) -> Seq<char> {
    if rel == 0 {
        Seq::empty()
    } else {
        "."@ + crate::text::render_int(rel) + " "@
    }
}

/// The whole target-format directive for one record.
pub open spec fn render_directive(e: ErrorModel) -> Seq<char> {
    "// { "@ + directive_tag(e.kind) + " \""@ + render_code(e.error_code) + "\" \"\" { target *-*-* } "@
        + render_rel(e.relative_line_num) + "}"@
}

impl Error {
    /// Renders this record as the target-format directive text.
    pub fn to_directive(&self) -> (r: String)
        ensures
            r@ == render_directive(self@),
    {
        let mut s = "// { ".to_owned();
        let tag: &str = match self.kind {
            Some(RustcErrorKind::Help) => "help",
            Some(RustcErrorKind::Error) => "dg-error",
            Some(RustcErrorKind::Note) => "dg-note",
            Some(RustcErrorKind::Suggestion) => "suggestion",
            Some(RustcErrorKind::Warning) => "dg-warning",
            None => "dg-error",
        };
        s.append(tag);
        s.append(" \"");
        match &self.error_code {
            None => {},
            Some(c) => {
                if !c.as_str().is_empty() {
                    s.append(".");
                    s.append(c.as_str());
                    s.append(".");
                }
            },
        }
        s.append("\" \"\" { target *-*-* } ");
        if self.relative_line_num != 0 {
            s.append(".");
            let num = crate::text::render_i64_string(self.relative_line_num as i64);
            s.append(num.as_str());
            s.append(" ");
        }
        s.append("}");
        proof {
            assert(s@ =~= render_directive(self@));
        }
        s
    }
}

/// Outcome of examining one line for an annotation.
pub enum ParseOutcome {
    /// The line holds no annotation sigil.
    NoAnnotation,
    /// The line holds a malformed annotation.
    Fatal(FatalError),
    /// The line holds a well-formed annotation.
    Parsed(WhichModel, ErrorModel),
}

/// What examining `line` (1-based number `line_num`, last non-follow anchor
/// `last`) yields.
///
/// An up-adjust count equal to or beyond the line number would resolve to
/// a non-positive target line and is fatal: every target is 1-based.
pub open spec fn parse_expected_spec(last: Option<int>, line_num: int, line: Seq<char>) -> ParseOutcome {
    match first_sigil(line) {
        None => ParseOutcome::NoAnnotation,
        Some(p) => {
            let t = tilde_of(line, p);
            if has_conflict(line, t) {
                ParseOutcome::Fatal(FatalError::ConflictingMarkers)
            } else {
                let rest = line.skip(sigil_end(line, t));
                if class_run(rest, CharClass::Blank, 0) == rest.len() {
                    ParseOutcome::Fatal(FatalError::EmptyAnnotation)
                } else {
                    let kind = classify_spec(rest).0;
                    let msg = classify_spec(rest).1;
                    if is_follow(line, t) {
                        match last {
                            None => ParseOutcome::Fatal(FatalError::FollowWithoutAnchor),
                            Some(anchor) => ParseOutcome::Parsed(
                                WhichModel::FollowPrevious(anchor),
                                ErrorModel {
                                    line_num: anchor,
                                    relative_line_num: anchor - line_num,
                                    kind,
                                    msg,
                                    error_code: None,
                                },
                            ),
                        }
                    } else {
                        let adjusts = caret_count(line, t);
                        if adjusts > 0 {
                            if adjusts >= line_num {
                                ParseOutcome::Fatal(FatalError::AdjustOutOfRange)
                            } else {
                                ParseOutcome::Parsed(
                                    WhichModel::AdjustBackward(adjusts),
                                    ErrorModel {
                                        line_num: line_num - adjusts,
                                        relative_line_num: -adjusts,
                                        kind,
                                        msg,
                                        error_code: None,
                                    },
                                )
                            }
                        } else {
                            ParseOutcome::Parsed(
                                WhichModel::ThisLine,
                                ErrorModel {
                                    line_num: line_num,
                                    relative_line_num: 0,
                                    kind,
                                    msg,
                                    error_code: None,
                                },
                            )
                        }
                    }
                }
            }
        },
    }
}

pub open spec fn opt_model(o: Option<usize>) -> Option<int> {
    match o {
        Some(a) => Some(a as int),
        None => None,
    }
}

pub open spec fn outcome_of(r: Result<Option<(WhichLine, Error)>, FatalError>) -> ParseOutcome {
    match r {
        Ok(None) => ParseOutcome::NoAnnotation,
        Ok(Some(we)) => ParseOutcome::Parsed(we.0@, we.1@),
        Err(f) => ParseOutcome::Fatal(f),
    }
}

/// Examines one source line for an expected-diagnostic annotation.
pub fn parse_expected(last_nonfollow_error: Option<usize>, line_num: usize, line: &str) -> (r:
    Result<Option<(WhichLine, Error)>, FatalError>)
    requires
        1 <= line_num <= 0x7fff_ffff,
        last_nonfollow_error matches Some(a) ==> 1 <= a < line_num,
    ensures
        outcome_of(r) == parse_expected_spec(
            opt_model(last_nonfollow_error),
            line_num as int,
            line@,
        ),
{
    let n = line.unicode_len();
    let sig = find_sigil(line);
    let (p, t) = match sig {
        None => {
            return Ok(None);
        },
        Some(pt) => pt,
    };
    proof {
        lemma_first_sigil_from_props(line@, 0);
        lemma_match_tilde_props(line@, p as int, t as int);
    }
    let (follow, adjusts, end) = read_adjust(line, t, n);
    if follow && end < n && line.get_char(end) == '^' {
        return Err(FatalError::ConflictingMarkers);
    }
    if !follow && adjusts > 0 && end < n && line.get_char(end) == '|' {
        return Err(FatalError::ConflictingMarkers);
    }
    let rest = line.substring_char(end, n);
    proof {
        assert(rest@ =~= line@.skip(sigil_end(line@, t as int)));
    }
    let rlen = n - end;
    let a = run_len(rest, CharClass::Blank, 0, rlen);
    proof {
        lemma_class_run_props(rest@, CharClass::Blank, 0);
    }
    if a == rlen {
        return Err(FatalError::EmptyAnnotation);
    }
    let (kind, msg) = classify(rest);
    if follow {
        match last_nonfollow_error {
            None => Err(FatalError::FollowWithoutAnchor),
            Some(anchor) => {
                let diff: i64 = anchor as i64 - line_num as i64;
                let relative: i32 = diff as i32;
                Ok(
                    Some(
                        (
                            WhichLine::FollowPrevious(anchor),
                            Error {
                                line_num: anchor,
                                relative_line_num: relative,
                                kind,
                                msg,
                                error_code: None,
                            },
                        ),
                    ),
                )
            },
        }
    } else if adjusts > 0 {
        if adjusts >= line_num {
            Err(FatalError::AdjustOutOfRange)
        } else {
            let rel64: i64 = -(adjusts as i64);
            let relative: i32 = rel64 as i32;
            Ok(
                Some(
                    (
                        WhichLine::AdjustBackward(adjusts),
                        Error {
                            line_num: line_num - adjusts,
                            relative_line_num: relative,
                            kind,
                            msg,
                            error_code: None,
                        },
                    ),
                ),
            )
        }
    } else {
        Ok(
            Some(
                (
                    WhichLine::ThisLine,
                    Error { line_num, relative_line_num: 0, kind, msg, error_code: None },
                ),
            ),
        )
    }
}

/// The anchor available to the next line: a non-follow annotation on line
/// `line_num` becomes the new anchor, a follow annotation keeps the old one.
pub open spec fn anchor_update(last: Option<int>, line_num: int, w: WhichModel) -> Option<int> {
    match w {
        WhichModel::FollowPrevious(_) => last,
        _ => Some(line_num),
    }
}

/// Folds annotation extraction over the lines from index `i` on.
pub open spec fn extract_rec(
    lines: Seq<Seq<char>>,
    i: int,
    last: Option<int>,
    acc: Seq<ErrorModel>,
) -> Result<Seq<ErrorModel>, FatalError>
    decreases lines.len() - i when 0 <= i <= lines.len()
{
    if i >= lines.len() {
        Ok(acc)
    } else {
        match parse_expected_spec(last, i + 1, lines[i]) {
            ParseOutcome::NoAnnotation => extract_rec(lines, i + 1, last, acc),
            ParseOutcome::Fatal(f) => Err(f),
            ParseOutcome::Parsed(w, e) => extract_rec(
                lines,
                i + 1,
                anchor_update(last, i + 1, w),
                acc.push(e),
            ),
        }
    }
}

/// The records extracted from a whole source text.
pub open spec fn extract_spec(text: Seq<char>) -> Result<Seq<ErrorModel>, FatalError> {
    extract_rec(spec_lines(text), 0, None, Seq::empty())
}

/// The code assigned after scanning companion entries from index `j` on,
/// starting from `cur`; every later match overwrites, so the last one wins.
pub open spec fn resolve_code_from(
    e: ErrorModel,
    entries: Seq<EntryModel>,
    j: int,
    cur: Option<Seq<char>>,
) -> Option<Seq<char>>
    decreases entries.len() - j when 0 <= j <= entries.len()
{
    if j >= entries.len() {
        cur
    } else {
        resolve_code_from(
            e,
            entries,
            j + 1,
            if entries[j].line == e.line_num || entries[j].msg == e.msg {
                Some(entries[j].code)
            } else {
                cur
            },
        )
    }
}

/// A record with its code cross-referenced against the companion entries.
pub open spec fn resolve_one(e: ErrorModel, entries: Seq<EntryModel>) -> ErrorModel {
    ErrorModel { error_code: resolve_code_from(e, entries, 0, e.error_code), ..e }
}

pub open spec fn resolve_all(errs: Seq<ErrorModel>, entries: Seq<EntryModel>) -> Seq<ErrorModel> {
    errs.map_values(|e: ErrorModel| resolve_one(e, entries))
}

pub open spec fn opt_str_view(o: Option<&str>) -> Option<Seq<char>> {
    match o {
        Some(s) => Some(s@),
        None => None,
    }
}

pub open spec fn errors_model(v: Seq<Error>) -> Seq<ErrorModel> {
    v.map_values(|e: Error| e@)
}

pub open spec fn load_result_model(r: Result<Vec<Error>, FatalError>) -> Result<
    Seq<ErrorModel>,
    FatalError,
> {
    match r {
        Ok(v) => Ok(errors_model(v@)),
        Err(f) => Err(f),
    }
}

/// The records of a source text, cross-referenced against optional
/// companion output.
pub open spec fn load_error_spec(text: Seq<char>, stderr: Option<Seq<char>>) -> Result<
    Seq<ErrorModel>,
    FatalError,
> {
    match extract_spec(text) {
        Err(f) => Err(f),
        Ok(errs) => match stderr {
            None => Ok(errs),
            Some(st) => Ok(resolve_all(errs, companion_spec(st))),
        },
    }
}

/// The shape every record of a successful load has: the reconstructed
/// annotation line lies within the file, the target does not lie below it,
/// and any code has the structured shape.
pub open spec fn record_wf(e: ErrorModel, nlines: int) -> bool {
    &&& match e.error_code {
        Some(c) => crate::companion::is_error_code_spec(c),
        None => true,
    }
    &&& 1 <= e.line_num - e.relative_line_num <= nlines
    &&& 1 <= e.line_num <= nlines
    &&& -nlines <= e.relative_line_num <= 0
}

proof fn lemma_parse_parsed_props(last: Option<int>, ln: int, line: Seq<char>, w: WhichModel, e: ErrorModel)
    requires
        parse_expected_spec(last, ln, line) == ParseOutcome::Parsed(w, e),
        1 <= ln,
        last matches Some(a) ==> 1 <= a < ln,
    ensures
        e.line_num - e.relative_line_num == ln,
        1 <= e.line_num <= ln,
        -ln <= e.relative_line_num <= 0,
        e.error_code is None,
        first_sigil(line) is Some,
        w is FollowPrevious ==> anchor_update(last, ln, w) == last,
        !(w is FollowPrevious) ==> anchor_update(last, ln, w) == Some(ln),
{
}

/// A successful extraction yields only well-formed records, reconstructs
/// each annotation to a line that holds a sigil, and covers every line
/// that holds one.
proof fn lemma_extract_rec_props(
    lines: Seq<Seq<char>>,
    i: int,
    last: Option<int>,
    acc: Seq<ErrorModel>,
    errs: Seq<ErrorModel>,
)
    requires
        0 <= i <= lines.len(),
        last matches Some(a) ==> 1 <= a <= i,
        extract_rec(lines, i, last, acc) == Ok::<Seq<ErrorModel>, FatalError>(errs),
    ensures
        acc.len() <= errs.len(),
        forall|k: int| 0 <= k < acc.len() ==> errs[k] == acc[k],
        forall|k: int|
            acc.len() <= k < errs.len() ==> record_wf(#[trigger] errs[k], lines.len() as int)
                && errs[k].error_code is None && first_sigil(
                lines[errs[k].line_num - errs[k].relative_line_num - 1],
            ) is Some,
        forall|m: int|
            i <= m < lines.len() && first_sigil(#[trigger] lines[m]) is Some ==> exists|k: int|
                0 <= k < errs.len() && errs[k].line_num - errs[k].relative_line_num == m + 1,
    decreases lines.len() - i,
{
    if i >= lines.len() {
    } else {
        match parse_expected_spec(last, i + 1, lines[i]) {
            ParseOutcome::NoAnnotation => {
                assert(first_sigil(lines[i]) is None);
                lemma_extract_rec_props(lines, i + 1, last, acc, errs);
            },
            ParseOutcome::Fatal(f) => {
                assert(false);
            },
            ParseOutcome::Parsed(w, e) => {
                lemma_parse_parsed_props(last, i + 1, lines[i], w, e);
                let last2 = anchor_update(last, i + 1, w);
                lemma_extract_rec_props(lines, i + 1, last2, acc.push(e), errs);
                assert(errs[acc.len() as int] == acc.push(e)[acc.len() as int]);
                assert(errs[acc.len() as int] == e);
                assert forall|k: int|
                    acc.len() <= k < errs.len() implies record_wf(
                    #[trigger] errs[k],
                    lines.len() as int,
                ) && errs[k].error_code is None && first_sigil(
                    lines[errs[k].line_num - errs[k].relative_line_num - 1],
                ) is Some by {
                    if k == acc.len() {
                        assert(errs[k] == e);
                        assert(e.line_num - e.relative_line_num - 1 == i);
                    }
                }
                assert forall|m: int|
                    i <= m < lines.len() && first_sigil(#[trigger] lines[m]) is Some implies exists|
                    k: int,
                |
                    0 <= k < errs.len() && errs[k].line_num - errs[k].relative_line_num == m
                        + 1 by {
                    if m == i {
                        assert(errs[acc.len() as int].line_num - errs[
                            acc.len() as int
                        ].relative_line_num == m + 1);
                    }
                }
            },
        }
    }
}

proof fn lemma_resolve_code_shape(
    e: ErrorModel,
    entries: Seq<EntryModel>,
    j: int,
    cur: Option<Seq<char>>,
)
    requires
        0 <= j <= entries.len(),
        match cur {
            Some(c) => crate::companion::is_error_code_spec(c),
            None => true,
        },
        forall|m: int|
            0 <= m < entries.len() ==> crate::companion::is_error_code_spec(
                #[trigger] entries[m].code,
            ),
    ensures
        match resolve_code_from(e, entries, j, cur) {
            Some(c) => crate::companion::is_error_code_spec(c),
            None => true,
        },
    decreases entries.len() - j,
{
    if j < entries.len() {
        let cur2 = if entries[j].line == e.line_num || entries[j].msg == e.msg {
            Some(entries[j].code)
        } else {
            cur
        };
        lemma_resolve_code_shape(e, entries, j + 1, cur2);
    }
}

/// Every record of a successful load is well formed, reconstructs to a
/// line holding a sigil, and every line holding a sigil is covered by some
/// record.
pub proof fn lemma_load_props(text: Seq<char>, stderr: Option<Seq<char>>, errs: Seq<ErrorModel>)
    requires
        load_error_spec(text, stderr) == Ok::<Seq<ErrorModel>, FatalError>(errs),
    ensures
        forall|k: int|
            0 <= k < errs.len() ==> record_wf(#[trigger] errs[k], spec_lines(text).len() as int)
                && first_sigil(
                spec_lines(text)[errs[k].line_num - errs[k].relative_line_num - 1],
            ) is Some,
        forall|m: int|
            0 <= m < spec_lines(text).len() && first_sigil(#[trigger] spec_lines(text)[m]) is Some
                ==> exists|k: int|
                0 <= k < errs.len() && errs[k].line_num - errs[k].relative_line_num == m + 1,
{
    let lines = spec_lines(text);
    match extract_spec(text) {
        Err(f) => {
            assert(false);
        },
        Ok(base) => {
            lemma_extract_rec_props(lines, 0, None, Seq::empty(), base);
            match stderr {
                None => {
                    assert(errs == base);
                },
                Some(st) => {
                    let ents = companion_spec(st);
                    crate::companion::lemma_companion_rec_shape(
                        spec_lines(st),
                        0,
                        Seq::empty(),
                    );
                    assert(errs == resolve_all(base, ents));
                    assert forall|k: int| 0 <= k < errs.len() implies record_wf(
                        #[trigger] errs[k],
                        lines.len() as int,
                    ) && first_sigil(
                        lines[errs[k].line_num - errs[k].relative_line_num - 1],
                    ) is Some by {
                        assert(errs[k] == resolve_one(base[k], ents));
                        lemma_resolve_code_shape(base[k], ents, 0, base[k].error_code);
                    }
                    assert forall|m: int|
                        0 <= m < lines.len() && first_sigil(#[trigger] lines[m]) is Some implies
                        exists|k: int|
                        0 <= k < errs.len() && errs[k].line_num - errs[k].relative_line_num == m
                            + 1 by {
                        let k0 = choose|k: int|
                            0 <= k < base.len() && base[k].line_num - base[k].relative_line_num
                                == m + 1;
                        assert(errs[k0] == resolve_one(base[k0], ents));
                        assert(errs[k0].line_num - errs[k0].relative_line_num == m + 1);
                    }
                },
            }
        },
    }
}

/// Extraction over lines that hold no sigil finds nothing.
pub proof fn lemma_extract_no_sigils(
    lines: Seq<Seq<char>>,
    i: int,
    last: Option<int>,
    acc: Seq<ErrorModel>,
)
    requires
        0 <= i <= lines.len(),
        forall|m: int| i <= m < lines.len() ==> first_sigil(#[trigger] lines[m]) is None,
    ensures
        extract_rec(lines, i, last, acc) == Ok::<Seq<ErrorModel>, FatalError>(acc),
    decreases lines.len() - i,
{
    if i < lines.len() {
        lemma_extract_no_sigils(lines, i + 1, last, acc);
    }
}

/// No character of a rendered directive is a newline or a tilde, so a
/// directive never reads back as an annotation.
pub proof fn lemma_render_directive_avoids(e: ErrorModel)
    requires
        match e.error_code {
            Some(c) => crate::companion::is_error_code_spec(c),
            None => true,
        },
    ensures
        crate::text::avoids(render_directive(e), '\n'),
        crate::text::avoids(render_directive(e), '~'),
{
    reveal_strlit("// { ");
    reveal_strlit("help");
    reveal_strlit("dg-error");
    reveal_strlit("dg-note");
    reveal_strlit("suggestion");
    reveal_strlit("dg-warning");
    reveal_strlit(" \"");
    reveal_strlit(".");
    reveal_strlit("\" \"\" { target *-*-* } ");
    reveal_strlit(" ");
    reveal_strlit("-");
    reveal_strlit("}");
    let bad = seq!['\n', '~'];
    assert forall|c: char| bad.contains(c) implies crate::text::avoids(render_directive(e), c) by {
        lemma_render_pieces_avoid(e, c);
    }
    assert(bad.contains('\n')) by {
        assert(bad[0] == '\n');
    }
    assert(bad.contains('~')) by {
        assert(bad[1] == '~');
    }
}

proof fn lemma_render_pieces_avoid(e: ErrorModel, c: char)
    requires
        c == '\n' || c == '~',
        match e.error_code {
            Some(code) => crate::companion::is_error_code_spec(code),
            None => true,
        },
    ensures
        crate::text::avoids(render_directive(e), c),
{
    reveal_strlit("// { ");
    reveal_strlit("help");
    reveal_strlit("dg-error");
    reveal_strlit("dg-note");
    reveal_strlit("suggestion");
    reveal_strlit("dg-warning");
    reveal_strlit(" \"");
    reveal_strlit(".");
    reveal_strlit("\" \"\" { target *-*-* } ");
    reveal_strlit(" ");
    reveal_strlit("-");
    reveal_strlit("}");
    let tag = directive_tag(e.kind);
    assert(crate::text::avoids(tag, c));
    let codes = render_code(e.error_code);
    assert(crate::text::avoids(codes, c)) by {
        match e.error_code {
            None => {},
            Some(code) => {
                if code.len() > 0 {
                    assert(crate::text::avoids(code, c)) by {
                        assert forall|k: int| 0 <= k < code.len() implies code[k] != c by {
                            if k >= 1 {
                                assert(crate::text::in_class(
                                    crate::text::CharClass::Digit,
                                    code[k],
                                ));
                            }
                        }
                    }
                    crate::text::lemma_avoids_concat("."@, code, c);
                    crate::text::lemma_avoids_concat("."@ + code, "."@, c);
                }
            },
        }
    }
    let rels = render_rel(e.relative_line_num);
    assert(crate::text::avoids(rels, c)) by {
        if e.relative_line_num != 0 {
            let num = crate::text::render_int(e.relative_line_num);
            assert(crate::text::avoids(num, c)) by {
                if e.relative_line_num < 0 {
                    crate::text::lemma_dec_digits_chars(-e.relative_line_num);
                    assert(crate::text::avoids(
                        crate::text::dec_digits(-e.relative_line_num),
                        c,
                    ));
                    crate::text::lemma_avoids_concat(
                        seq!['-'],
                        crate::text::dec_digits(-e.relative_line_num),
                        c,
                    );
                } else {
                    crate::text::lemma_dec_digits_chars(e.relative_line_num);
                }
            }
            crate::text::lemma_avoids_concat("."@, num, c);
            crate::text::lemma_avoids_concat("."@ + num, " "@, c);
        }
    }
    crate::text::lemma_avoids_concat("// { "@, tag, c);
    crate::text::lemma_avoids_concat("// { "@ + tag, " \""@, c);
    crate::text::lemma_avoids_concat("// { "@ + tag + " \""@, codes, c);
    crate::text::lemma_avoids_concat("// { "@ + tag + " \""@ + codes, "\" \"\" { target *-*-* } "@, c);
    crate::text::lemma_avoids_concat(
        "// { "@ + tag + " \""@ + codes + "\" \"\" { target *-*-* } "@,
        rels,
        c,
    );
    crate::text::lemma_avoids_concat(
        "// { "@ + tag + " \""@ + codes + "\" \"\" { target *-*-* } "@ + rels,
        "}"@,
        c,
    );
}

/// Extracts every annotation record from the source text, in source order,
/// and fills in error codes from the companion output when one is given.
#[verifier::loop_isolation(false)]
pub fn load_error(text_file: &str, stderr_file: Option<&str>) -> (r: Result<Vec<Error>, FatalError>)
    requires
        spec_lines(text_file@).len() <= 0x7fff_ffff,
    ensures
        load_result_model(r) == load_error_spec(text_file@, opt_str_view(stderr_file)),
{
    let lines = split_lines(text_file);
    let nlines = lines.len();
    let ghost gl = spec_lines(text_file@);
    let mut errors: Vec<Error> = Vec::new();
    let mut last_unfollow_error: Option<usize> = None;
    proof {
        assert(errors_model(errors@) =~= Seq::<ErrorModel>::empty());
    }
    let mut i: usize = 0;
    while i < nlines
        invariant
            i <= nlines == gl.len() <= 0x7fff_ffff,
            lines.deep_view() == gl,
            nlines == lines.len(),
            last_unfollow_error matches Some(a) ==> 1 <= a <= i,
            extract_rec(gl, 0, None, Seq::empty()) == extract_rec(
                gl,
                i as int,
                opt_model(last_unfollow_error),
                errors_model(errors@),
            ),
        decreases nlines - i,
    {
        let line: &str = lines[i];
        proof {
            assert(line@ == gl[i as int]);
        }
        match parse_expected(last_unfollow_error, i + 1, line) {
            Err(f) => {
                proof {
                    assert(extract_rec(
                        gl,
                        i as int,
                        opt_model(last_unfollow_error),
                        errors_model(errors@),
                    ) == Err::<Seq<ErrorModel>, FatalError>(f));
                }
                return Err(f);
            },
            Ok(None) => {},
            Ok(Some((which, error))) => {
                let ghost old_model = errors_model(errors@);
                let ghost wm = which@;
                let ghost em = error@;
                match which {
                    WhichLine::FollowPrevious(_) => {},
                    _ => {
                        last_unfollow_error = Some(i + 1);
                    },
                }
                errors.push(error);
                proof {
                    assert(errors_model(errors@) =~= old_model.push(em));
                }
            },
        }
        i = i + 1;
    }
    match stderr_file {
        None => Ok(errors),
        Some(stderr_text) => {
            let entries = parse_error_code(stderr_text);
            let ghost ents = companion_spec(stderr_text@);
            let mut resolved: Vec<Error> = Vec::new();
            let mut k: usize = 0;
            while k < errors.len()
                invariant
                    k <= errors.len(),
                    entries.deep_view() == ents,
                    errors_model(resolved@) =~= resolve_all(
                        errors_model(errors@).take(k as int),
                        ents,
                    ),
                decreases errors.len() - k,
            {
                let mut code: Option<String> = match &errors[k].error_code {
                    Some(c) => Some(c.clone()),
                    None => None,
                };
                let ghost e = errors@[k as int]@;
                let mut j: usize = 0;
                while j < entries.len()
                    invariant
                        j <= entries.len(),
                        k < errors.len(),
                        e == errors@[k as int]@,
                        entries.deep_view() == ents,
                        resolve_code_from(e, ents, 0, e.error_code) == resolve_code_from(
                            e,
                            ents,
                            j as int,
                            match code {
                                Some(ref c) => Some(c@),
                                None => None::<Seq<char>>,
                            },
                        ),
                    decreases entries.len() - j,
                {
                    proof {
                        assert(entries@[j as int]@ == ents[j as int]);
                    }
                    if entries[j].line_number == errors[k].line_num || entries[j]
                        .error_message_detail == errors[k].msg {
                        code = Some(entries[j].error_code.clone());
                    }
                    j = j + 1;
                }
                let prev = &errors[k];
                let next = Error {
                    line_num: prev.line_num,
                    relative_line_num: prev.relative_line_num,
                    kind: prev.kind,
                    msg: prev.msg.clone(),
                    error_code: code,
                };
                proof {
                    assert(next@ == resolve_one(e, ents));
                }
                let ghost old_res = errors_model(resolved@);
                resolved.push(next);
                proof {
                    assert(errors_model(resolved@) =~= old_res.push(next@));
                    assert(errors_model(errors@).take(k + 1) =~= errors_model(errors@).take(
                        k as int,
                    ).push(e));
                }
                k = k + 1;
            }
            proof {
                assert(errors_model(errors@).take(errors@.len() as int) =~= errors_model(errors@));
                assert(errors_model(resolved@) =~= resolve_all(errors_model(errors@), ents));
            }
            Ok(resolved)
        },
    }
}

} // verus!
