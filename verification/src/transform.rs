//! The line rewriter: walks the source a second time and replaces each
//! line targeted by a record, or carrying a build directive, with its
//! target-format directive, leaving every other line untouched.

use vstd::prelude::*;
use vstd::string::*;

use crate::errors::{errors_model, lemma_extract_no_sigils, lemma_load_props,
    lemma_render_directive_avoids, load_error, load_error_spec, opt_str_view, record_wf,
    render_directive, Error, ErrorModel, FatalError};
use crate::header::{edition_rewrite, lemma_edition_rewrite_avoids, parse_edition_directive};
use crate::sigil::{first_sigil, lemma_first_sigil_from_exact, lemma_first_sigil_from_props,
    lemma_match_tilde_agree, lemma_match_tilde_props, lemma_no_tilde_no_sigil, match_tilde_at,
    sigil_at};
use crate::text::{avoids, lemma_avoids_concat, lemma_avoids_subrange, lemma_join_push,
    lemma_lines_of_join, lemma_spec_lines_no_newline, spec_join, spec_lines, split_lines,
    strip_cr};

verus! {

/// Whether a line is an edition build directive: `//@ edition:` then the
/// value.
pub open spec fn edition_guard(l: Seq<char>) -> bool {
    l.len() >= 12 && l.subrange(0, 11) == "//@ edition"@ && l[11] == ':'
}

/// Checks whether a line is an edition build directive.
#[verifier::loop_isolation(false)]
pub fn is_edition_line(line: &str) -> (b: bool)
    ensures
        b == edition_guard(line@),
{
    let n = line.unicode_len();
    if n < 12 {
        return false;
    }
    proof {
        reveal_strlit("//@ edition");
    }
    let d: &str = "//@ edition";
    let mut k: usize = 0;
    while k < 11
        invariant
            k <= 11,
            forall|j: int| 0 <= j < k ==> line@[j] == d@[j],
        decreases 11 - k,
    {
        if line.get_char(k) != d.get_char(k) {
            proof {
                assert(line@.subrange(0, 11)[k as int] != d@[k as int]);
            }
            return false;
        }
        k = k + 1;
    }
    proof {
        assert(line@.subrange(0, 11) =~= d@);
    }
    line.get_char(11) == ':'
}

/// The 1-based source line an annotation stood on, reconstructed from its
/// record.
pub open spec fn ann_line_of(e: ErrorModel) -> int {
    e.line_num - e.relative_line_num
}

/// The first record, from index `j` on, whose annotation stood on line `ln`.
pub open spec fn first_matching_from(errs: Seq<ErrorModel>, ln: int, j: int) -> Option<int>
    decreases errs.len() - j when 0 <= j <= errs.len()
{
    if j >= errs.len() {
        None
    } else if ann_line_of(errs[j]) == ln {
        Some(j)
    } else {
        first_matching_from(errs, ln, j + 1)
    }
}

proof fn lemma_first_matching_exact(errs: Seq<ErrorModel>, ln: int, q: int)
    requires
        0 <= q <= errs.len(),
        forall|k: int| 0 <= k < q ==> ann_line_of(#[trigger] errs[k]) != ln,
        q < errs.len() ==> ann_line_of(errs[q]) == ln,
    ensures
        q < errs.len() ==> first_matching_from(errs, ln, 0) == Some(q),
        q == errs.len() ==> first_matching_from(errs, ln, 0) is None,
    decreases errs.len(),
{
    lemma_first_matching_exact_from(errs, ln, 0, q);
}

proof fn lemma_first_matching_exact_from(errs: Seq<ErrorModel>, ln: int, j: int, q: int)
    requires
        0 <= j <= q <= errs.len(),
        forall|k: int| j <= k < q ==> ann_line_of(#[trigger] errs[k]) != ln,
        q < errs.len() ==> ann_line_of(errs[q]) == ln,
    ensures
        q < errs.len() ==> first_matching_from(errs, ln, j) == Some(q),
        q == errs.len() ==> first_matching_from(errs, ln, j) is None,
    decreases q - j,
{
    if j < q {
        lemma_first_matching_exact_from(errs, ln, j + 1, q);
    }
}

/// Finds the first record whose annotation stood on line `ln`.
#[verifier::loop_isolation(false)]
fn find_record(errors: &Vec<Error>, ln: usize) -> (r: Option<usize>)
    ensures
        r matches Some(j) ==> j < errors@.len() && first_matching_from(
            errors_model(errors@),
            ln as int,
            0,
        ) == Some(j as int),
        r is None ==> first_matching_from(errors_model(errors@), ln as int, 0) is None,
{
    let ghost em = errors_model(errors@);
    let mut j: usize = 0;
    while j < errors.len()
        invariant
            j <= errors.len(),
            em == errors_model(errors@),
            forall|k: int| 0 <= k < j ==> ann_line_of(#[trigger] em[k]) != ln as int,
        decreases errors.len() - j,
    {
        let e = &errors[j];
        let ann: i128 = e.line_num as i128 - e.relative_line_num as i128;
        proof {
            assert(em[j as int] == errors@[j as int]@);
        }
        if ann == ln as i128 {
            proof {
                lemma_first_matching_exact(em, ln as int, j as int);
            }
            return Some(j);
        }
        j = j + 1;
    }
    proof {
        lemma_first_matching_exact(em, ln as int, errors@.len() as int);
    }
    None
}

/// What the rewriter emits for one line: the edition rewrite when the line
/// carries the build directive; else, when a record's annotation stood
/// here, the directive (appended after the pre-sigil text when the record
/// targets this same line); else the line unchanged.
pub open spec fn rewrite_line_spec(line: Seq<char>, ln: int, errs: Seq<ErrorModel>) -> Seq<char> {
    if edition_guard(line) {
        edition_rewrite(line.skip(12))
    } else {
        match first_matching_from(errs, ln, 0) {
            None => line,
            Some(j) => {
                let e = errs[j];
                if e.relative_line_num != 0 {
                    render_directive(e)
                } else {
                    match first_sigil(line) {
                        Some(p) => line.take(p) + render_directive(e),
                        None => render_directive(e),
                    }
                }
            },
        }
    }
}

/// The rewriter applied to every line.
pub open spec fn rewrite_lines_spec(lines: Seq<Seq<char>>, errs: Seq<ErrorModel>) -> Seq<
    Seq<char>,
> {
    Seq::new(lines.len(), |i: int| rewrite_line_spec(lines[i], i + 1, errs))
}

/// The rewritten text: every rewritten line followed by one newline.
pub open spec fn transform_spec(text: Seq<char>, errs: Seq<ErrorModel>) -> Seq<char> {
    spec_join(rewrite_lines_spec(spec_lines(text), errs))
}

proof fn lemma_first_matching_props(errs: Seq<ErrorModel>, ln: int, j: int)
    requires
        0 <= j <= errs.len(),
    ensures
        first_matching_from(errs, ln, j) matches Some(q) ==> j <= q < errs.len() && ann_line_of(
            errs[q],
        ) == ln,
        first_matching_from(errs, ln, j) is None ==> forall|k: int|
            j <= k < errs.len() ==> ann_line_of(#[trigger] errs[k]) != ln,
    decreases errs.len() - j,
{
    if j < errs.len() && ann_line_of(errs[j]) != ln {
        lemma_first_matching_props(errs, ln, j + 1);
    }
}

/// Whatever the rewriter emits for one newline-free line is newline-free.
proof fn lemma_rewrite_line_newline_free(
    line: Seq<char>,
    ln: int,
    errs: Seq<ErrorModel>,
    nlines: int,
)
    requires
        avoids(line, '\n'),
        forall|k: int| 0 <= k < errs.len() ==> record_wf(#[trigger] errs[k], nlines),
    ensures
        avoids(rewrite_line_spec(line, ln, errs), '\n'),
{
    if edition_guard(line) {
        lemma_avoids_subrange(line, '\n', 12, line.len() as int);
        assert(line.skip(12) =~= line.subrange(12, line.len() as int));
        lemma_edition_rewrite_avoids(line.skip(12), '\n');
    } else {
        lemma_first_matching_props(errs, ln, 0);
        match first_matching_from(errs, ln, 0) {
            None => {},
            Some(j) => {
                let e = errs[j];
                lemma_render_directive_avoids(e);
                if e.relative_line_num != 0 {
                } else {
                    match first_sigil(line) {
                        Some(p) => {
                            lemma_first_sigil_from_props(line, 0);
                            lemma_avoids_subrange(line, '\n', 0, p);
                            assert(line.take(p) =~= line.subrange(0, p));
                            lemma_avoids_concat(line.take(p), render_directive(e), '\n');
                        },
                        None => {},
                    }
                }
            },
        }
    }
}

/// The lines of the rewritten text are exactly the rewritten lines, up to
/// the carriage-return stripping that line splitting performs; in
/// particular the rewritten text has exactly as many lines as the source.
pub proof fn lemma_transform_lines(
    code: Seq<char>,
    stderr: Option<Seq<char>>,
    errs: Seq<ErrorModel>,
)
    requires
        load_error_spec(code, stderr) == Ok::<Seq<ErrorModel>, FatalError>(errs),
    ensures
        spec_lines(transform_spec(code, errs)) == rewrite_lines_spec(
            spec_lines(code),
            errs,
        ).map_values(|l: Seq<char>| strip_cr(l)),
        spec_lines(transform_spec(code, errs)).len() == spec_lines(code).len(),
{
    let gl = spec_lines(code);
    let rl = rewrite_lines_spec(gl, errs);
    lemma_load_props(code, stderr, errs);
    assert forall|i: int| 0 <= i < rl.len() implies avoids(#[trigger] rl[i], '\n') by {
        lemma_spec_lines_no_newline(code, 0, i);
        assert(avoids(gl[i], '\n'));
        lemma_rewrite_line_newline_free(gl[i], i + 1, errs, gl.len() as int);
    }
    assert forall|j: int, k: int|
        0 <= j < rl.len() && 0 <= k < rl[j].len() implies #[trigger] rl[j][k] != '\n' by {
        assert(avoids(rl[j], '\n'));
    }
    lemma_lines_of_join(rl);
}

/// Non-annotation preservation: a line holding no annotation sigil and no
/// build directive passes through the rewriter unchanged, and reappears in
/// the rewritten text with at most a trailing carriage return stripped.
pub proof fn lemma_untouched_line(
    code: Seq<char>,
    stderr: Option<Seq<char>>,
    errs: Seq<ErrorModel>,
    i: int,
)
    requires
        load_error_spec(code, stderr) == Ok::<Seq<ErrorModel>, FatalError>(errs),
        0 <= i < spec_lines(code).len(),
        first_sigil(spec_lines(code)[i]) is None,
        !edition_guard(spec_lines(code)[i]),
    ensures
        rewrite_lines_spec(spec_lines(code), errs)[i] == spec_lines(code)[i],
        spec_lines(transform_spec(code, errs))[i] == strip_cr(spec_lines(code)[i]),
{
    let gl = spec_lines(code);
    lemma_load_props(code, stderr, errs);
    lemma_first_matching_props(errs, i + 1, 0);
    match first_matching_from(errs, i + 1, 0) {
        Some(j) => {
            assert(first_sigil(gl[errs[j].line_num - errs[j].relative_line_num - 1]) is Some);
            assert(false);
        },
        None => {},
    }
    lemma_transform_lines(code, stderr, errs);
}

/// A sigil-free line stays sigil-free when cut short.
proof fn lemma_prefix_no_sigil(s: Seq<char>, m: int)
    requires
        first_sigil(s) is None,
        0 <= m <= s.len(),
    ensures
        first_sigil(s.take(m)) is None,
{
    lemma_first_sigil_from_props(s, 0);
    let u = s.take(m);
    assert forall|q: int| 0 <= q < u.len() implies !sigil_at(u, q) by {
        match match_tilde_at(u, q) {
            Some(t) => {
                lemma_match_tilde_props(u, q, t);
                assert forall|k: int| 0 <= k < m implies u[k] == #[trigger] s[k] by {
                    assert(u[k] == s.take(m)[k]);
                }
                lemma_match_tilde_agree(u, s, m, q, t);
                assert(sigil_at(s, q));
            },
            None => {},
        }
    }
    lemma_first_sigil_from_exact(u, 0, u.len() as int);
}

/// Keeping the text before the leftmost sigil and appending tilde-free
/// text yields a line without any sigil.
proof fn lemma_prefix_plus_no_sigil(line: Seq<char>, p: int, d: Seq<char>)
    requires
        first_sigil(line) == Some(p),
        avoids(d, '~'),
    ensures
        first_sigil(line.take(p) + d) is None,
{
    lemma_first_sigil_from_props(line, 0);
    let u = line.take(p) + d;
    assert forall|q: int| 0 <= q < u.len() implies !sigil_at(u, q) by {
        match match_tilde_at(u, q) {
            Some(t) => {
                lemma_match_tilde_props(u, q, t);
                if t >= p {
                    assert(u[t] == d[t - p]);
                } else {
                    assert forall|k: int| 0 <= k < p implies u[k] == #[trigger] line[k] by {
                        assert(u[k] == line.take(p)[k]);
                    }
                    lemma_match_tilde_agree(u, line, p, q, t);
                    assert(sigil_at(line, q));
                    assert(q < p);
                }
            },
            None => {},
        }
    }
    lemma_first_sigil_from_exact(u, 0, u.len() as int);
}

/// Idempotence of extraction on rewritten output: as long as no edition
/// value itself carries a tilde, the directives the rewriter emits are not
/// recognized as annotations, so extraction on the rewritten text yields
/// no records.
pub proof fn lemma_extraction_idempotent(
    code: Seq<char>,
    stderr: Option<Seq<char>>,
    errs: Seq<ErrorModel>,
)
    requires
        load_error_spec(code, stderr) == Ok::<Seq<ErrorModel>, FatalError>(errs),
        forall|i: int|
            0 <= i < spec_lines(code).len() && edition_guard(#[trigger] spec_lines(code)[i])
                ==> avoids(spec_lines(code)[i].skip(12), '~'),
    ensures
        crate::errors::extract_spec(transform_spec(code, errs)) == Ok::<
            Seq<ErrorModel>,
            FatalError,
        >(Seq::empty()),
{
    let gl = spec_lines(code);
    let rl = rewrite_lines_spec(gl, errs);
    lemma_load_props(code, stderr, errs);
    assert forall|i: int| 0 <= i < rl.len() implies first_sigil(#[trigger] rl[i]) is None by {
        let line = gl[i];
        if edition_guard(line) {
            lemma_edition_rewrite_avoids(line.skip(12), '~');
            lemma_no_tilde_no_sigil(rl[i]);
        } else {
            lemma_first_matching_props(errs, i + 1, 0);
            match first_matching_from(errs, i + 1, 0) {
                None => {
                    assert(first_sigil(line) is None) by {
                        if first_sigil(line) is Some {
                            let k0 = choose|k: int|
                                0 <= k < errs.len() && errs[k].line_num - errs[
                                    k
                                ].relative_line_num == i + 1;
                            assert(ann_line_of(errs[k0]) == i + 1);
                        }
                    }
                },
                Some(j) => {
                    lemma_render_directive_avoids(errs[j]);
                    if errs[j].relative_line_num != 0 {
                        lemma_no_tilde_no_sigil(rl[i]);
                    } else {
                        match first_sigil(line) {
                            Some(p) => {
                                lemma_prefix_plus_no_sigil(line, p, render_directive(errs[j]));
                            },
                            None => {
                                lemma_no_tilde_no_sigil(rl[i]);
                            },
                        }
                    }
                },
            }
        }
    }
    lemma_transform_lines(code, stderr, errs);
    let out_lines = spec_lines(transform_spec(code, errs));
    assert forall|i: int| 0 <= i < out_lines.len() implies first_sigil(
        #[trigger] out_lines[i],
    ) is None by {
        assert(out_lines[i] == strip_cr(rl[i]));
        if rl[i].len() > 0 && rl[i][rl[i].len() - 1] == '\r' {
            assert(strip_cr(rl[i]) =~= rl[i].take(rl[i].len() - 1));
            lemma_prefix_no_sigil(rl[i], rl[i].len() - 1);
        }
    }
    lemma_extract_no_sigils(out_lines, 0, None, Seq::empty());
}

/// Converts a whole source text: extracts its annotation records, resolves
/// codes against the optional companion text, and rewrites each annotated
/// or build-directive line into target-format directives.
#[verifier::loop_isolation(false)]
pub fn transform_code(code: &str, stderr_file: Option<&str>) -> (r: Result<String, FatalError>)
    requires
        spec_lines(code@).len() <= 0x7fff_ffff,
    ensures
        load_error_spec(code@, opt_str_view(stderr_file)) matches Ok(errs) ==> r matches Ok(out)
            && out@ == transform_spec(code@, errs),
        load_error_spec(code@, opt_str_view(stderr_file)) matches Err(f) ==> r == Err::<
            String,
            FatalError,
        >(f),
        r matches Ok(out) ==> spec_lines(out@).len() == spec_lines(code@).len(),
{
    let errors = match load_error(code, stderr_file) {
        Ok(v) => v,
        Err(f) => {
            return Err(f);
        },
    };
    let ghost errsm = errors_model(errors@);
    let lines = split_lines(code);
    let ghost gl = spec_lines(code@);
    let ghost rl = rewrite_lines_spec(gl, errsm);
    let mut new_code = String::new();
    proof {
        reveal_strlit("\n");
        assert(rl.take(0) =~= Seq::<Seq<char>>::empty());
    }
    let mut i: usize = 0;
    while i < lines.len()
        invariant
            i <= lines.len(),
            lines.deep_view() == gl,
            new_code@ == spec_join(rl.take(i as int)),
        decreases lines.len() - i,
    {
        let line: &str = lines[i];
        proof {
            assert(line@ == gl[i as int]);
        }
        let new_line: String;
        if is_edition_line(line) {
            proof {
                reveal_strlit("//@ edition");
            }
            new_line = parse_edition_directive(line, "//@ edition");
        } else {
            match find_record(&errors, i + 1) {
                None => {
                    new_line = line.to_owned();
                },
                Some(j) => {
                    proof {
                        assert(errsm[j as int] == errors@[j as int]@);
                    }
                    let e = &errors[j];
                    if e.relative_line_num != 0 {
                        new_line = e.to_directive();
                    } else {
                        match crate::sigil::find_sigil(line) {
                            Some((p, _t)) => {
                                proof {
                                    lemma_first_sigil_from_props(line@, 0);
                                }
                                let prefix = line.substring_char(0, p);
                                let mut nl = prefix.to_owned();
                                let dir = e.to_directive();
                                nl.append(dir.as_str());
                                proof {
                                    assert(prefix@ =~= line@.take(p as int));
                                }
                                new_line = nl;
                            },
                            None => {
                                new_line = e.to_directive();
                            },
                        }
                    }
                },
            }
        }
        proof {
            assert(new_line@ == rl[i as int]);
        }
        new_code.append(new_line.as_str());
        new_code.append("\n");
        proof {
            assert(rl.take(i + 1) =~= rl.take(i as int).push(rl[i as int]));
            lemma_join_push(rl.take(i as int), rl[i as int]);
            assert("\n"@ =~= seq!['\n']);
            assert(new_code@ =~= spec_join(rl.take(i + 1)));
        }
        i = i + 1;
    }
    proof {
        assert(rl.take(gl.len() as int) =~= rl);
        lemma_transform_lines(code@, opt_str_view(stderr_file), errsm);
    }
    Ok(new_code)
}

} // verus!
