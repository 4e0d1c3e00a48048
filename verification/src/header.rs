//! Rewriting of build-directive header lines into target-format
//! configuration directives.

use vstd::prelude::*;
use vstd::string::*;

verus! {

/// The configuration directive carrying an edition value.
pub open spec fn edition_rewrite(value: Seq<char>) -> Seq<char> {
    "// { dg-additional-options \"-frust-edition="@ + value + "\" }"@
}

/// The configuration directive contains no newline and no tilde beyond
/// what the value itself carries.
pub proof fn lemma_edition_rewrite_avoids(value: Seq<char>, c: char)
    requires
        c == '\n' || c == '~',
        crate::text::avoids(value, c),
    ensures
        crate::text::avoids(edition_rewrite(value), c),
{
    reveal_strlit("// { dg-additional-options \"-frust-edition=");
    reveal_strlit("\" }");
    crate::text::lemma_avoids_concat("// { dg-additional-options \"-frust-edition="@, value, c);
    crate::text::lemma_avoids_concat(
        "// { dg-additional-options \"-frust-edition="@ + value,
        "\" }"@,
        c,
    );
}

/// Rewrites a build-directive line `<directive>:<value>` into the
/// target-format configuration directive carrying `<value>`.
pub fn parse_edition_directive(line: &str, directive: &str) -> (r: String)
    requires
        line@.len() > directive@.len(),
        line@.subrange(0, directive@.len() as int) == directive@,
        line@[directive@.len() as int] == ':',
    ensures
        r@ == edition_rewrite(line@.skip(directive@.len() as int + 1)),
{
    let dlen = directive.unicode_len();
    let n = line.unicode_len();
    let value = line.substring_char(dlen + 1, n);
    let mut s = "// { dg-additional-options \"-frust-edition=".to_owned();
    s.append(value);
    s.append("\" }");
    proof {
        assert(value@ =~= line@.skip(directive@.len() as int + 1));
        assert(s@ =~= edition_rewrite(line@.skip(directive@.len() as int + 1)));
    }
    s
}

} // verus!
