//! Shell-style patterns for `case`, compiled and matched by the `glob` crate.
use vstd::prelude::*;
use crate::text::{chars_eq_str, chars_of, string_of, trim, trim_str};

verus! {

#[verifier::external_type_specification]
#[verifier::external_body]
pub struct ExGlobPattern(glob::Pattern);

/// Whether `glob::Pattern::new` accepts `p`.
pub uninterp spec fn glob_pattern_valid(p: Seq<char>) -> bool;

/// Whether the pattern compiled from `p` matches `text` (`glob::Pattern::matches`).
pub uninterp spec fn glob_pattern_matches(p: Seq<char>, text: Seq<char>) -> bool;

/// A pattern with the text it was compiled from; made only by `compile_pattern`.
pub struct CasePattern {
    source: String,
    compiled: glob::Pattern,
}

impl CasePattern {
    pub closed spec fn source(&self) -> Seq<char> {
        self.source@
    }
}

/// Calls `glob::Pattern::new`. The contract claims that compiling succeeds
/// exactly when the pattern is valid, a function of the pattern's text alone
/// (only `?`, `*` and `[` can make a pattern invalid), and keeps that text
/// beside the compiled pattern.
#[verifier::external_body]
fn compile_pattern(p: &str) -> (r: Option<CasePattern>)
    ensures
        r is Some <==> glob_pattern_valid(p@),
        (forall|i: int| 0 <= i < p@.len() ==> p@[i] != '?' && p@[i] != '*' && p@[i] != '[') ==> r is Some,
        r matches Some(cp) ==> cp.source() == p@,
{
    match glob::Pattern::new(p) {
        Ok(compiled) => Some(CasePattern { source: p.to_string(), compiled }),
        Err(_) => None,
    }
}

/// Calls `glob::Pattern::matches` on the compiled pattern. The contract claims
/// that the result is a function of the pattern's text and of `text` alone.
#[verifier::external_body]
fn pattern_matches(cp: &CasePattern, text: &str) -> (r: bool)
    ensures
        r == glob_pattern_matches(cp.source(), text@),
{
    cp.compiled.matches(text)
}

/// Whether `text` matches the `case` pattern: `*` matches everything; a valid
/// glob pattern matches as `glob` says; an invalid one only its own text.
pub open spec fn case_matches(text: Seq<char>, pattern: Seq<char>) -> bool {
    let p = trim(pattern);
    if p == "*"@ {
        true
    } else if glob_pattern_valid(p) {
        glob_pattern_matches(p, text)
    } else {
        text == p
    }
}

/// Simple glob-style pattern matching for case statements.
pub fn matches_pattern(text: &str, pattern: &str) -> (r: bool)
    ensures
        r == case_matches(text@, pattern@),
{
    let p = trim_str(pattern);
    if chars_eq_str(&p, "*") {
        return true;
    }
    let ps = string_of(&p);
    match compile_pattern(ps.as_str()) {
        Some(cp) => pattern_matches(&cp, text),
        None => {
            let t = chars_of(text);
            crate::text::chars_eq(&t, &p)
        },
    }
}

} // verus!
