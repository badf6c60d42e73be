use vstd::prelude::*;

verus! {

// ===========================================================================
// Glob pattern matching, through the `glob` crate.
//
// Pattern validity and the match result are pure functions of the pattern
// and the path; both get a name here, and the two wrappers below tie the
// crate's answers to those names.
// ===========================================================================

/// Whether `p` is a well-formed glob pattern, as `glob::Pattern::new`
/// decides it.
pub uninterp spec fn glob_valid(p: Seq<char>) -> bool;

/// Whether the path `s` matches the glob pattern `p` under the engine's
/// fixed options (case sensitive, `/` only matched literally, a leading `.`
/// only matched literally), as `glob::Pattern::matches_with` decides it.
pub uninterp spec fn glob_match_of(p: Seq<char>, s: Seq<char>) -> bool;

/// Relies on glob::Pattern::new: whether a pattern compiles depends on the
/// pattern string alone.
#[verifier::external_body]
pub fn glob_pattern_valid(p: &str) -> (r: bool)
    ensures
        r == glob_valid(p@),
{
    glob::Pattern::new(p).is_ok()
}

/// Relies on glob::Pattern::matches_with (reached through a fresh
/// glob::Pattern::new): the result depends on the pattern and the path
/// alone.  An uncompilable pattern matches nothing.
#[verifier::external_body]
pub fn glob_matches(p: &str, s: &str) -> (r: bool)
    requires
        glob_valid(p@),
    ensures
        r == glob_match_of(p@, s@),
{
    let options = glob::MatchOptions {
        case_sensitive: true,
        require_literal_separator: true,
        require_literal_leading_dot: true,
    };
    glob::Pattern::new(p).map(|pat| pat.matches_with(s, options)).unwrap_or(false)
}

} // verus!
