//! The boundary to the regular-expression engine.
//!
//! Pattern nodes keep the pattern source text. Whether a text compiles and
//! whether a compiled text matches somewhere in a segment are named here as
//! functions of the texts alone, and the two wrappers below are the only
//! places that call the engine. Pattern nodes always hand the engine the
//! anchored form of their pattern, built in verified code by `anchor`, so
//! that a match found within a segment is a match of the whole segment.
use vstd::prelude::*;
use vstd::string::StringExecFns;

verus! {

/// Whether a pattern text compiles as a regular expression.
pub uninterp spec fn pattern_valid(pattern: Seq<char>) -> bool;

/// Whether the compiled pattern matches anywhere within the segment.
pub uninterp spec fn pattern_found(pattern: Seq<char>, segment: Seq<char>) -> bool;

/// The anchored form of a pattern: the pattern in a non-capturing group
/// between the two anchors, so the entire segment has to match it.
pub open spec fn anchored_of(pattern: Seq<char>) -> Seq<char> {
    "^(?:"@ + pattern + ")$"@
}

/// The anchored form of a pattern, as executable text.
pub(crate) fn anchor(pattern: &str) -> (r: String)
    ensures
        r@ == anchored_of(pattern@),
{
    let mut s = "^(?:".to_string();
    s.append(pattern);
    s.append(")$");
    proof {
        assert(s@ =~= anchored_of(pattern@));
    }
    s
}

/// Relies on regex::Regex::new: whether a pattern text compiles is a
/// function of the text alone (an invalid or oversized pattern is an
/// `Err`).
#[verifier::external_body]
pub(crate) fn compile_check(pattern: &str) -> (b: bool)
    ensures
        b == pattern_valid(pattern@),
{
    regex::Regex::new(pattern).is_ok()
}

/// Relies on regex::Regex::new and regex::Regex::is_match: for a fixed
/// pattern and segment, whether the compiled pattern matches anywhere in
/// the segment is a function of the two texts alone; a pattern that does
/// not compile matches nothing.
#[verifier::external_body]
pub(crate) fn is_match(pattern: &str, segment: &str) -> (b: bool)
    ensures
        b == (pattern_valid(pattern@) && pattern_found(pattern@, segment@)),
{
    match regex::Regex::new(pattern) {
        Ok(re) => re.is_match(segment),
        Err(_) => false,
    }
}

} // verus!
