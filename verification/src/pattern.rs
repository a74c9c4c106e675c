//! Regular expressions, compiled by the `regex` crate. A compiled
//! expression remembers the pattern it was compiled from, so that what a
//! search finds can be named as a function of the pattern and the text.

use regex::Regex;
use vstd::prelude::*;

verus! {

#[verifier::external_type_specification]
#[verifier::external_body]
pub struct ExRegex(Regex);

#[verifier::external_type_specification]
#[verifier::external_body]
pub struct ExRegexError(regex::Error);

/// Whether `regex::Regex::new` accepts `pattern` (with its default size
/// limits, which do not vary between runs).
pub uninterp spec fn regex_compiles(pattern: Seq<char>) -> bool;

/// What `regex::Regex::captures` finds in `haystack` for the expression
/// compiled from `pattern`: `None` when there is no match, otherwise the
/// text of each capture group in order (group 0 is the whole match), `None`
/// for a group that did not take part in the match.
pub uninterp spec fn regex_captures(pattern: Seq<char>, haystack: Seq<char>) -> Option<
    Seq<Option<Seq<char>>>,
>;

/// The texts of capture groups as character sequences.
pub open spec fn groups_view(g: Seq<Option<String>>) -> Seq<Option<Seq<char>>> {
    g.map_values(
        |o: Option<String>|
            match o {
                Some(s) => Some(s@),
                None => None,
            },
    )
}

/// Calls `regex::Regex::new`; it succeeds exactly when `regex_compiles`
/// holds of the pattern.
#[verifier::external_body]
fn compile_regex(pattern: &str) -> (r: Result<Regex, regex::Error>)
    ensures
        r is Ok == regex_compiles(pattern@),
{
    Regex::new(pattern)
}

/// A compiled regular expression together with its pattern.
pub struct CompiledRegex {
    inner: Regex,
    source: Ghost<Seq<char>>,
}

impl CompiledRegex {
    /// The pattern the expression was compiled from.
    pub closed spec fn source(&self) -> Seq<char> {
        self.source@
    }

    /// Compiles `pattern`; `None` when the `regex` crate refuses it.
    pub fn new(pattern: &str) -> (r: Option<CompiledRegex>)
        ensures
            r is Some == regex_compiles(pattern@),
            r matches Some(c) ==> c.source() == pattern@,
    {
        match compile_regex(pattern) {
            Ok(inner) => Some(CompiledRegex { inner, source: Ghost(pattern@) }),
            Err(_) => None,
        }
    }
}

/// Calls `regex::Regex::captures` on the expression and converts each
/// group's match to its text. The result is the one named by
/// `regex_captures` for the pattern the expression was compiled from; a
/// `CompiledRegex` can only be made by `CompiledRegex::new`, which records
/// that pattern.
#[verifier::external_body]
pub(crate) fn capture_groups(re: &CompiledRegex, haystack: &str) -> (r: Option<Vec<Option<String>>>)
    ensures
        match r {
            Some(g) => regex_captures(re.source(), haystack@) == Some(groups_view(g@)),
            None => regex_captures(re.source(), haystack@) is None,
        },
{
    match re.inner.captures(haystack) {
        None => None,
        Some(caps) => {
            let mut groups = Vec::new();
            for m in caps.iter() {
                groups.push(
                    match m {
                        Some(m) => Some(m.as_str().to_string()),
                        None => None,
                    },
                );
            }
            Some(groups)
        },
    }
}

} // verus!
