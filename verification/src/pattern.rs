//! Regular-expression matching and replacement, done by the `regex` crate.
use vstd::prelude::*;

verus! {

/// What compiling `pattern` with `regex::Regex::new` and asking
/// `is_match` of `text` gives: `None` when the pattern does not compile,
/// else whether the expression matches somewhere in `text`.
pub uninterp spec fn regex_match_outcome(pattern: Seq<char>, text: Seq<char>) -> Option<bool>;

/// What compiling `pattern` with `regex::Regex::new` and calling
/// `replace_all(text, replacement)` gives: `None` when the pattern does not
/// compile, else the text with every non-overlapping match replaced.
pub uninterp spec fn regex_replace_outcome(
    pattern: Seq<char>,
    text: Seq<char>,
    replacement: Seq<char>,
) -> Option<Seq<char>>;

/// Compiles `pattern` once with `regex::Regex::new` and calls
/// `Regex::is_match` on each of `texts`. Each result is named
/// `regex_match_outcome` of the pattern and that text; nothing more is
/// claimed of it.
#[verifier::external_body]
pub(crate) fn regex_match_each(pattern: &str, texts: &[String]) -> (r: Vec<Option<bool>>)
    ensures
        r@.len() == texts@.len(),
        forall|i: int|
            0 <= i < texts@.len() ==> #[trigger] r@[i] == regex_match_outcome(
                pattern@,
                texts@[i]@,
            ),
{
    match regex::Regex::new(pattern) {
        Ok(re) => texts.iter().map(|t| Some(re.is_match(t))).collect(),
        Err(_) => texts.iter().map(|_| None).collect(),
    }
}

/// Compiles `pattern` with `regex::Regex::new` and calls
/// `Regex::replace_all(text, replacement)`. The result is named
/// `regex_replace_outcome` of the three arguments; nothing more is claimed.
#[verifier::external_body]
pub(crate) fn regex_replace_all(pattern: &str, text: &str, replacement: &str) -> (r: Option<
    String,
>)
    ensures
        r matches Some(s) ==> regex_replace_outcome(pattern@, text@, replacement@) == Some(s@),
        r is None ==> regex_replace_outcome(pattern@, text@, replacement@) is None,
{
    match regex::Regex::new(pattern) {
        Ok(re) => Some(re.replace_all(text, replacement).into_owned()),
        Err(_) => None,
    }
}

} // verus!
