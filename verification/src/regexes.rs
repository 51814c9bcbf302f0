use vstd::prelude::*;

verus! {

// ---------------------------------------------------------------------------
// Regular expressions, by the `regex` crate
// ---------------------------------------------------------------------------

/// A compiled regular expression of the `regex` crate.
#[verifier::external_type_specification]
#[verifier::external_body]
pub struct ExRegex(regex::Regex);

/// The error the `regex` crate gives for a pattern it cannot compile.
#[verifier::external_type_specification]
#[verifier::external_body]
pub struct ExRegexError(regex::Error);

/// Whether `regex::Regex::new` compiles `pattern` (a valid pattern within the
/// default size limit).
pub uninterp spec fn regex_compiles(pattern: Seq<char>) -> bool;

/// What `regex::Regex::captures_iter` yields for the regex of `pattern` on
/// `text`: for each successive non-overlapping match, the text of each
/// capture group in order (group 0 being the whole match), `None` for a group
/// that took no part in it.
pub uninterp spec fn regex_captures(pattern: Seq<char>, text: Seq<char>) -> Seq<Seq<Option<Seq<char>>>>;

/// What `regex::Regex::is_match` says of the regex of `pattern` on `text`:
/// whether it matches somewhere in it.
pub uninterp spec fn regex_is_match(pattern: Seq<char>, text: Seq<char>) -> bool;

/// What `regex::Regex::replace_all` gives for the regex of `pattern` on
/// `text` with the replacement template `rep`.
pub uninterp spec fn regex_replace_all(pattern: Seq<char>, text: Seq<char>, rep: Seq<char>) -> Seq<char>;

/// A compiled regular expression together with the pattern it was compiled from.
pub struct Pattern {
    re: regex::Regex,
    source: String,
}

impl Pattern {
    /// The pattern this regular expression was compiled from.
    pub closed spec fn source(&self) -> Seq<char> {
        self.source@
    }
}

/// Compiles `pattern`.
///
/// Trusted: calls `regex::Regex::new`, which returns a regex or, for an
/// invalid or too large pattern, an error; claimed: the outcome depends on the
/// pattern alone (`regex_compiles`), and the regex keeps its pattern.
#[verifier::external_body]
pub(crate) fn compile_pattern(pattern: &str) -> (res: Result<Pattern, regex::Error>)
    ensures
        res is Ok <==> regex_compiles(pattern@),
        res matches Ok(p) ==> p.source() == pattern@,
{
    match regex::Regex::new(pattern) {
        Ok(re) => Ok(Pattern { re, source: pattern.to_string() }),
        Err(e) => Err(e),
    }
}

/// The capture groups of every match of `p` in `text`, in order.
///
/// Trusted: calls `regex::Regex::captures_iter` and turns each group of each
/// match into its text; claimed: the result is `regex_captures` of the pattern
/// and the text.
#[verifier::external_body]
pub(crate) fn captures_all(p: &Pattern, text: &str) -> (res: Vec<Vec<Option<String>>>)
    ensures
        captures_view(res@) == regex_captures(p.source(), text@),
{
    p.re.captures_iter(text).map(|c| c.iter().map(|m| m.map(|m| m.as_str().to_string())).collect()).collect()
}

/// Whether `p` matches somewhere in `text`.
///
/// Trusted: calls `regex::Regex::is_match`; claimed: the result is
/// `regex_is_match` of the pattern and the text.
#[verifier::external_body]
pub(crate) fn pattern_is_match(p: &Pattern, text: &str) -> (res: bool)
    ensures
        res == regex_is_match(p.source(), text@),
{
    p.re.is_match(text)
}

/// `text` with every match of `p` replaced by the template `rep`.
///
/// Trusted: calls `regex::Regex::replace_all`; claimed: the result is
/// `regex_replace_all` of the pattern, the text and the template.
#[verifier::external_body]
pub(crate) fn pattern_replace_all(p: &Pattern, text: &str, rep: &str) -> (res: String)
    ensures
        res@ == regex_replace_all(p.source(), text@, rep@),
{
    p.re.replace_all(text, rep).into_owned()
}

/// The abstract value of a match's capture groups.
pub open spec fn groups_view(c: Seq<Option<String>>) -> Seq<Option<Seq<char>>> {
    c.map_values(|g: Option<String>| match g {
        Some(s) => Some(s@),
        None => None,
    })
}

/// The abstract value of the capture groups of several matches.
pub open spec fn captures_view(cs: Seq<Vec<Option<String>>>) -> Seq<Seq<Option<Seq<char>>>> {
    cs.map_values(|c: Vec<Option<String>>| groups_view(c@))
}

} // verus!
