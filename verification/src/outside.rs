//! Wrappers around outside crates (`regex`, `url`, `percent-encoding`) and the
//! few std string operations that vstd gives no specification. Each wrapper's
//! contract is what the wrapped function's source or documentation shows; the
//! results that no short formula can state are given names (`uninterp` spec
//! functions), and the verified logic reasons in terms of those names.

use vstd::prelude::*;

verus! {

/// Relies on String::push: appends one character to the string.
#[verifier::external_body]
pub fn push_char(s: &mut String, c: char)
    ensures
        final(s)@ == old(s)@.push(c),
{
    s.push(c)
}

/// What is left of `text` after every match of the regular expression
/// `pattern` is removed. The removal scans left to right over non-overlapping
/// matches, so the result is a function of the two strings alone; a pattern
/// that is not a valid regular expression removes nothing.
pub uninterp spec fn strip_all(pattern: Seq<char>, text: Seq<char>) -> Seq<char>;

/// Relies on regex::Regex::new and regex::Regex::replace_all: removes every
/// non-overlapping match of `pattern` from `text`, scanning left to right.
/// A pattern that does not compile is treated as matching nothing, so the
/// text comes back unchanged.
#[verifier::external_body]
pub fn strip_pattern(pattern: &str, text: &str) -> (r: String)
    ensures
        r@ == strip_all(pattern@, text@),
{
    match regex::Regex::new(pattern) {
        Ok(re) => re.replace_all(text, "").into_owned(),
        Err(_) => text.to_string(),
    }
}

/// Whether a pattern is accepted as a regular expression; what `Regex::new`
/// accepts depends on the pattern alone.
pub uninterp spec fn pattern_ok(pattern: Seq<char>) -> bool;

/// Relies on regex::Regex::new: tells a valid regular expression from an
/// invalid one.
#[verifier::external_body]
pub fn pattern_is_valid(pattern: &str) -> (r: bool)
    ensures
        r == pattern_ok(pattern@),
{
    regex::Regex::new(pattern).is_ok()
}

/// The Unicode lowercasing of a string, which depends on its characters
/// alone.
pub uninterp spec fn lowered(s: Seq<char>) -> Seq<char>;

/// Relies on str::to_lowercase: maps each character to its lowercase
/// equivalent, so the result is a function of the characters alone and an
/// empty string stays empty.
#[verifier::external_body]
pub fn lowercase(s: &str) -> (r: String)
    ensures
        r@ == lowered(s@),
        s@.len() == 0 ==> r@.len() == 0,
{
    s.to_lowercase()
}

/// Whether a string parses as an absolute URL; what `Url::parse` accepts
/// depends on the string alone.
pub uninterp spec fn url_ok(s: Seq<char>) -> bool;

/// Relies on url::Url::parse: tells a well-formed absolute URL from anything
/// else.
#[verifier::external_body]
pub fn url_is_valid(s: &str) -> (r: bool)
    ensures
        r == url_ok(s@),
{
    url::Url::parse(s).is_ok()
}

/// The absolute form of `href` resolved against the base URL `base`: the
/// joined URL where joining succeeds, and `href` unchanged where it fails
/// (then `href` is taken to be absolute already). Both outcomes depend on
/// the two strings alone.
pub uninterp spec fn resolved(base: Seq<char>, href: Seq<char>) -> Seq<char>;

/// Relies on url::Url::parse and url::Url::join: resolves a possibly
/// relative reference against a base URL. Where the base does not parse or
/// the join fails, the reference is passed through unchanged.
#[verifier::external_body]
pub fn resolve_link(base: &str, href: &str) -> (r: String)
    ensures
        r@ == resolved(base@, href@),
{
    match url::Url::parse(base) {
        Ok(base_url) => match base_url.join(href) {
            Ok(full) => full.to_string(),
            Err(_) => href.to_string(),
        },
        Err(_) => href.to_string(),
    }
}

/// The percent-encoded form of a query string, which depends on its
/// characters alone.
pub uninterp spec fn percent_encoded(s: Seq<char>) -> Seq<char>;

/// Relies on percent_encoding::utf8_percent_encode: replaces every byte
/// outside the unreserved alphanumerics by `%`-escapes, so the result is a
/// function of the characters alone and an empty string stays empty.
#[verifier::external_body]
pub fn percent_encode_query(s: &str) -> (r: String)
    ensures
        r@ == percent_encoded(s@),
        s@.len() == 0 ==> r@.len() == 0,
{
    percent_encoding::utf8_percent_encode(s, percent_encoding::NON_ALPHANUMERIC).to_string()
}

/// The `link` capture of every non-overlapping match of the regular
/// expression `pattern` in `text`, in match order; `None` where a match has
/// no participating `link` group. An invalid pattern yields no matches.
/// The result depends on the two strings alone.
pub uninterp spec fn link_captures(pattern: Seq<char>, text: Seq<char>) -> Seq<Option<Seq<char>>>;

/// Relies on regex::Regex::new, regex::Regex::captures_iter and
/// regex::Captures::name: collects what the `link` capture group matched,
/// one entry per match, scanning left to right without overlap.
#[verifier::external_body]
pub fn capture_links(pattern: &str, text: &str) -> (r: Vec<Option<String>>)
    ensures
        r.deep_view() == link_captures(pattern@, text@),
{
    match regex::Regex::new(pattern) {
        Ok(re) => re
            .captures_iter(text)
            .map(|cap| cap.name("link").map(|m| m.as_str().to_string()))
            .collect(),
        Err(_) => Vec::new(),
    }
}

} // verus!
