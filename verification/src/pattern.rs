//! Regular expressions of the `regex` crate, and the few Unicode routines of
//! the standard library that the line classifiers use.
use vstd::prelude::*;
use vstd::utf8::is_ascii_chars;
use regex::Regex;

verus! {

#[verifier::external_type_specification]
#[verifier::external_body]
pub struct ExRegex(Regex);

/// Whether `pattern` compiles with `regex::Regex::new` and then
/// `Regex::is_match` holds on `haystack`.
pub uninterp spec fn regex_is_match(pattern: Seq<char>, haystack: Seq<char>) -> bool;

/// When `pattern` compiles and matches `haystack`: the capture groups of the
/// leftmost-first match (`Regex::captures`), group 0 being the whole match;
/// `None` otherwise.
pub uninterp spec fn regex_captures(pattern: Seq<char>, haystack: Seq<char>) -> Option<
    Seq<Option<Seq<char>>>,
>;

/// `Regex::replace_all(haystack, replacement)` when `pattern` compiles;
/// `haystack` otherwise.
pub uninterp spec fn regex_replace_all(
    pattern: Seq<char>,
    haystack: Seq<char>,
    replacement: Seq<char>,
) -> Seq<char>;

/// The texts of the successive non-overlapping matches (`Regex::find_iter`)
/// when `pattern` compiles; nothing otherwise.
pub uninterp spec fn regex_find_all(pattern: Seq<char>, haystack: Seq<char>) -> Seq<Seq<char>>;

/// A regular expression together with its source text.
pub struct Pattern {
    source: String,
    compiled: Option<Regex>,
}

impl View for Pattern {
    type V = Seq<char>;

    closed spec fn view(&self) -> Seq<char> {
        self.source@
    }
}

impl Pattern {
    /// Compiles `source` with `regex::Regex::new`. The value keeps `source` as
    /// its view; a source that does not compile matches nothing.
    #[verifier::external_body]
    pub(crate) fn new(source: &str) -> (p: Pattern)
        ensures
            p@ == source@,
    {
        Pattern { source: source.to_string(), compiled: Regex::new(source).ok() }
    }

    /// `regex::Regex::is_match`.
    #[verifier::external_body]
    pub(crate) fn is_match(&self, haystack: &str) -> (b: bool)
        ensures
            b == regex_is_match(self@, haystack@),
    {
        self.compiled.as_ref().is_some_and(|re| re.is_match(haystack))
    }

    /// `regex::Regex::captures`, each group taken as its text.
    #[verifier::external_body]
    pub(crate) fn captures(&self, haystack: &str) -> (r: Option<Vec<Option<String>>>)
        ensures
            r is Some <==> regex_captures(self@, haystack@) is Some,
            r matches Some(groups) ==> {
                let spec_groups = regex_captures(self@, haystack@)->0;
                &&& groups@.len() == spec_groups.len()
                &&& forall|i: int|
                    0 <= i < groups@.len() ==> match (#[trigger] groups@[i], spec_groups[i]) {
                        (Some(g), Some(sg)) => g@ == sg,
                        (None, None) => true,
                        _ => false,
                    }
            },
    {
        let re = self.compiled.as_ref()?;
        let caps = re.captures(haystack)?;
        Some(caps.iter().map(|g| g.map(|m| m.as_str().to_string())).collect())
    }

    /// `regex::Regex::replace_all`.
    #[verifier::external_body]
    pub(crate) fn replace_all(&self, haystack: &str, replacement: &str) -> (r: String)
        ensures
            r@ == regex_replace_all(self@, haystack@, replacement@),
    {
        match self.compiled.as_ref() {
            Some(re) => re.replace_all(haystack, replacement).into_owned(),
            None => haystack.to_string(),
        }
    }

    /// `regex::Regex::find_iter`, each match taken as its text.
    #[verifier::external_body]
    pub(crate) fn find_all(&self, haystack: &str) -> (r: Vec<String>)
        ensures
            r@.len() == regex_find_all(self@, haystack@).len(),
            forall|i: int|
                0 <= i < r@.len() ==> #[trigger] r@[i]@ == regex_find_all(self@, haystack@)[i],
    {
        match self.compiled.as_ref() {
            Some(re) => re.find_iter(haystack).map(|m| m.as_str().to_string()).collect(),
            None => Vec::new(),
        }
    }
}

/// The views of a list of pattern sources.
pub open spec fn sources(pats: Seq<&str>) -> Seq<Seq<char>> {
    pats.map_values(|p: &str| p@)
}

/// The views of compiled patterns.
pub open spec fn pattern_views(pats: Seq<Pattern>) -> Seq<Seq<char>> {
    pats.map_values(|p: Pattern| p@)
}

/// Some pattern of `pats` matches `haystack`.
pub open spec fn any_match(pats: Seq<Seq<char>>, haystack: Seq<char>) -> bool {
    exists|i: int| 0 <= i < pats.len() && regex_is_match(#[trigger] pats[i], haystack)
}

/// Compiles each source of `pats`, in order.
pub fn compile_all(pats: &[&str]) -> (out: Vec<Pattern>)
    ensures
        pattern_views(out@) == sources(pats@),
{
    let mut out: Vec<Pattern> = Vec::new();
    for i in 0..pats.len()
        invariant
            out@.len() == i,
            forall|j: int| 0 <= j < i ==> #[trigger] out@[j]@ == pats@[j]@,
    {
        out.push(Pattern::new(pats[i]));
    }
    assert(pattern_views(out@) =~= sources(pats@));
    out
}

/// Whether some pattern of `pats` matches `haystack`.
pub fn any_is_match(pats: &Vec<Pattern>, haystack: &str) -> (b: bool)
    ensures
        b == any_match(pattern_views(pats@), haystack@),
{
    let ghost v = pattern_views(pats@);
    for i in 0..pats.len()
        invariant
            v == pattern_views(pats@),
            forall|j: int| 0 <= j < i ==> !regex_is_match(#[trigger] v[j], haystack@),
    {
        if pats[i].is_match(haystack) {
            assert(regex_is_match(v[i as int], haystack@));
            return true;
        }
    }
    false
}

// ---------- Unicode routines of the standard library ----------

/// `str::to_lowercase`.
pub uninterp spec fn lowercase(s: Seq<char>) -> Seq<char>;

/// `char::is_lowercase`.
pub uninterp spec fn is_lower(c: char) -> bool;

/// `char::is_uppercase`.
pub uninterp spec fn is_upper(c: char) -> bool;

/// `char::is_alphabetic`.
pub uninterp spec fn is_alpha(c: char) -> bool;

/// `char::is_alphanumeric`.
pub uninterp spec fn is_alnum(c: char) -> bool;

/// `c` in ASCII lower case: `A`..`Z` become `a`..`z`, the rest stay.
pub open spec fn ascii_lower_char(c: char) -> char {
    if 'A' <= c <= 'Z' {
        ((c as u32) + 32) as char
    } else {
        c
    }
}

/// `c` in ASCII upper case: `a`..`z` become `A`..`Z`, the rest stay.
pub open spec fn ascii_upper_char(c: char) -> char {
    if 'a' <= c <= 'z' {
        ((c as u32) - 32) as char
    } else {
        c
    }
}

/// `str::to_ascii_lowercase`.
pub open spec fn ascii_lower(s: Seq<char>) -> Seq<char> {
    s.map_values(|c: char| ascii_lower_char(c))
}

/// `str::to_ascii_uppercase`.
pub open spec fn ascii_upper(s: Seq<char>) -> Seq<char> {
    s.map_values(|c: char| ascii_upper_char(c))
}

/// Calls `str::to_lowercase`. Its documentation defines lower case by the
/// Unicode lower-case mapping, which takes `A`..`Z` to `a`..`z` (what
/// `to_ascii_lowercase` does, the documentation of which points to
/// `to_lowercase` for lower-casing ASCII "in addition to" the rest). So the
/// contract states that of ASCII text the result is the ASCII lower case,
/// and that lower-casing the ASCII letters first changes nothing (both
/// cases of an ASCII letter are cased letters, so the context rule for a
/// final sigma sees them alike). Beyond that the result is only named.
#[verifier::external_body]
pub(crate) fn to_lowercase(s: &str) -> (r: String)
    ensures
        r@ == lowercase(s@),
        r@ == lowercase(ascii_lower(s@)),
        is_ascii_chars(s@) ==> r@ == ascii_lower(s@),
{
    s.to_lowercase()
}

/// Calls `char::is_lowercase`.
#[verifier::external_body]
pub(crate) fn char_is_lowercase(c: char) -> (b: bool)
    ensures
        b == is_lower(c),
{
    c.is_lowercase()
}

/// Calls `char::is_uppercase`.
#[verifier::external_body]
pub(crate) fn char_is_uppercase(c: char) -> (b: bool)
    ensures
        b == is_upper(c),
{
    c.is_uppercase()
}

/// Calls `char::is_alphabetic`.
#[verifier::external_body]
pub(crate) fn char_is_alphabetic(c: char) -> (b: bool)
    ensures
        b == is_alpha(c),
{
    c.is_alphabetic()
}

/// Calls `char::is_alphanumeric`.
#[verifier::external_body]
pub(crate) fn char_is_alphanumeric(c: char) -> (b: bool)
    ensures
        b == is_alnum(c),
{
    c.is_alphanumeric()
}

} // verus!
