//! Thin trusted boundary around the outside crates and the few string
//! conversions that the library needs from std.

use vstd::prelude::*;

verus! {

/// Whether `regex::Regex::new` accepts a pattern: compilation succeeds or
/// fails as a function of the pattern text alone.
pub uninterp spec fn regex_ok(pattern: Seq<char>) -> bool;

/// What `regex::Regex::is_match` returns for a compiled pattern and a
/// haystack: a function of the two texts alone.
pub uninterp spec fn regex_hit(pattern: Seq<char>, haystack: Seq<char>) -> bool;

#[verifier::external_type_specification]
#[verifier::external_body]
pub struct ExRegex(regex::Regex);

/// A compiled character-class pattern together with its source text.
/// Values are built by `compile_char_class` alone, so the compiled
/// automaton always belongs to the stored pattern.
pub struct CharClassMatcher {
    pattern: String,
    matcher: regex::Regex,
}

impl CharClassMatcher {
    /// The pattern text this matcher was compiled from.
    pub closed spec fn pattern_chars(self) -> Seq<char> {
        self.pattern@
    }

    /// Whether this matcher was compiled from exactly the given pattern.
    pub fn pattern_is(&self, s: &String) -> (r: bool)
        ensures
            r == (self.pattern_chars() == s@),
    {
        self.pattern.eq(s)
    }
}

/// Relies on `regex::Regex::new`: it returns `Ok` exactly when the pattern
/// is a valid regular expression within the default size limit, and the
/// outcome depends on the pattern text alone.
#[verifier::external_body]
pub fn compile_char_class(pattern: String) -> (r: Option<CharClassMatcher>)
    ensures
        r is Some <==> regex_ok(pattern@),
        r matches Some(m) ==> m.pattern_chars() == pattern@,
{
    match regex::Regex::new(pattern.as_str()) {
        Ok(matcher) => Some(CharClassMatcher { pattern, matcher }),
        Err(_) => None,
    }
}

/// Relies on `regex::Regex::is_match`: whether the regex matches anywhere
/// in the haystack, a deterministic function of pattern and haystack.
#[verifier::external_body]
pub fn char_class_is_match(m: &CharClassMatcher, target: &String) -> (r: bool)
    ensures
        r == regex_hit(m.pattern_chars(), target@),
{
    m.matcher.is_match(target.as_str())
}

/// Relies on `uuid::Uuid::new_v4` for fresh identifiers. The value is
/// random, so nothing is promised of it.
#[verifier::external_body]
pub fn fresh_uuid() -> u128 {
    uuid::Uuid::new_v4().as_u128()
}

/// Relies on `str::chars`: iterating a string yields exactly the character
/// sequence that its view describes.
#[verifier::external_body]
pub fn string_to_chars(s: &String) -> (r: Vec<char>)
    ensures
        r@ == s@,
{
    s.chars().collect()
}

/// Relies on `String`'s `FromIterator<char>`: collecting characters builds
/// the string holding exactly those characters.
#[verifier::external_body]
pub fn chars_to_string(v: &Vec<char>) -> (r: String)
    ensures
        r@ == v@,
{
    v.iter().collect()
}

} // verus!
