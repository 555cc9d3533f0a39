//! Optional regex-based trimming of values before escaping: every match of a
//! configured pattern is removed. A pattern that does not compile degrades to
//! "no trimming"; that decision is taken where the pattern is compiled, never
//! inside the merge itself.

use vstd::prelude::*;

verus! {

#[verifier::external_type_specification]
#[verifier::external_body]
pub struct ExRegex(regex::Regex);

/// Whether a pattern is accepted by the regex engine.
pub uninterp spec fn compiles(pattern: Seq<char>) -> bool;

/// What removing every match of `pattern` leaves of `value`.
pub uninterp spec fn trimmed_of(pattern: Seq<char>, value: Seq<u8>) -> Seq<u8>;

/// Relies on regex::Regex::new: whether a pattern compiles depends on the
/// pattern alone.
#[verifier::external_body]
fn regex_new(pattern: &str) -> (r: Option<regex::Regex>)
    ensures
        r.is_some() == compiles(pattern@),
{
    regex::Regex::new(pattern).ok()
}

/// A trimming pattern beside its compiled form. The compiled field is set only
/// by `new`, from the pattern it is stored with.
pub struct Trimmer {
    pattern: String,
    re: regex::Regex,
}

impl Trimmer {
    /// The pattern this trimmer was compiled from.
    pub closed spec fn pattern_view(&self) -> Seq<char> {
        self.pattern@
    }

    /// Compiles a trimming pattern; `None` when the engine rejects it.
    pub fn new(pattern: String) -> (r: Option<Trimmer>)
        ensures
            r.is_some() == compiles(pattern@),
            r matches Some(t) ==> t.pattern_view() == pattern@,
    {
        match regex_new(pattern.as_str()) {
            Some(re) => Some(Trimmer { pattern, re }),
            None => None,
        }
    }

    /// Relies on regex::Regex::replace_all with an empty replacement: removes
    /// every match of the pattern; for one pattern the result is a function of
    /// the input alone (a value that is not valid UTF-8 is returned unchanged,
    /// which is likewise a function of the input).
    #[verifier::external_body]
    pub fn remove_matches(&self, value: &Vec<u8>) -> (r: Vec<u8>)
        ensures
            r@ == trimmed_of(self.pattern_view(), value@),
    {
        match core::str::from_utf8(value.as_slice()) {
            Ok(s) => self.re.replace_all(s, "").into_owned().into_bytes(),
            Err(_) => value.clone(),
        }
    }
}

/// The trim step of the policy: the pattern's matches are removed when a
/// compiled pattern is at hand, otherwise the value stands.
pub open spec fn apply_trim(trim: Option<Seq<char>>, v: Seq<u8>) -> Seq<u8> {
    match trim {
        Option::None => v,
        Option::Some(p) => trimmed_of(p, v),
    }
}

/// The pattern carried by an optional trimmer.
pub open spec fn trim_view(t: Option<Trimmer>) -> Option<Seq<char>> {
    match t {
        Option::None => Option::None,
        Option::Some(tr) => Option::Some(tr.pattern_view()),
    }
}

/// Trimming through an optional trimmer.
pub fn trim_value(trimmer: &Option<Trimmer>, value: &Vec<u8>) -> (r: Vec<u8>)
    ensures
        r@ == apply_trim(trim_view(*trimmer), value@),
{
    match trimmer {
        Option::Some(t) => t.remove_matches(value),
        Option::None => crate::kvmap::clone_bytes(value),
    }
}

} // verus!
