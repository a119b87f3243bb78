//! The keep-list matcher: an optional compiled set of patterns over an
//! image's "repository:tag" names. An image with a matching name is
//! protected from eviction. The patterns are compiled once, at startup.

use vstd::prelude::*;
use crate::config::ConfigError;

verus! {

/// A compiled set of regular expressions (declaration of the outside type).
#[verifier::external_type_specification]
#[verifier::external_body]
pub struct ExRegexSet(regex::RegexSet);

/// An error from compiling a regular expression (declaration of the outside
/// type).
#[verifier::external_type_specification]
#[verifier::external_body]
pub struct ExRegexError(regex::Error);

/// Whether every pattern in the sequence is valid regular-expression
/// syntax, as `regex::RegexSet::new` decides it.
pub uninterp spec fn patterns_valid(patterns: Seq<Seq<char>>) -> bool;

/// Whether at least one of the patterns matches the text, as
/// `regex::RegexSet::is_match` decides it for a set compiled from exactly
/// those patterns.
pub uninterp spec fn any_match(patterns: Seq<Seq<char>>, text: Seq<char>) -> bool;

/// An optional set of protection patterns, compiled from configuration.
pub struct KeepSpec {
    patterns: Vec<String>,
    set: regex::RegexSet,
}

/// Whether some name in `names` matches some pattern in `patterns`.
pub open spec fn spec_protected(patterns: Seq<Seq<char>>, names: Seq<Seq<char>>) -> bool {
    exists|i: int| 0 <= i < names.len() && any_match(patterns, names[i])
}

/// Whether the optional keep set protects an image with the given names:
/// true only when a keep set is configured and some name matches.
pub open spec fn protected_by(keep: &Option<KeepSpec>, names: Seq<Seq<char>>) -> bool {
    match keep {
        Some(k) => spec_protected(k@, names),
        None => false,
    }
}

impl View for KeepSpec {
    type V = Seq<Seq<char>>;

    closed spec fn view(&self) -> Seq<Seq<char>> {
        self.patterns.deep_view()
    }
}

impl KeepSpec {
    /// Relies on `regex::RegexSet::new`: builds the compiled set from the
    /// given patterns, and returns an error exactly when some pattern is
    /// not valid regular-expression syntax.
    #[verifier::external_body]
    fn compile(patterns: &Vec<String>) -> (r: Result<regex::RegexSet, regex::Error>)
        ensures
            r is Ok <==> patterns_valid(patterns.deep_view()),
    {
        regex::RegexSet::new(patterns.iter())
    }

    /// Compile the configured patterns; fails exactly when some pattern is
    /// not valid regular-expression syntax.
    pub fn new(patterns: Vec<String>) -> (r: Result<KeepSpec, ConfigError>)
        ensures
            match r {
                Ok(k) => k@ == patterns.deep_view() && patterns_valid(patterns.deep_view()),
                Err(e) => e == ConfigError::BadKeepPattern && !patterns_valid(
                    patterns.deep_view(),
                ),
            },
    {
        match Self::compile(&patterns) {
            Ok(set) => Ok(KeepSpec { patterns, set }),
            Err(_) => Err(ConfigError::BadKeepPattern),
        }
    }

    /// Relies on `regex::RegexSet::is_match`: whether any pattern of the
    /// set matches the text. The set held here is always the one compiled
    /// from `self.patterns`, so the result is a function of the patterns
    /// and the text alone.
    #[verifier::external_body]
    fn matches_name(&self, name: &str) -> (r: bool)
        ensures
            r == any_match(self@, name@),
    {
        self.set.is_match(name)
    }

    /// Whether some of the given names matches some configured pattern.
    pub fn is_protected(&self, names: &Vec<String>) -> (r: bool)
        ensures
            r == spec_protected(self@, names.deep_view()),
    {
        let mut i: usize = 0;
        while i < names.len()
            invariant
                i <= names@.len(),
                forall|k: int| 0 <= k < i ==> !any_match(self@, names.deep_view()[k]),
            decreases names@.len() - i,
        {
            if self.matches_name(names[i].as_str()) {
                proof {
                    assert(names.deep_view()[i as int] == names@[i as int]@);
                }
                return true;
            }
            i += 1;
        }
        false
    }
}

/// Whether the optional keep set protects an image with the given names.
pub fn opt_protected(keep: &Option<KeepSpec>, names: &Vec<String>) -> (r: bool)
    ensures
        r == protected_by(keep, names.deep_view()),
{
    match keep {
        Some(k) => k.is_protected(names),
        None => false,
    }
}

} // verus!
