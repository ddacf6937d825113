//! Auto-hide rules.

use regex::Regex;

use vstd::prelude::*;

use crate::path::{file_name, file_name_of};
use crate::persist::index_of_path;
use crate::text::{opt_string, strings};

verus! {

/// A compiled regular expression.
#[verifier::external_type_specification]
#[verifier::external_body]
pub struct ExRegex(regex::Regex);

/// What `regex::Regex::new` makes of a pattern: an expression, or what is wrong with
/// the pattern.
pub uninterp spec fn regex_of(pattern: Seq<char>) -> Result<Regex, Seq<char>>;

/// Whether an expression matches somewhere in `text`.
pub uninterp spec fn regex_finds(re: Regex, text: Seq<char>) -> bool;

/// `regex::Regex::new`, which depends on the pattern alone. Which patterns are valid,
/// and what the message says, is not stated.
#[verifier::external_body]
fn compile(pattern: &str) -> (r: Result<Regex, String>)
    ensures
        (match r {
            Ok(re) => Ok(re),
            Err(e) => Err(e@),
        }) == regex_of(pattern@),
{
    Regex::new(pattern).map_err(|e| e.to_string())
}

/// `regex::Regex::is_match`, which depends on the expression and the text alone. What
/// an expression matches is not stated.
#[verifier::external_body]
fn is_match(re: &Regex, text: &str) -> (r: bool)
    ensures
        r == regex_finds(*re, text@),
{
    re.is_match(text)
}

/// What is wrong with a regular expression; none where it is a valid one.
pub open spec fn regex_error(pattern: Seq<char>) -> Option<Seq<char>> {
    match regex_of(pattern) {
        Ok(_) => None,
        Err(e) => Some(e),
    }
}

/// Whether `pattern` is a valid regular expression that matches somewhere in
/// `text`.
pub open spec fn regex_matches(pattern: Seq<char>, text: Seq<char>) -> bool {
    match regex_of(pattern) {
        Ok(re) => regex_finds(re, text),
        Err(_) => false,
    }
}

/// What is wrong with `pattern`, if anything.
pub(crate) fn pattern_error(pattern: &str) -> (r: Option<String>)
    ensures
        opt_string(r) == regex_error(pattern@),
{
    match compile(pattern) {
        Ok(_) => None,
        Err(e) => Some(e),
    }
}

/// Whether the expression that `pattern` writes matches anywhere in `text`; an
/// invalid one matches nothing.
fn pattern_matches(pattern: &str, text: &str) -> (r: bool)
    ensures
        r == regex_matches(pattern@, text@),
{
    match compile(pattern) {
        Ok(re) => is_match(&re, text),
        Err(_) => false,
    }
}

/// Auto-hide rules from `[hide]`. Empty by default.
#[derive(Debug)]
pub struct HideRules {
    /// Names or paths that are hidden.
    pub names: Vec<String>,
    /// Regular expressions over paths.
    pub patterns: Vec<String>,
}

/// Auto-hide rules as a mathematical value.
#[verifier::ext_equal]
pub struct HideModel {
    pub names: Seq<Seq<char>>,
    pub patterns: Seq<Seq<char>>,
}

impl View for HideRules {
    type V = HideModel;

    open spec fn view(&self) -> HideModel {
        HideModel { names: strings(self.names@), patterns: strings(self.patterns@) }
    }
}

/// A name is the full path or its last component.
pub open spec fn name_matches(names: Seq<Seq<char>>, path: Seq<char>) -> bool {
    names.contains(path) || (file_name_of(path) is Some && names.contains(file_name_of(path)->0))
}

impl HideModel {
    /// Whether the rules hide `path`.
    pub open spec fn hides(self, path: Seq<char>) -> bool {
        name_matches(self.names, path) || exists|i: int|
            0 <= i < self.patterns.len() && regex_matches(#[trigger] self.patterns[i], path)
    }
}

/// No rules.
pub open spec fn no_rules() -> HideModel {
    HideModel { names: Seq::empty(), patterns: Seq::empty() }
}

/// Whether one of `names` is `path` or its last component.
pub fn matches_name(names: &Vec<String>, path: &str) -> (r: bool)
    ensures
        r == name_matches(strings(names@), path@),
{
    if index_of_path(names, path).is_some() {
        return true;
    }
    match file_name(path) {
        Some(name) => index_of_path(names, name.as_str()).is_some(),
        None => false,
    }
}

impl HideRules {
    /// Whether `path` (repository-relative) should be auto-hidden: an exact match
    /// on the full path or its final component, or any regex matching the path.
    pub fn matches(&self, path: &str) -> (r: bool)
        ensures
            r == self@.hides(path@),
    {
        if matches_name(&self.names, path) {
            return true;
        }
        let n = self.patterns.len();
        for i in 0..n
            invariant
                n == self.patterns@.len(),
                !name_matches(self@.names, path@),
                forall|j: int| 0 <= j < i ==> !regex_matches(#[trigger] self@.patterns[j], path@),
        {
            assert(self@.patterns[i as int] == self.patterns@[i as int]@);
            if pattern_matches(self.patterns[i].as_str(), path) {
                assert(regex_matches(self@.patterns[i as int], path@));
                return true;
            }
        }
        false
    }
}

impl Default for HideRules {
    fn default() -> (r: Self)
        ensures
            r@ == no_rules(),
    {
        let r = HideRules { names: Vec::new(), patterns: Vec::new() };
        assert(r@ =~= no_rules());
        r
    }
}

} // verus!
