use vstd::prelude::*;
use crate::header::FieldPath;
use crate::header::header_read;
use crate::header::spec_read;
use crate::value::SpecValue;
use crate::value::Value;
use crate::value::value_eq;

verus! {

/// Whether `pattern` is a well-formed regular expression; a fact of the
/// pattern alone.
pub uninterp spec fn regex_valid(pattern: Seq<char>) -> bool;

/// Whether `pattern` matches somewhere inside `text`; a fact of the two
/// alone.
pub uninterp spec fn regex_match(pattern: Seq<char>, text: Seq<char>) -> bool;

/// Relies on regex::Regex::new and regex::Regex::is_match: whether a
/// pattern compiles depends on the pattern alone, and whether a compiled
/// pattern matches somewhere in a text (a search, not an anchored match)
/// depends on pattern and text alone.
#[verifier::external_body]
fn regex_search(pattern: &str, text: &str) -> (r: Option<bool>)
    ensures
        (r is Some) == regex_valid(pattern@),
        r matches Some(b) ==> b == regex_match(pattern@, text@),
{
    match regex::Regex::new(pattern) {
        Ok(re) => Some(re.is_match(text)),
        Err(_) => None,
    }
}

/// One materialized entry, as the filter engine sees it: filters never
/// touch the store.
#[derive(Debug)]
pub struct Entry {
    pub id: String,
    pub version: String,
    pub header: Value,
    pub content: Vec<u8>,
}

/// A composable read-only predicate over a materialized entry: a closed
/// expression tree of field tests under boolean combinators.
#[derive(Debug)]
pub enum FilterPredicate {
    /// The value under the path equals the given value.
    FieldEquals(FieldPath, Value),
    /// The string under the path contains a match of the pattern.
    FieldRegexMatch(FieldPath, String),
    And(Box<FilterPredicate>, Box<FilterPredicate>),
    Or(Box<FilterPredicate>, Box<FilterPredicate>),
    Not(Box<FilterPredicate>),
}

/// What a predicate says of a header document.  Total: a missing path, a
/// value of the wrong shape, or a malformed pattern is `false`, never a
/// fault.
pub open spec fn spec_filter_eval(p: FilterPredicate, header: SpecValue) -> bool
    decreases p,
{
    match p {
        FilterPredicate::FieldEquals(path, v) => spec_read(header, path@) == Some(v@),
        FilterPredicate::FieldRegexMatch(path, pattern) => match spec_read(header, path@) {
            Some(found) => match found {
                SpecValue::Text(s) => regex_valid(pattern@) && regex_match(pattern@, s),
                _ => false,
            },
            None => false,
        },
        FilterPredicate::And(l, r) => spec_filter_eval(*l, header) && spec_filter_eval(*r, header),
        FilterPredicate::Or(l, r) => spec_filter_eval(*l, header) || spec_filter_eval(*r, header),
        FilterPredicate::Not(inner) => !spec_filter_eval(*inner, header),
    }
}

impl FilterPredicate {
    /// Evaluates the predicate against an entry's header.  Total over
    /// every entry and every tree: no input makes it fail.
    pub fn matches(&self, e: &Entry) -> (r: bool)
        ensures
            r == spec_filter_eval(*self, e.header@),
        decreases *self,
    {
        match self {
            FilterPredicate::FieldEquals(path, v) => match header_read(&e.header, path) {
                Some(found) => value_eq(found, v),
                None => false,
            },
            FilterPredicate::FieldRegexMatch(path, pattern) => match header_read(
                &e.header,
                path,
            ) {
                Some(found) => match found {
                    Value::Text(s) => match regex_search(pattern.as_str(), s.as_str()) {
                        Some(b) => b,
                        None => false,
                    },
                    _ => false,
                },
                None => false,
            },
            FilterPredicate::And(l, r) => l.matches(e) && r.matches(e),
            FilterPredicate::Or(l, r) => l.matches(e) || r.matches(e),
            FilterPredicate::Not(inner) => !inner.matches(e),
        }
    }
}

/// Filter totality at the miss: a field regex match over a header where
/// the path resolves to nothing is `false` — never an error.
pub proof fn lemma_filter_totality(path: FieldPath, pattern: String, header: SpecValue)
    requires
        spec_read(header, path@) is None,
    ensures
        !spec_filter_eval(FilterPredicate::FieldRegexMatch(path, pattern), header),
{
}

} // verus!
