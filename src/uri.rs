//! The target URI, an opaque value of `hyper` carried through the engine.
use vstd::prelude::*;

use hyper::Uri;
use std::str::FromStr;

verus! {

#[verifier::external_type_specification]
#[verifier::external_body]
pub struct ExUri(Uri);

/// Relies on `<hyper::Uri as Clone>::clone`, derived field by field: the
/// copy is the same URI.
pub assume_specification[ <Uri as Clone>::clone ](u: &Uri) -> (r: Uri)
    ensures
        r == *u,
;

/// Whether `hyper::Uri::from_str` accepts the text `s`; the outcome depends on
/// the characters alone.
pub uninterp spec fn uri_parses(s: Seq<char>) -> bool;

/// Relies on `hyper::Uri::from_str` (`Uri::try_from` on the bytes of `s`),
/// which either parses the text or returns `InvalidUri`.
#[verifier::external_body]
fn parse_uri(s: &str) -> (r: Option<Uri>)
    ensures
        r.is_some() == uri_parses(s@),
{
    Uri::from_str(s).ok()
}

/// Why a target could not be used.
#[derive(Debug, PartialEq, Eq)]
pub struct UnparsableUri {
    pub text: String,
}

/// Parses the benchmark target. It succeeds exactly on the texts that
/// `hyper::Uri` accepts; otherwise the error keeps the offending text.
pub fn build_uri(s: &String) -> (r: Result<Uri, UnparsableUri>)
    ensures
        r.is_ok() == uri_parses(s@),
        r matches Err(e) ==> e.text@ == s@,
{
    match parse_uri(s.as_str()) {
        Some(u) => Ok(u),
        None => Err(UnparsableUri { text: s.clone() }),
    }
}

} // verus!
