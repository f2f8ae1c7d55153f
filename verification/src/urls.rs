//! Calls into the `url` crate. A URL is held as its text; each call parses
//! that text with `url::Url::parse` and reads one part of the result.

use vstd::prelude::*;

verus! {

/// Text of `Url::parse(text)` when it succeeds (`Url::as_str`).
pub uninterp spec fn url_parse(text: Seq<char>) -> Option<Seq<char>>;

/// `Url::scheme` of `Url::parse(text)` when it succeeds.
pub uninterp spec fn url_scheme(text: Seq<char>) -> Option<Seq<char>>;

/// `Url::host_str` of `Url::parse(text)`: `None` when parsing fails,
/// `Some(None)` when the URL has no host.
pub uninterp spec fn url_host(text: Seq<char>) -> Option<Option<Seq<char>>>;

/// `Url::path` of `Url::parse(text)` when it succeeds.
pub uninterp spec fn url_path(text: Seq<char>) -> Option<Seq<char>>;

/// The views of an optional string.
pub open spec fn opt_view(o: Option<String>) -> Option<Seq<char>> {
    match o {
        Some(s) => Some(s@),
        None => None,
    }
}

/// Parses `text` with `url::Url::parse` and gives the parsed URL's text
/// (`Url::as_str`), or `None` when `url` rejects it. The contract only names
/// the result: equal texts give equal results.
#[verifier::external_body]
pub(crate) fn parse_url(text: &str) -> (r: Option<String>)
    ensures
        opt_view(r) == url_parse(text@),
{
    url::Url::parse(text).ok().map(|u| u.as_str().to_string())
}

/// Parses `text` with `url::Url::parse` and gives `Url::scheme` of the
/// result, or `None` when `url` rejects it. The contract only names the
/// result.
#[verifier::external_body]
pub(crate) fn scheme_of(text: &str) -> (r: Option<String>)
    ensures
        opt_view(r) == url_scheme(text@),
{
    url::Url::parse(text).ok().map(|u| u.scheme().to_string())
}

/// Parses `text` with `url::Url::parse` and gives `Url::host_str` of the
/// result (`None` inside when the URL has no host), or `None` when `url`
/// rejects it. The contract only names the result.
#[verifier::external_body]
pub(crate) fn host_of(text: &str) -> (r: Option<Option<String>>)
    ensures
        match r {
            Some(h) => url_host(text@) == Some(opt_view(h)),
            None => url_host(text@) is None,
        },
{
    url::Url::parse(text).ok().map(|u| u.host_str().map(|h| h.to_string()))
}

/// Parses `text` with `url::Url::parse` and gives `Url::path` of the
/// result, or `None` when `url` rejects it. The contract only names the
/// result.
#[verifier::external_body]
pub(crate) fn path_of(text: &str) -> (r: Option<String>)
    ensures
        opt_view(r) == url_path(text@),
{
    url::Url::parse(text).ok().map(|u| u.path().to_string())
}

} // verus!
