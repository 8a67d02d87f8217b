//! What the library reads out of URLs. Parsing a URL is deterministic in
//! its text, so each result is a named function of the input characters;
//! the url crate computes it.
use vstd::prelude::*;

verus! {

/// The domain of the URL a text holds, if the text parses as a URL with a
/// domain host.
pub uninterp spec fn url_domain_of(s: Seq<char>) -> Option<Seq<char>>;

/// The last path segment of the URL a text holds, if the text parses as a
/// URL whose path has segments.
pub uninterp spec fn url_last_segment_of(s: Seq<char>) -> Option<Seq<char>>;

/// Relies on url::Url::parse and url::Url::domain: the domain of the URL
/// the text holds, a pure function of the text.
#[verifier::external_body]
pub(crate) fn url_domain(s: &str) -> (r: Option<String>)
    ensures
        crate::map_entry::opt_string_view(&r) == url_domain_of(s@),
{
    match url::Url::parse(s) {
        Ok(u) => u.domain().map(|d| d.to_string()),
        Err(_) => None,
    }
}

/// Relies on url::Url::parse and url::Url::path_segments: the last path
/// segment of the URL the text holds, a pure function of the text.
#[verifier::external_body]
pub(crate) fn url_last_path_segment(s: &str) -> (r: Option<String>)
    ensures
        crate::map_entry::opt_string_view(&r) == url_last_segment_of(s@),
{
    match url::Url::parse(s) {
        Ok(u) => u.path_segments().and_then(|mut it| it.next_back()).map(|d| d.to_string()),
        Err(_) => None,
    }
}

} // verus!
