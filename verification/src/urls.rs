//! URL normalization and validation: a submitted address is canonicalized
//! to an `http://` or `https://` form and checked to parse with such a
//! scheme and a host.

use vstd::prelude::*;
use crate::text::{drop_leading, spec_starts_with, str_eq, str_starts_with, strip_leading_char};

verus! {

/// The canonical form of a submitted address: left alone when it already
/// starts with `http://` or `https://`, otherwise `https://` is put in
/// front of it with its leading slashes removed.
pub open spec fn spec_normalize_url(s: Seq<char>) -> Seq<char> {
    if spec_starts_with(s, "http://"@) || spec_starts_with(s, "https://"@) {
        s
    } else {
        "https://"@ + drop_leading(s, '/')
    }
}

/// What `url::Url::parse` extracts from a string: the scheme and whether
/// a host is present, or `None` when the string does not parse.
pub uninterp spec fn url_parts_of(s: Seq<char>) -> Option<(Seq<char>, bool)>;

/// Relies on `url::Url::parse`, `Url::scheme` and `Url::host_str`: what
/// they return depends on the input characters alone.
#[verifier::external_body]
fn parse_url_parts(s: &str) -> (r: Option<(String, bool)>)
    ensures
        match r {
            Some(p) => url_parts_of(s@) == Some((p.0@, p.1)),
            None => url_parts_of(s@) is None,
        },
{
    match url::Url::parse(s) {
        Ok(u) => Some((u.scheme().to_string(), u.host_str().is_some())),
        Err(_) => None,
    }
}

/// A canonicalized address is acceptable when it parses as a URL whose
/// scheme is exactly `http` or `https` and which names a host.
pub open spec fn spec_is_valid_url(u: Seq<char>) -> bool {
    match url_parts_of(spec_normalize_url(u)) {
        Some(p) => (p.0 == "http"@ || p.0 == "https"@) && p.1,
        None => false,
    }
}

/// Canonicalize a submitted address.
pub fn normalize_url(url: &str) -> (r: String)
    ensures
        r@ == spec_normalize_url(url@),
{
    if str_starts_with(url, "http://") || str_starts_with(url, "https://") {
        url.to_owned()
    } else {
        let stripped = strip_leading_char(url, '/');
        let mut r = String::from_str("https://");
        r.append(stripped);
        r
    }
}

/// Check a submitted address: canonicalize it, then ask the URL parser
/// for its scheme and host.
pub fn is_valid_url(url: &str) -> (r: bool)
    ensures
        r == spec_is_valid_url(url@),
{
    let normalized = normalize_url(url);
    match parse_url_parts(normalized.as_str()) {
        Some(p) => (str_eq(p.0.as_str(), "http") || str_eq(p.0.as_str(), "https")) && p.1,
        None => false,
    }
}

/// A request to shorten one submitted address.
#[derive(Debug)]
pub struct ShortenUrlRequest {
    pub url_to_shorten: String,
}

impl ShortenUrlRequest {
    /// Accept the request when its address is valid, and reject it
    /// otherwise.
    pub fn validate(self) -> (r: Result<Self, String>)
        ensures
            spec_is_valid_url(self.url_to_shorten@) ==> r == Ok::<ShortenUrlRequest, String>(
                self,
            ),
            !spec_is_valid_url(self.url_to_shorten@) ==> (r matches Err(m) && m@
                == "Invalid URL Provided"@),
    {
        if !is_valid_url(self.url_to_shorten.as_str()) {
            return Err("Invalid URL Provided".to_owned());
        }
        Ok(self)
    }
}

/// Canonicalization keeps an address that already names its scheme, and
/// otherwise prepends `https://` to the address with its leading slashes
/// removed.
pub proof fn lemma_normalize_url_cases(s: Seq<char>)
    ensures
        (spec_starts_with(s, "http://"@) || spec_starts_with(s, "https://"@))
            ==> spec_normalize_url(s) == s,
        !(spec_starts_with(s, "http://"@) || spec_starts_with(s, "https://"@))
            ==> spec_normalize_url(s) == "https://"@ + drop_leading(s, '/'),
{
}

/// A canonicalized address always names one of the two accepted
/// schemes in its text: it starts with `http://` or `https://`. An
/// address with any other scheme, `ftp://` among them, never comes out
/// of canonicalization, so validation rejects an address only for what
/// the parser finds in it, host and shape, never for that prefix.
pub proof fn lemma_normalize_url_schemed(s: Seq<char>)
    ensures
        spec_starts_with(spec_normalize_url(s), "http://"@) || spec_starts_with(
            spec_normalize_url(s),
            "https://"@,
        ),
{
    if spec_starts_with(s, "http://"@) || spec_starts_with(s, "https://"@) {
    } else {
        let r = "https://"@ + drop_leading(s, '/');
        assert(r.subrange(0, "https://"@.len() as int) =~= "https://"@);
    }
}

/// Canonicalization is idempotent: applying it twice gives the same
/// address as applying it once.
pub proof fn lemma_normalize_url_idempotent(s: Seq<char>)
    ensures
        spec_normalize_url(spec_normalize_url(s)) == spec_normalize_url(s),
{
    if spec_starts_with(s, "http://"@) || spec_starts_with(s, "https://"@) {
    } else {
        let r = "https://"@ + drop_leading(s, '/');
        assert(r.subrange(0, "https://"@.len() as int) =~= "https://"@);
        assert(spec_starts_with(r, "https://"@));
    }
}

} // verus!
