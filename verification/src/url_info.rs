//! Enrichment metadata for a shortened address: the content type, title,
//! description and preview image drawn from the fetched page. Fetching
//! is left to the caller; this module decides what the fetched bytes
//! yield.

use vstd::prelude::*;
use crate::text::{spec_take, str_starts_with, trim_spec, trim_str, truncate_chars};

verus! {

/// The metadata attached to a link at creation, each field independently
/// absent-capable.
pub struct UrlDetails {
    pub content_type: Option<String>,
    pub title: Option<String>,
    pub description: Option<String>,
    pub image: Option<String>,
}

impl Default for UrlDetails {
    /// No metadata at all: what a failed fetch yields.
    fn default() -> (r: UrlDetails)
        ensures
            r.content_type is None,
            r.title is None,
            r.description is None,
            r.image is None,
    {
        UrlDetails { content_type: None, title: None, description: None, image: None }
    }
}

/// The inner HTML of the first element of the document that the CSS
/// selector matches, as scraper's parser sees it.
pub uninterp spec fn first_inner_html_of(doc: Seq<char>, sel: Seq<char>) -> Option<Seq<char>>;

/// Relies on scraper's `Html::parse_document`, `Selector::parse`,
/// `Html::select` and `ElementRef::inner_html`: the result depends on
/// the document and selector text alone.
#[verifier::external_body]
fn select_first_inner_html(doc: &str, sel: &str) -> (r: Option<String>)
    ensures
        match r {
            Some(s) => first_inner_html_of(doc@, sel@) == Some(s@),
            None => first_inner_html_of(doc@, sel@) is None,
        },
{
    let selector = match scraper::Selector::parse(sel) {
        Ok(s) => s,
        Err(_) => {
            return None;
        },
    };
    let document = scraper::Html::parse_document(doc);
    document.select(&selector).next().map(|e| e.inner_html())
}

/// The named attribute of the first element of the document that the
/// CSS selector matches: `None` when no element matches, `Some(None)`
/// when one matches without the attribute.
pub uninterp spec fn first_attr_of(doc: Seq<char>, sel: Seq<char>, attr: Seq<char>) -> Option<
    Option<Seq<char>>,
>;

/// Relies on scraper's `Html::parse_document`, `Selector::parse`,
/// `Html::select` and `Element::attr`: the result depends on the three
/// strings alone.
#[verifier::external_body]
fn select_first_attr(doc: &str, sel: &str, attr: &str) -> (r: Option<Option<String>>)
    ensures
        match r {
            Some(a) => match a {
                Some(s) => first_attr_of(doc@, sel@, attr@) == Some(Some(s@)),
                None => first_attr_of(doc@, sel@, attr@) == Some(None::<Seq<char>>),
            },
            None => first_attr_of(doc@, sel@, attr@) is None,
        },
{
    let selector = match scraper::Selector::parse(sel) {
        Ok(s) => s,
        Err(_) => {
            return None;
        },
    };
    let document = scraper::Html::parse_document(doc);
    document.select(&selector).next().map(
        |e| e.value().attr(attr).map(|s| s.to_string()),
    )
}

/// The absolute URL that a base address and a possibly-relative
/// reference resolve to, or `None` when they do not resolve.
pub uninterp spec fn joined_url_of(base: Seq<char>, rel: Seq<char>) -> Option<Seq<char>>;

/// Relies on `url::Url::parse` and `Url::join`: the resolved address
/// depends on the two strings alone.
#[verifier::external_body]
fn join_url(base: &str, rel: &str) -> (r: Option<String>)
    ensures
        match r {
            Some(s) => joined_url_of(base@, rel@) == Some(s@),
            None => joined_url_of(base@, rel@) is None,
        },
{
    match url::Url::parse(base) {
        Ok(b) => match b.join(rel) {
            Ok(u) => Some(u.to_string()),
            Err(_) => None,
        },
        Err(_) => None,
    }
}

/// The content type stored for a page: the header value cut to 32
/// characters.
pub open spec fn spec_content_type(header: Option<String>) -> Option<Seq<char>> {
    match header {
        Some(h) => Some(spec_take(h@, 32)),
        None => None,
    }
}

/// Whether the page is HTML worth scanning: the stored content type
/// starts with `text/html`.
pub open spec fn spec_is_html(header: Option<String>) -> bool {
    match spec_content_type(header) {
        Some(ct) => crate::text::spec_starts_with(ct, "text/html"@),
        None => false,
    }
}

/// The title stored for an HTML page: the first `head > title` element,
/// trimmed and cut to 256 characters.
pub open spec fn spec_page_title(body: Seq<char>) -> Option<Seq<char>> {
    match first_inner_html_of(body, "head > title"@) {
        Some(t) => Some(spec_take(trim_spec(t), 256)),
        None => None,
    }
}

/// The description stored for an HTML page: the `content` attribute of
/// the first `head > meta[name=description]` element, cut to 256
/// characters.
pub open spec fn spec_page_description(body: Seq<char>) -> Option<Seq<char>> {
    match first_attr_of(body, "head > meta[name=description]"@, "content"@) {
        Some(Some(d)) => Some(spec_take(d, 256)),
        _ => None,
    }
}

/// The preview image stored for an HTML page: the Open Graph image cut
/// to 512 characters when the page names one; otherwise the source of
/// the first image in the body, resolved against the page address.
pub open spec fn spec_page_image(url: Seq<char>, body: Seq<char>) -> Option<Seq<char>> {
    match first_attr_of(body, "head > meta[property='og:image']"@, "content"@) {
        Some(Some(im)) => Some(spec_take(im, 512)),
        Some(None) => None,
        None => match first_attr_of(body, "body * img"@, "src"@) {
            Some(Some(src)) => joined_url_of(url, src),
            _ => None,
        },
    }
}

impl UrlDetails {
    /// What a fetched page yields: the content type is kept for every
    /// page, and the title, description and image are read only from an
    /// HTML body.
    pub fn from_page(url: &str, content_type: Option<String>, body: Option<&str>) -> (r:
        UrlDetails)
        ensures
            match spec_content_type(content_type) {
                Some(ct) => r.content_type matches Some(c) && c@ == ct,
                None => r.content_type is None,
            },
            spec_is_html(content_type) && body is Some ==> {
                let b = body.unwrap()@;
                &&& match spec_page_title(b) {
                    Some(t) => r.title matches Some(x) && x@ == t,
                    None => r.title is None,
                }
                &&& match spec_page_description(b) {
                    Some(d) => r.description matches Some(x) && x@ == d,
                    None => r.description is None,
                }
                &&& match spec_page_image(url@, b) {
                    Some(im) => r.image matches Some(x) && x@ == im,
                    None => r.image is None,
                }
            },
            !(spec_is_html(content_type) && body is Some) ==> r.title is None && r.description
                is None && r.image is None,
    {
        let truncated_ct: Option<String> = match &content_type {
            Some(h) => Some(truncate_chars(h.as_str(), 32)),
            None => None,
        };
        let is_html = match &truncated_ct {
            Some(ct) => str_starts_with(ct.as_str(), "text/html"),
            None => false,
        };
        proof {
            assert(is_html == spec_is_html(content_type));
        }
        let mut title: Option<String> = None;
        let mut description: Option<String> = None;
        let mut image: Option<String> = None;
        if is_html {
            if let Some(html_body) = body {
                match select_first_inner_html(html_body, "head > title") {
                    Some(t) => {
                        let trimmed = trim_str(t.as_str());
                        title = Some(truncate_chars(trimmed, 256));
                    },
                    None => {},
                }
                match select_first_attr(html_body, "head > meta[name=description]", "content") {
                    Some(Some(d)) => {
                        description = Some(truncate_chars(d.as_str(), 256));
                    },
                    _ => {},
                }
                match select_first_attr(
                    html_body,
                    "head > meta[property='og:image']",
                    "content",
                ) {
                    Some(Some(im)) => {
                        image = Some(truncate_chars(im.as_str(), 512));
                    },
                    Some(None) => {},
                    None => {
                        match select_first_attr(html_body, "body * img", "src") {
                            Some(Some(src)) => {
                                image = join_url(url, src.as_str());
                            },
                            _ => {},
                        }
                    },
                }
            }
        }
        UrlDetails { content_type: truncated_ct, title, description, image }
    }
}

} // verus!
