//! The stored shape of a link record: a row of optionally-present string
//! and number attributes keyed by the link identifier, and the parsed
//! record it yields when every required attribute is present and well
//! formed.

use vstd::prelude::*;
use crate::text::{parse_i64_spec, parse_u32_spec, parse_i64_str, parse_u32_str};

verus! {

/// A stored attribute: a string value or a number kept in decimal text,
/// as the backing table keeps them.
pub enum AttrValue {
    S(String),
    N(String),
}

/// One stored row of the link table. Only the key is guaranteed; every
/// other attribute may be absent or of the wrong kind, and reading a row
/// checks each one.
pub struct Item {
    pub link_id: String,
    pub original_link: Option<AttrValue>,
    pub clicks: Option<AttrValue>,
    pub title: Option<AttrValue>,
    pub description: Option<AttrValue>,
    pub content_type: Option<AttrValue>,
    pub image: Option<AttrValue>,
    pub timestamp: Option<AttrValue>,
}

/// A parsed link record.
#[derive(Debug)]
pub struct ShortUrl {
    pub link_id: String,
    pub original_link: String,
    pub clicks: u32,
    pub title: Option<String>,
    pub description: Option<String>,
    pub content_type: Option<String>,
    pub image: Option<String>,
    pub timestamp: i64,
}

/// The string an optional attribute holds, if it holds one.
pub open spec fn attr_s_opt(a: Option<AttrValue>) -> Option<String> {
    match a {
        Some(AttrValue::S(s)) => Some(s),
        _ => None,
    }
}

/// The timestamp a row carries, when its attribute is a well-formed
/// number.
pub open spec fn item_timestamp(item: Item) -> Option<i64> {
    match item.timestamp {
        Some(AttrValue::N(n)) => parse_i64_spec(n@),
        _ => None,
    }
}

/// The click count a row carries, when its attribute is a well-formed
/// number.
pub open spec fn item_clicks(item: Item) -> Option<u32> {
    match item.clicks {
        Some(AttrValue::N(n)) => parse_u32_spec(n@),
        _ => None,
    }
}

/// The record a stored row parses to: present exactly when the target
/// address is a string, the click count is a number that fits, and the
/// timestamp is a number; the optional attributes are kept when they are
/// strings and dropped otherwise.
pub open spec fn parse_item(item: Item) -> Option<ShortUrl> {
    match item.original_link {
        Some(AttrValue::S(original)) => match item_clicks(item) {
            Some(clicks) => match item_timestamp(item) {
                Some(ts) => Some(
                    ShortUrl {
                        link_id: item.link_id,
                        original_link: original,
                        clicks: clicks,
                        title: attr_s_opt(item.title),
                        description: attr_s_opt(item.description),
                        content_type: attr_s_opt(item.content_type),
                        image: attr_s_opt(item.image),
                        timestamp: ts,
                    },
                ),
                None => None,
            },
            None => None,
        },
        _ => None,
    }
}

fn clone_attr_s(a: &Option<AttrValue>) -> (r: Option<String>)
    ensures
        r == attr_s_opt(*a),
{
    match a {
        Some(AttrValue::S(s)) => Some(s.clone()),
        _ => None,
    }
}

impl ShortUrl {
    /// Read a stored row into a record, reporting which attribute is
    /// missing or malformed when one is.
    pub fn try_from(item: &Item) -> (r: Result<ShortUrl, String>)
        ensures
            r is Ok <==> parse_item(*item) is Some,
            r matches Ok(u) ==> parse_item(*item) == Some(u),
    {
        let original_link = match &item.original_link {
            Some(AttrValue::S(s)) => s.clone(),
            Some(AttrValue::N(_)) => {
                return Err("OriginalLink is not a String".to_owned());
            },
            None => {
                return Err("OriginalLink not found".to_owned());
            },
        };
        let clicks = match &item.clicks {
            Some(AttrValue::N(n)) => match parse_u32_str(n.as_str()) {
                Some(v) => v,
                None => {
                    return Err("Cannot convert Clicks into u32".to_owned());
                },
            },
            Some(AttrValue::S(_)) => {
                return Err("Clicks is not a Number".to_owned());
            },
            None => {
                return Err("Clicks not found".to_owned());
            },
        };
        let title = clone_attr_s(&item.title);
        let description = clone_attr_s(&item.description);
        let content_type = clone_attr_s(&item.content_type);
        let image = clone_attr_s(&item.image);
        let timestamp = match &item.timestamp {
            Some(AttrValue::N(n)) => match parse_i64_str(n.as_str()) {
                Some(v) => v,
                None => {
                    return Err("Cannot convert TimeStamp into i64".to_owned());
                },
            },
            Some(AttrValue::S(_)) => {
                return Err("TimeStamp is not a Number".to_owned());
            },
            None => {
                return Err("TimeStamp not found".to_owned());
            },
        };
        Ok(
            ShortUrl {
                link_id: item.link_id.clone(),
                original_link,
                clicks,
                title,
                description,
                content_type,
                image,
                timestamp,
            },
        )
    }
}

} // verus!
