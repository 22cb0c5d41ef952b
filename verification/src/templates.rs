//! The data handed to the HTML views, and the timestamp text shown in
//! the link table.

use vstd::prelude::*;
use chrono::TimeZone;
use crate::text::{parse_i64_spec, parse_i64_str};

verus! {

/// One row of the rendered link table.
pub struct Link {
    pub title: Option<String>,
    pub link_id: String,
    pub clicks: u32,
    pub timestamp: i64,
}

/// The rendered link table.
pub struct LinksTable {
    pub links: Vec<Link>,
    pub domain: &'static str,
    pub has_more: bool,
}

/// The fragment shown for a freshly created link.
pub struct NewShortLink {
    pub link: String,
    pub domain: &'static str,
}

/// The fragment shown for a failure.
pub struct ErrorPopup {
    pub message: String,
}

/// The text that a timestamp renders to: what chrono formats an
/// in-range epoch second as, with `%Y-%m-%d %H:%M:%S UTC`, or nothing
/// when the second lies outside chrono's range.
pub uninterp spec fn utc_text_of(ts: int) -> Option<Seq<char>>;

/// Relies on chrono's `TimeZone::timestamp_opt` for `Utc` and
/// `DateTime::format`: the text depends on the epoch second alone.
#[verifier::external_body]
fn format_utc(ts: i64) -> (r: Option<String>)
    ensures
        match r {
            Some(s) => utc_text_of(ts as int) == Some(s@),
            None => utc_text_of(ts as int) is None,
        },
{
    match chrono::Utc.timestamp_opt(ts, 0).single() {
        Some(dt) => Some(dt.format("%Y-%m-%d %H:%M:%S UTC").to_string()),
        None => None,
    }
}

/// Render an epoch-second field as a readable date, rejecting text that
/// is not a number and seconds that no date can carry.
pub fn format_timestamp(ts: &str) -> (r: Result<String, String>)
    ensures
        parse_i64_spec(ts@) is None ==> (r matches Err(m) && m@ == "Invalid timestamp format"@),
        parse_i64_spec(ts@) matches Some(v) ==> match utc_text_of(v as int) {
            Some(t) => r matches Ok(s) && s@ == t,
            None => r matches Err(m) && m@ == "Invalid timestamp"@,
        },
{
    let value = match parse_i64_str(ts) {
        Some(v) => v,
        None => {
            return Err("Invalid timestamp format".to_owned());
        },
    };
    match format_utc(value) {
        Some(s) => Ok(s),
        None => Err("Invalid timestamp".to_owned()),
    }
}

} // verus!
