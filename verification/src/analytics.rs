//! Parsing of delimited access-log lines, one visit each: a timestamp,
//! a source address, a status code and the visited path, separated by
//! tabs. The path is cleaned into the bare link identifier.

use vstd::prelude::*;
use crate::text::{drop_leading, spec_split, split_char, strip_leading_char, trim_spec, trim_str};

verus! {

/// One parsed access-log line.
pub struct CfAnalyticsData {
    pub timestamp: String,
    pub source_ip: String,
    pub status_code: String,
    pub link_id: String,
}

impl CfAnalyticsData {
    /// Split a log line on tabs into its four leading fields; the
    /// fourth is trimmed of surrounding white space and of leading
    /// slashes to leave the link identifier. A line with fewer than
    /// four fields yields nothing.
    pub fn from_line(line: &str) -> (r: Option<CfAnalyticsData>)
        ensures
            r is Some <==> spec_split(line@, '\t').len() >= 4,
            r matches Some(d) ==> ({
                let fields = spec_split(line@, '\t');
                &&& d.timestamp@ == fields[0]
                &&& d.source_ip@ == fields[1]
                &&& d.status_code@ == fields[2]
                &&& d.link_id@ == drop_leading(trim_spec(fields[3]), '/')
            }),
    {
        let fields = split_char(line, '\t');
        if fields.len() < 4 {
            return None;
        }
        let trimmed = trim_str(fields[3].as_str());
        let link_id = strip_leading_char(trimmed, '/').to_owned();
        Some(
            CfAnalyticsData {
                timestamp: fields[0].clone(),
                source_ip: fields[1].clone(),
                status_code: fields[2].clone(),
                link_id,
            },
        )
    }
}

} // verus!
