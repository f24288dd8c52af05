//! The scheduler prints start times like `Thu Oct 10 12:00:00 2025`; the
//! store keeps Unix epoch seconds. The calendar arithmetic is delegated to
//! the `chrono` crate behind one trusted wrapper.

use vstd::prelude::*;

verus! {

/// The Unix timestamp that a scheduler date string denotes, taken as UTC,
/// or nothing when the string does not parse. The result depends on the
/// characters alone.
pub uninterp spec fn pbs_date_epoch(s: Seq<char>) -> Option<i64>;

/// Relies on chrono's `DateTime::parse_from_str` with the fixed format
/// `%a %b %d %H:%M:%S %Y %z` (a zero UTC offset is appended first) and on
/// `DateTime::timestamp` to read the parsed instant out as epoch seconds.
#[verifier::external_body]
fn parse_pbs_date(s: &str) -> (r: Option<i64>)
    ensures
        r == pbs_date_epoch(s@),
{
    match chrono::DateTime::parse_from_str(&format!("{} {}", s, "+0000"), "%a %b %d %H:%M:%S %Y %z")
    {
        Ok(dt) => Some(dt.timestamp()),
        Err(_) => None,
    }
}

/// Converts a scheduler date string to a Unix timestamp. A string that does
/// not parse, or denotes an instant before the epoch or beyond the `u32`
/// range, is an error.
pub fn date_to_unix_timestamp(date_str: &str) -> (r: Result<u32, String>)
    ensures
        match r {
            Ok(t) => pbs_date_epoch(date_str@) == Some(t as i64),
            Err(_) => match pbs_date_epoch(date_str@) {
                Some(t) => t < 0 || t > u32::MAX,
                None => true,
            },
        },
{
    match parse_pbs_date(date_str) {
        None => Err("Failed to parse date".to_owned()),
        Some(t) => {
            if t < 0 {
                Err("Timestamp is negative, cannot fit into u32".to_owned())
            } else if t > u32::MAX as i64 {
                Err("Timestamp is too far in the future to fit into u32".to_owned())
            } else {
                Ok(t as u32)
            }
        },
    }
}

} // verus!
