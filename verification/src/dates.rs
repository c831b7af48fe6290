//! Dates as UNIX timestamps (seconds, UTC), formatted and parsed by `chrono`.

use vstd::prelude::*;

use chrono::{DateTime, Utc};

verus! {

/// The timestamps that `chrono` can represent: from the first second of
/// January 1, 262144 BCE (year -262143) to the last second of December 31, 262142 CE
/// (`NaiveDate::MIN` to `NaiveDate::MAX` in chrono 0.4).
pub open spec fn timestamp_in_range(secs: i64) -> bool {
    -8_334_601_228_800 <= secs <= 8_210_266_876_799
}

/// Whether `chrono` can represent the timestamp.
pub fn is_representable(secs: i64) -> (r: bool)
    ensures
        r == timestamp_in_range(secs),
{
    -8_334_601_228_800i64 <= secs && secs <= 8_210_266_876_799i64
}

/// The two layouts this crate formats dates with.
pub open spec fn is_supported_format(fmt: Seq<char>) -> bool {
    fmt == "%d %b %Y - %H:%M:%S"@ || fmt == "%d %b %Y"@
}

/// What `chrono` renders for the timestamp in the given layout.
pub uninterp spec fn formatted_timestamp(secs: i64, fmt: Seq<char>) -> Seq<char>;

/// What `chrono` parses from the text in the given layout, as a timestamp.
pub uninterp spec fn parsed_timestamp(text: Seq<char>, fmt: Seq<char>) -> Option<i64>;

/// `DateTime::<Utc>::from_timestamp(secs, 0)` followed by `format(fmt)`:
/// the timestamp rendered in the layout.
#[verifier::external_body]
pub(crate) fn format_timestamp(secs: i64, fmt: &str) -> (s: String)
    requires
        timestamp_in_range(secs),
        is_supported_format(fmt@),
    ensures
        s@ == formatted_timestamp(secs, fmt@),
{
    DateTime::from_timestamp(secs, 0).unwrap().format(fmt).to_string()
}

/// `DateTime::parse_from_str(text, fmt)` converted to UTC: the timestamp of
/// the date and time the text gives, or `None` where it does not match the
/// layout. A parsed date lies within chrono's range.
#[verifier::external_body]
pub(crate) fn parse_timestamp(text: &str, fmt: &str) -> (r: Option<i64>)
    ensures
        r == parsed_timestamp(text@, fmt@),
        r matches Some(secs) ==> timestamp_in_range(secs),
{
    match DateTime::parse_from_str(text, fmt) {
        Ok(d) => Some(d.to_utc().timestamp()),
        Err(_) => None,
    }
}

/// `Utc::now()`: the current time. Nothing is known of it but that chrono
/// represents it.
#[verifier::external_body]
pub(crate) fn now_timestamp() -> (secs: i64)
    ensures
        timestamp_in_range(secs),
{
    Utc::now().timestamp()
}

} // verus!
