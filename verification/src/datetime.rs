//! Timestamp detection.  A text value counts as a timestamp when it
//! parses under the relaxed RFC 3339 grammar; its place on the unified
//! numeric axis is its epoch-millisecond value.
use vstd::prelude::*;

verus! {

/// The epoch-millisecond reading of a character sequence under the
/// relaxed RFC 3339 grammar, `None` when it does not parse.  The result
/// is a function of the characters alone.
pub uninterp spec fn rfc3339_millis(s: Seq<char>) -> Option<i64>;

/// Relies on chrono: `str::parse::<DateTime<Utc>>` accepts a relaxed
/// form of RFC 3339 as a pure function of the string, and
/// `DateTime::timestamp_millis` is its epoch-millisecond value.
#[verifier::external_body]
pub fn parse_datetime_millis(s: &str) -> (r: Option<i64>)
    ensures
        r == rfc3339_millis(s@),
{
    match s.parse::<chrono::DateTime<chrono::Utc>>() {
        Ok(d) => Some(d.timestamp_millis()),
        Err(_) => None,
    }
}

} // verus!
