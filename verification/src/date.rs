//! Deadline dates. A deadline is kept as its `YYYY-MM-DD` string; for sorting
//! it is parsed into plain year, month and day numbers, and sorting works on
//! those. The parse itself is done by an outside date library.

use vstd::prelude::*;
use chrono::Datelike;

verus! {

/// A calendar date as plain numbers, as parsed from a deadline string.
#[derive(Clone, Copy, PartialEq, Eq, Structural)]
pub struct ParsedDate {
    pub year: i32,
    pub month: u32,
    pub day: u32,
}

/// What parsing a deadline string as a `%Y-%m-%d` calendar date yields:
/// `None` when the string is not a well-formed date in that format, otherwise
/// the date's year, month and day. The result depends on the string alone.
pub uninterp spec fn date_of(s: Seq<char>) -> Option<(int, int, int)>;

/// Relies on chrono's `NaiveDate::parse_from_str` with format `%Y-%m-%d` to
/// decide whether `s` is a valid calendar date and to split it into year,
/// month and day; `Datelike::year`/`month`/`day` only read those fields.
#[verifier::external_body]
pub(crate) fn parse_deadline(s: &str) -> (r: Option<ParsedDate>)
    ensures
        match r {
            Some(d) => date_of(s@) == Some((d.year as int, d.month as int, d.day as int)),
            None => date_of(s@) is None,
        },
{
    match chrono::NaiveDate::parse_from_str(s, "%Y-%m-%d") {
        Ok(d) => Some(ParsedDate { year: d.year(), month: d.month(), day: d.day() }),
        Err(_) => None,
    }
}

/// Chronological order on (year, month, day) triples.
pub open spec fn date_le(a: (int, int, int), b: (int, int, int)) -> bool {
    a.0 < b.0 || (a.0 == b.0 && (a.1 < b.1 || (a.1 == b.1 && a.2 <= b.2)))
}

/// The sort key order for deadlines: dated tasks come first, in chronological
/// order; tasks without a deadline all come last and rank equal. This is one
/// consistent total order in place of the asymmetric comparison that treating
/// "only the second has a deadline" as a tie would give.
pub open spec fn dl_le(a: Option<(int, int, int)>, b: Option<(int, int, int)>) -> bool {
    match (a, b) {
        (Some(x), Some(y)) => date_le(x, y),
        (Some(_), None) => true,
        (None, Some(_)) => false,
        (None, None) => true,
    }
}

/// The plain value of an optional parsed date.
pub open spec fn pd_key(d: Option<ParsedDate>) -> Option<(int, int, int)> {
    match d {
        Some(p) => Some((p.year as int, p.month as int, p.day as int)),
        None => None,
    }
}

/// Decide `dl_le` on two optional parsed dates.
pub(crate) fn key_le(a: &Option<ParsedDate>, b: &Option<ParsedDate>) -> (r: bool)
    ensures
        r == dl_le(pd_key(*a), pd_key(*b)),
{
    match (a, b) {
        (Some(x), Some(y)) => {
            x.year < y.year
                || (x.year == y.year && (x.month < y.month
                    || (x.month == y.month && x.day <= y.day)))
        },
        (Some(_), None) => true,
        (None, Some(_)) => false,
        (None, None) => true,
    }
}

} // verus!
