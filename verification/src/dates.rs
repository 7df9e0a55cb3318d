//! Calendar-date validation.
//!
//! Task dates are kept as text in `YYYY-MM-DD` form and must name a real
//! calendar date. The check itself is delegated to the `chrono` crate;
//! the library only depends on the check being a pure function of the
//! text, named here by `is_calendar_date`.

use vstd::prelude::*;

verus! {

/// Whether a string names a real calendar date in `YYYY-MM-DD` form,
/// exactly as the `chrono` parser accepts it.
pub uninterp spec fn is_calendar_date(s: Seq<char>) -> bool;

/// Relies on `chrono::NaiveDate::parse_from_str` with the `%Y-%m-%d`
/// format: whether the parse succeeds depends on the characters of `s`
/// alone, and the call returns without panicking on every input.
#[verifier::external_body]
pub(crate) fn valid_date(s: &str) -> (r: bool)
    ensures
        r == is_calendar_date(s@),
{
    chrono::NaiveDate::parse_from_str(s, "%Y-%m-%d").is_ok()
}

/// Check a task date: accepted exactly when it names a real calendar
/// date, so an interactive caller can retry before touching a store.
pub fn check_date(s: &str) -> (r: bool)
    ensures
        r == is_calendar_date(s@),
{
    valid_date(s)
}

} // verus!
