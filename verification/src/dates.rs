use vstd::prelude::*;

verus! {

/// What chrono's RFC 2822 parser yields for a date string, as seconds since
/// the UTC epoch: `None` when the string is not a valid RFC 2822 date.  The
/// result is a function of the characters alone (no locale, clock or machine
/// state is involved), so it is given a name here rather than a definition.
pub uninterp spec fn rfc2822_epoch(s: Seq<char>) -> Option<i64>;

/// Relies on chrono's `DateTime::parse_from_rfc2822` and
/// `DateTime::timestamp`: parse an RFC 2822 date string and read the instant
/// it denotes as whole seconds since the UTC epoch.  Both depend only on the
/// string, and the timestamp of an instant does not depend on its offset, so
/// the composition is the pure function named `rfc2822_epoch`.  Neither call
/// panics.
#[verifier::external_body]
pub(crate) fn parse_rfc2822_epoch(s: &str) -> (r: Option<i64>)
    ensures
        r == rfc2822_epoch(s@),
{
    match chrono::DateTime::parse_from_rfc2822(s) {
        Ok(d) => Some(d.timestamp()),
        Err(_) => None,
    }
}

} // verus!
