//! The one place where the current time is read. The store records timestamps
//! as strings localized to the Asia/Jakarta civil timezone (UTC+7).

use vstd::prelude::*;

verus! {

/// Relies on `chrono::Utc::now`, `DateTime::with_timezone` and
/// `DateTime::format`: the current Jakarta-local civil time, rendered as
/// date, time and the zone's fixed `+07` offset — a never-empty string.
/// The value depends on the clock, so nothing more is promised of it.
#[verifier::external_body]
pub(crate) fn now_jakarta() -> (r: String)
    ensures
        r@.len() > 0,
{
    chrono::Utc::now()
        .with_timezone(&chrono_tz::Asia::Jakarta)
        .format("%Y-%m-%d %H:%M:%S%.f +07")
        .to_string()
}

} // verus!
