//! Calendar year of an execution timestamp.

use vstd::prelude::*;
use chrono::Datelike;

verus! {

/// The UTC calendar year in which the instant `ns` nanoseconds after the
/// Unix epoch falls. The mapping is a fixed function of the timestamp;
/// the library states nothing about its value on particular inputs and
/// only relies on it being the same function everywhere.
pub uninterp spec fn year_of_nanos(ns: int) -> int;

/// Relies on chrono's `DateTime::<Utc>::from_timestamp_nanos`, which is
/// documented never to fail for any `i64`, and on `Datelike::year`: the
/// UTC calendar year is a function of the timestamp alone.
#[verifier::external_body]
pub(crate) fn year_of_timestamp(ns: i64) -> (y: i32)
    ensures
        y as int == year_of_nanos(ns as int),
{
    chrono::DateTime::from_timestamp_nanos(ns).year()
}

} // verus!
