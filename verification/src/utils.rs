//! The clock and the source of fresh identifiers.

use vstd::prelude::*;

verus! {

/// The current time in microseconds since the Unix epoch, read with
/// `chrono::Utc::now` and turned into a number with
/// `DateTime::timestamp_micros`. The value depends on the clock, so nothing
/// is claimed of it. `Utc::now` panics where the system clock stands before
/// 1970.
#[verifier::external_body]
pub fn utc_now() -> (micros: i64) {
    chrono::Utc::now().timestamp_micros()
}

/// A fresh random identifier: the 128 bits of `uuid::Uuid::new_v4`, taken
/// with `Uuid::as_u128`. The value is drawn from the operating system's
/// random source, so nothing is claimed of it. `new_v4` panics where the
/// operating system hands out no random bytes.
#[verifier::external_body]
pub(crate) fn fresh_id() -> (id: u128) {
    uuid::Uuid::new_v4().as_u128()
}

} // verus!
