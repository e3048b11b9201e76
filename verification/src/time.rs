//! Instants on the UTC time line, held as plain integers.

use vstd::prelude::*;

verus! {

/// An instant: whole seconds since 1970-01-01 00:00:00 UTC and the
/// nanoseconds past that second.
#[derive(Clone, Copy, Debug, PartialEq, Eq, Structural)]
pub struct Timestamp {
    pub secs: i64,
    pub nanos: u32,
}

impl Timestamp {
    /// `self` is not later than `other`: seconds are compared first, then
    /// nanoseconds.
    pub open spec fn not_after(self, other: Timestamp) -> bool {
        self.secs < other.secs || (self.secs == other.secs && self.nanos <= other.nanos)
    }

    /// The instant lies in the years 1 to 9999 and is no leap second: every
    /// such instant can be shown as a date and a time of day.
    pub open spec fn showable(self) -> bool {
        -62_135_596_800 <= self.secs < 253_402_300_800 && self.nanos < 1_000_000_000
    }

    /// Tells whether `self` is not later than `other`.
    pub fn is_not_after(&self, other: &Timestamp) -> (b: bool)
        ensures
            b == self.not_after(*other),
    {
        self.secs < other.secs || (self.secs == other.secs && self.nanos <= other.nanos)
    }
}

/// Reads the system clock through `chrono::Utc::now` and hands the instant
/// back as seconds (`DateTime::timestamp`) and nanoseconds
/// (`DateTime::timestamp_subsec_nanos`). The reading differs from call to
/// call, so the contract only states what holds of every reading: chrono
/// builds it from the whole seconds and the nanoseconds of a duration since
/// the epoch, so the nanoseconds stay below one second. Like the call it
/// wraps, it panics when the clock stands before 1970.
#[verifier::external_body]
pub(crate) fn clock_now() -> (now: Timestamp)
    ensures
        now.nanos < 1_000_000_000,
{
    let now = chrono::Utc::now();
    Timestamp { secs: now.timestamp(), nanos: now.timestamp_subsec_nanos() }
}

/// Not-after is a total preorder on instants, and two instants that are not
/// after each other are the same instant.
pub proof fn lemma_not_after_is_total_order(a: Timestamp, b: Timestamp, c: Timestamp)
    ensures
        a.not_after(a),
        a.not_after(b) || b.not_after(a),
        a.not_after(b) && b.not_after(c) ==> a.not_after(c),
        a.not_after(b) && b.not_after(a) ==> a == b,
{
}

} // verus!
