//! Instants in UTC, held as seconds and nanoseconds since the Unix epoch.

use vstd::prelude::*;

verus! {

/// The earliest whole second that `chrono::DateTime<Utc>` holds: the start of
/// -262143-01-01.
pub const MIN_TIMESTAMP_SECS: i64 = -8_334_601_228_800;

/// The latest whole second that `chrono::DateTime<Utc>` holds: the last second
/// of 262142-12-31.
pub const MAX_TIMESTAMP_SECS: i64 = 8_210_266_876_799;

/// Number of nanoseconds in one second.
pub const NANOS_PER_SEC: u32 = 1_000_000_000;

/// An instant in UTC.
#[derive(Clone, Copy, Debug, PartialEq, Eq, Structural)]
pub struct Timestamp {
    secs: i64,
    nanos: u32,
}

/// Name for the text that `chrono` gives an instant by
/// `DateTime::<Utc>::from_timestamp(secs, nanos)` and then `to_rfc3339`.
pub uninterp spec fn rfc3339_utc(secs: i64, nanos: u32) -> Seq<char>;

/// `chrono::DateTime::<Utc>::from_timestamp` followed by `DateTime::to_rfc3339`.
/// `from_timestamp` returns `Some` exactly when the day lies within `NaiveDate`'s
/// range (years -262143 to 262142) and the nanosecond part is below one second,
/// or below two seconds in a second that ends a minute (a leap second); the
/// `requires` keeps to that.  The text is named.
#[verifier::external_body]
fn format_rfc3339_utc(secs: i64, nanos: u32) -> (res: String)
    requires
        timestamp_in_range(secs, nanos),
    ensures
        res@ == rfc3339_utc(secs, nanos),
{
    chrono::DateTime::from_timestamp(secs, nanos).expect("timestamp in range").to_rfc3339()
}

/// `secs` and `nanos` describe an instant that a `Timestamp` can hold.
pub open spec fn timestamp_in_range(secs: i64, nanos: u32) -> bool {
    &&& MIN_TIMESTAMP_SECS <= secs <= MAX_TIMESTAMP_SECS
    &&& (nanos < NANOS_PER_SEC || (nanos < 2 * NANOS_PER_SEC && secs % 60 == 59))
}

impl View for Timestamp {
    type V = (i64, u32);

    closed spec fn view(&self) -> (i64, u32) {
        (self.secs, self.nanos)
    }
}

impl Timestamp {
    #[verifier::type_invariant]
    spec fn in_range(self) -> bool {
        timestamp_in_range(self.secs, self.nanos)
    }

    /// The instant `secs` seconds and `nanos` nanoseconds after the epoch, when
    /// both are in range.
    pub fn new(secs: i64, nanos: u32) -> (res: Option<Timestamp>)
        ensures
            res is Some <==> timestamp_in_range(secs, nanos),
            res matches Some(t) ==> t@ == (secs, nanos),
    {
        if secs < MIN_TIMESTAMP_SECS || secs > MAX_TIMESTAMP_SECS {
            return None;
        }
        // The earliest second is a multiple of 60, so counting from it keeps the
        // position within the minute.
        let from_min: u64 = (secs - MIN_TIMESTAMP_SECS) as u64;
        let leap_second = from_min % 60 == 59;
        assert(leap_second == (secs % 60 == 59));
        if nanos < NANOS_PER_SEC || (nanos < 2 * NANOS_PER_SEC && leap_second) {
            Some(Timestamp { secs, nanos })
        } else {
            None
        }
    }

    /// Whole seconds since the epoch.
    pub fn secs(&self) -> (res: i64)
        ensures
            res == self@.0,
    {
        self.secs
    }

    /// Nanoseconds past the whole second.
    pub fn subsec_nanos(&self) -> (res: u32)
        ensures
            res == self@.1,
    {
        self.nanos
    }

    /// The RFC 3339 text of this instant, as `chrono` writes it.
    pub fn to_rfc3339(&self) -> (res: String)
        ensures
            res@ == rfc3339_utc(self@.0, self@.1),
    {
        proof {
            use_type_invariant(self);
        }
        format_rfc3339_utc(self.secs, self.nanos)
    }
}

} // verus!
