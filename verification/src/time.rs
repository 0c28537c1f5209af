//! Instants in time.

use chrono::Timelike;
use vstd::prelude::*;

verus! {

/// A UTC date and time as `chrono` holds it.
#[verifier::external_type_specification]
#[verifier::external_body]
pub struct ExNaiveDateTime(chrono::NaiveDateTime);

/// Seconds of the first instant a [`Timestamp`] can hold (1 January of the
/// year -262143).
pub const FIRST_SECOND: i64 = -8334601228800;

/// Seconds of the last instant a [`Timestamp`] can hold (31 December of the
/// year 262142).
pub const LAST_SECOND: i64 = 8210266876799;

/// An instant as the steps read it: seconds since 1 January 1970, and
/// nanoseconds within the second.
#[verifier::ext_equal]
pub struct TimeView {
    pub secs: int,
    pub nanos: int,
}

impl TimeView {
    /// Whether some [`Timestamp`] holds this instant.
    pub open spec fn in_range(self) -> bool {
        FIRST_SECOND <= self.secs <= LAST_SECOND && 0 <= self.nanos < 2_000_000_000
    }

    /// Whether this instant is earlier than `other`.
    pub open spec fn before(self, other: TimeView) -> bool {
        self.secs < other.secs || (self.secs == other.secs && self.nanos < other.nanos)
    }
}

/// An instant in UTC. The nanoseconds reach past a whole second in a leap
/// second.
#[derive(Debug, Clone, Copy, PartialEq, Eq)]
pub struct Timestamp {
    secs: i64,
    nanos: u32,
}

impl View for Timestamp {
    type V = TimeView;

    closed spec fn view(&self) -> TimeView {
        TimeView { secs: self.secs as int, nanos: self.nanos as int }
    }
}

impl DeepView for Timestamp {
    type V = TimeView;

    open spec fn deep_view(&self) -> TimeView {
        self@
    }
}

impl Timestamp {
    #[verifier::type_invariant]
    spec fn well_formed(self) -> bool {
        FIRST_SECOND <= self.secs <= LAST_SECOND && self.nanos < 2_000_000_000
    }

    /// The instant `nanos` nanoseconds after `secs` seconds after
    /// 1 January 1970, if it is in range.
    pub fn new(secs: i64, nanos: u32) -> (instant: Option<Timestamp>)
        ensures
            instant is Some <==> (TimeView { secs: secs as int, nanos: nanos as int }).in_range(),
            instant is Some ==> instant->0@ == (TimeView {
                secs: secs as int,
                nanos: nanos as int,
            }),
    {
        if FIRST_SECOND <= secs && secs <= LAST_SECOND && nanos < 2_000_000_000 {
            Some(Timestamp { secs, nanos })
        } else {
            None
        }
    }

    /// Seconds since 1 January 1970.
    pub fn secs(&self) -> (secs: i64)
        ensures
            secs == self@.secs,
    {
        self.secs
    }

    /// Nanoseconds within the second.
    pub fn nanos(&self) -> (nanos: u32)
        ensures
            nanos == self@.nanos,
    {
        self.nanos
    }

    /// The instant as `chrono` holds it.
    ///
    /// Every instant in range is one of `chrono::DateTime::from_timestamp`, to
    /// which `with_nanosecond` adds the nanoseconds.
    #[verifier::external_body]
    pub(crate) fn to_chrono(&self) -> chrono::NaiveDateTime {
        let whole = chrono::DateTime::from_timestamp(self.secs, 0).unwrap_or_default();
        whole.naive_utc().with_nanosecond(self.nanos).unwrap_or_default()
    }

    /// The instant that `chrono` holds. It holds none but those of the years
    /// -262143 to 262142, with less than two thousand million nanoseconds.
    #[verifier::external_body]
    pub(crate) fn from_chrono(time: chrono::NaiveDateTime) -> Timestamp {
        let utc = time.and_utc();
        Timestamp { secs: utc.timestamp(), nanos: utc.timestamp_subsec_nanos() }
    }

    /// Whether this instant is earlier than `other`.
    pub fn before(&self, other: &Timestamp) -> (earlier: bool)
        ensures
            earlier == self@.before(other@),
    {
        self.secs < other.secs || (self.secs == other.secs && self.nanos < other.nanos)
    }

    /// Whether this is the same instant as `other`.
    pub fn same(&self, other: &Timestamp) -> (same: bool)
        ensures
            same == (self@ == other@),
    {
        self.secs == other.secs && self.nanos == other.nanos
    }
}

/// Instants are ordered by their seconds, and within a second by their
/// nanoseconds; of two different ones exactly one is earlier.
pub proof fn law_instants_are_ordered(a: TimeView, b: TimeView)
    ensures
        a.before(b) <==> a.secs < b.secs || (a.secs == b.secs && a.nanos < b.nanos),
        a.before(b) ==> !b.before(a),
        a.before(b) || b.before(a) || (a.secs == b.secs && a.nanos == b.nanos),
        a.in_range() <==> -8334601228800 <= a.secs <= 8210266876799 && 0 <= a.nanos
            < 2_000_000_000,
{
}

} // verus!
