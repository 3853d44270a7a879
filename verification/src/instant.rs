//! Instants of time, as plain values.

use vstd::prelude::*;
use chrono::Datelike;

verus! {

/// The calendar year, in UTC, of the instant that lies `secs` whole seconds
/// and `nanos` nanoseconds after the start of 1970, or `None` where the
/// calendar does not reach that far or `nanos` is not a valid fraction.
pub uninterp spec fn utc_year(secs: int, nanos: int) -> Option<int>;

/// `chrono::DateTime::from_timestamp` followed by `Datelike::year`: the
/// result is the calendar year of the instant, and `None` exactly where
/// chrono has no date-time for the two numbers.
#[verifier::external_body]
fn year_of(secs: i64, nanos: u32) -> (r: Option<i32>)
    ensures
        (match r {
            Some(y) => Some(y as int),
            None => None,
        }) == utc_year(secs as int, nanos as int),
{
    match chrono::DateTime::from_timestamp(secs, nanos) {
        Some(dt) => Some(dt.year()),
        None => None,
    }
}

/// The parts of `chrono::DateTime::<Utc>::MIN_UTC`, read with `timestamp`,
/// `timestamp_subsec_nanos` and `Datelike::year`: the calendar has this
/// instant, with the year given, and has none that lies before it.
#[verifier::external_body]
fn earliest_parts() -> (r: (i64, u32, i32))
    ensures
        utc_year(r.0 as int, r.1 as int) == Some(r.2 as int),
        forall|secs: int, nanos: int|
            (#[trigger] utc_year(secs, nanos)) is Some ==> r.0 < secs || (r.0 == secs && r.1
                <= nanos),
{
    let earliest = chrono::DateTime::<chrono::Utc>::MIN_UTC;
    (earliest.timestamp(), earliest.timestamp_subsec_nanos(), earliest.year())
}

/// An instant in UTC: seconds and nanoseconds since the start of 1970,
/// together with the calendar year it falls in.
#[derive(Debug, Clone, Copy, PartialEq, Eq, Structural)]
pub struct Instant {
    secs: i64,
    nanos: u32,
    year: i32,
}

impl Instant {
    pub closed spec fn secs(&self) -> int {
        self.secs as int
    }

    pub closed spec fn nanos(&self) -> int {
        self.nanos as int
    }

    pub closed spec fn year(&self) -> int {
        self.year as int
    }

    /// The stored year is the calendar year of the stored instant.
    pub open spec fn wf(&self) -> bool {
        utc_year(self.secs(), self.nanos()) == Some(self.year())
    }

    /// Whether `self` lies strictly before `other`.
    pub open spec fn before(&self, other: &Instant) -> bool {
        self.secs() < other.secs() || (self.secs() == other.secs() && self.nanos() < other.nanos())
    }

    /// Whether both are the same point in time.
    pub open spec fn same_time(&self, other: &Instant) -> bool {
        self.secs() == other.secs() && self.nanos() == other.nanos()
    }

    /// The instant at the given offset from the start of 1970, where the
    /// calendar has one.
    pub fn new(secs: i64, nanos: u32) -> (r: Option<Instant>)
        ensures
            r is Some <==> utc_year(secs as int, nanos as int) is Some,
            r matches Some(t) ==> t.secs() == secs && t.nanos() == nanos && t.wf(),
    {
        match year_of(secs, nanos) {
            Some(year) => Some(Instant { secs, nanos, year }),
            None => None,
        }
    }

    /// Whether the calendar has this instant and none that lies before it.
    pub open spec fn is_earliest(&self) -> bool {
        self.wf() && forall|t: Instant| #[trigger] t.wf() ==> !t.before(self)
    }

    /// The earliest instant that the calendar has.
    pub open spec fn earliest() -> Instant {
        choose|m: Instant| m.is_earliest()
    }

    /// The earliest instant that the calendar has.
    pub fn minimum() -> (r: Instant)
        ensures
            r.is_earliest(),
            r == Instant::earliest(),
    {
        let parts = earliest_parts();
        let first = Instant { secs: parts.0, nanos: parts.1, year: parts.2 };
        proof {
            assert(first.wf());
            assert forall|t: Instant| #[trigger] t.wf() implies !t.before(&first) by {
                assert(utc_year(t.secs(), t.nanos()) is Some);
            }
            assert(first.is_earliest());
            let chosen = Instant::earliest();
            assert(chosen.is_earliest());
            assert(!first.before(&chosen));
            assert(!chosen.before(&first));
        }
        first
    }

    /// Whole seconds since the start of 1970.
    pub fn timestamp(&self) -> (r: i64)
        ensures
            r == self.secs(),
    {
        self.secs
    }

    /// Nanoseconds since the last whole second.
    pub fn subsec_nanos(&self) -> (r: u32)
        ensures
            r == self.nanos(),
    {
        self.nanos
    }

    /// The calendar year.
    pub fn calendar_year(&self) -> (r: i32)
        ensures
            r == self.year(),
    {
        self.year
    }

    /// Whether `self` lies strictly before `other`.
    pub fn is_before(&self, other: &Instant) -> (r: bool)
        ensures
            r == self.before(other),
    {
        self.secs < other.secs || (self.secs == other.secs && self.nanos < other.nanos)
    }

    /// Whether both are the same point in time.
    pub fn is_same_time(&self, other: &Instant) -> (r: bool)
        ensures
            r == self.same_time(other),
    {
        self.secs == other.secs && self.nanos == other.nanos
    }
}

} // verus!
