//! Points in time and spans of time as plain numbers.
use vstd::prelude::*;

verus! {

/// Nanoseconds in one second.
pub const NANOS_PER_SECOND: i128 = 1_000_000_000;

/// The earliest representable instant, in nanoseconds from the Unix epoch.
pub const EARLIEST: i128 = -9_223_372_036_854_775_808_000_000_000;

/// The latest representable instant, in nanoseconds from the Unix epoch.
pub const LATEST: i128 = 9_223_372_036_854_775_807_999_999_999;

/// An instant: nanoseconds from 1970-01-01 00:00 UTC, negative before it. The
/// whole seconds always fit an `i64`.
#[derive(Clone, Copy, Debug, PartialEq, Eq, Structural, PartialOrd, Ord, Hash)]
pub struct Timestamp {
    nanos: i128,
}

/// The instants that a `Timestamp` can hold.
pub open spec fn representable(nanos: int) -> bool {
    EARLIEST <= nanos <= LATEST
}

impl Timestamp {
    /// Nanoseconds from the Unix epoch.
    pub closed spec fn view(self) -> int {
        self.nanos as int
    }

    #[verifier::type_invariant]
    pub closed spec fn inv(self) -> bool {
        representable(self.nanos as int)
    }

    /// The instant `nanos` nanoseconds from the Unix epoch.
    pub closed spec fn at(nanos: int) -> Timestamp {
        Timestamp { nanos: nanos as i128 }
    }

    /// The instant `nanos` nanoseconds from the Unix epoch, where that is representable.
    pub fn from_nanos(nanos: i128) -> (r: Option<Timestamp>)
        ensures
            r == (if representable(nanos as int) { Some(Timestamp::at(nanos as int)) } else { None }),
            r matches Some(t) ==> t@ == nanos,
    {
        if nanos >= EARLIEST && nanos <= LATEST {
            Some(Timestamp { nanos })
        } else {
            None
        }
    }

    /// Nanoseconds from the Unix epoch.
    pub fn nanos(self) -> (r: i128)
        ensures
            r == self@,
            representable(r as int),
    {
        proof {
            use_type_invariant(&self);
        }
        self.nanos
    }

    /// Whether this instant lies strictly after `other`.
    pub fn is_after(self, other: Timestamp) -> (r: bool)
        ensures
            r == (self@ > other@),
    {
        self.nanos > other.nanos
    }
}

/// An instant is the one at its own distance from the epoch, and distances tell instants apart.
pub proof fn timestamp_is_its_distance(t: Timestamp)
    ensures
        Timestamp::at(t@) == t,
{
}

/// The instant at a distance from the epoch has that distance.
pub proof fn instants_stand_at_their_distance(nanos: int)
    requires
        representable(nanos),
    ensures
        Timestamp::at(nanos)@ == nanos,
{
}

/// A span of time. `nanos` counts within the second.
#[derive(Clone, Copy, Debug, PartialEq, Eq, Structural, PartialOrd, Ord, Hash)]
pub struct Duration {
    pub seconds: u64,
    pub nanos: u32,
}

impl Duration {
    /// Whether the span has no length.
    pub fn is_zero(self) -> (r: bool)
        ensures
            r == (self.seconds == 0 && self.nanos == 0),
    {
        self.seconds == 0 && self.nanos == 0
    }
}

/// The later of two instants that may be unknown; a known instant is later than an unknown one.
pub open spec fn later(a: Option<Timestamp>, b: Option<Timestamp>) -> Option<Timestamp> {
    match (a, b) {
        (None, _) => b,
        (_, None) => a,
        (Some(x), Some(y)) => if x@ > y@ {
            a
        } else {
            b
        },
    }
}

/// The order in which instants are taken together does not matter.
pub proof fn later_is_associative_and_commutative(
    a: Option<Timestamp>,
    b: Option<Timestamp>,
    c: Option<Timestamp>,
)
    ensures
        later(a, b) == later(b, a),
        later(later(a, b), c) == later(a, later(b, c)),
        later(a, a) == a,
        later(a, None) == a,
        later(None, a) == a,
{
}

} // verus!
