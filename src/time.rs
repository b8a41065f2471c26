//! Wall-clock instants in UTC, as whole microseconds since the Unix epoch.
use vstd::prelude::*;

verus! {

/// A UTC instant: microseconds since 1970-01-01T00:00:00Z.
#[derive(Clone, Copy, Debug, PartialEq, Eq, Structural)]
pub struct Timestamp {
    pub micros: i64,
}

/// How long from `now` until `at`, never negative.
pub open spec fn delay_micros(at: Timestamp, now: Timestamp) -> int {
    if at.micros > now.micros {
        at.micros - now.micros
    } else {
        0
    }
}

impl Timestamp {
    pub fn from_micros(micros: i64) -> (r: Timestamp)
        ensures
            r.micros == micros,
    {
        Timestamp { micros }
    }

    /// This instant plus `micros`, or `None` where it leaves the range.
    pub fn checked_add_micros(self, micros: i64) -> (r: Option<Timestamp>)
        ensures
            r.is_some() == (i64::MIN <= self.micros + micros <= i64::MAX),
            r.is_some() ==> r.unwrap().micros == self.micros + micros,
    {
        match self.micros.checked_add(micros) {
            Some(m) => Some(Timestamp { micros: m }),
            None => None,
        }
    }

    /// Whether this instant is at or before `other`.
    pub fn is_at_or_before(self, other: Timestamp) -> (r: bool)
        ensures
            r == (self.micros <= other.micros),
    {
        self.micros <= other.micros
    }

    /// Microseconds from `now` until this instant; zero if it is not later.
    pub fn delay_from(self, now: Timestamp) -> (r: u64)
        ensures
            r == delay_micros(self, now),
    {
        if self.micros > now.micros {
            let d: i128 = self.micros as i128 - now.micros as i128;
            d as u64
        } else {
            0
        }
    }
}

} // verus!
