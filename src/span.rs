//! Time ranges with optional, inclusive bounds.
use crate::time::Timestamp;
use vstd::prelude::*;

verus! {

/// A range of instants; a missing bound leaves that side open, and both
/// bounds belong to the range.
#[derive(Clone, Copy, Debug, PartialEq, Eq, Structural)]
pub struct TimeSpan {
    pub start_time: Option<Timestamp>,
    pub end_time: Option<Timestamp>,
}

impl TimeSpan {
    pub open spec fn spec_contains(self, t: Timestamp) -> bool {
        &&& (self.start_time matches Some(st) ==> st.spec_le(t))
        &&& (self.end_time matches Some(et) ==> t.spec_le(et))
    }

    pub fn new(start_time: Option<Timestamp>, end_time: Option<Timestamp>) -> (r: TimeSpan)
        ensures
            r.start_time == start_time,
            r.end_time == end_time,
    {
        TimeSpan { start_time, end_time }
    }

    /// Every instant.
    pub fn all() -> (r: TimeSpan)
        ensures
            r.start_time is None,
            r.end_time is None,
    {
        TimeSpan { start_time: None, end_time: None }
    }

    /// Instants up to `end_time`, inclusive.
    pub fn new_before(end_time: Timestamp) -> (r: TimeSpan)
        ensures
            r.start_time is None,
            r.end_time == Some(end_time),
    {
        TimeSpan { start_time: None, end_time: Some(end_time) }
    }

    /// Instants from `start_time` on, inclusive.
    pub fn new_after(start_time: Timestamp) -> (r: TimeSpan)
        ensures
            r.start_time == Some(start_time),
            r.end_time is None,
    {
        TimeSpan { start_time: Some(start_time), end_time: None }
    }

    pub fn contains(&self, t: &Timestamp) -> (r: bool)
        ensures
            r == self.spec_contains(*t),
    {
        let after_start = match &self.start_time {
            Some(st) => st.le(t),
            None => true,
        };
        let before_end = match &self.end_time {
            Some(et) => t.le(et),
            None => true,
        };
        after_start && before_end
    }
}

} // verus!
