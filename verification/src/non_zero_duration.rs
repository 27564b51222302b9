//! A duration known to be longer than nothing, for the health-check
//! interval and timeout.

use vstd::prelude::*;

verus! {

/// A positive duration, held as whole seconds and subsecond
/// nanoseconds.
#[derive(Debug, Clone, Copy, PartialEq, Eq, Structural)]
pub struct NonZeroDuration {
    secs: u64,
    nanos: u32,
}

impl NonZeroDuration {
    /// The duration is not zero.
    pub open spec fn wf(self) -> bool {
        self.spec_secs() > 0 || self.spec_nanos() > 0
    }

    pub closed spec fn spec_secs(self) -> u64 {
        self.secs
    }

    pub closed spec fn spec_nanos(self) -> u32 {
        self.nanos
    }

    /// Accept a duration unless it is zero.
    pub fn new(secs: u64, nanos: u32) -> (r: Option<NonZeroDuration>)
        ensures
            match r {
                Some(d) => d.spec_secs() == secs && d.spec_nanos() == nanos && d.wf(),
                None => secs == 0 && nanos == 0,
            },
    {
        if secs == 0 && nanos == 0 {
            None
        } else {
            Some(NonZeroDuration { secs, nanos })
        }
    }

    /// Accept a whole number of seconds unless it is zero.
    pub fn from_secs(secs: u64) -> (r: Option<NonZeroDuration>)
        ensures
            match r {
                Some(d) => d.spec_secs() == secs && d.spec_nanos() == 0 && d.wf(),
                None => secs == 0,
            },
    {
        if secs == 0 {
            None
        } else {
            Some(NonZeroDuration { secs, nanos: 0 })
        }
    }

    /// Accept a number of seconds already known to be positive.
    pub fn from_non_zero_secs(secs: u64) -> (r: NonZeroDuration)
        requires
            secs > 0,
        ensures
            r.spec_secs() == secs && r.spec_nanos() == 0 && r.wf(),
    {
        NonZeroDuration { secs, nanos: 0 }
    }

    /// The whole seconds.
    pub fn secs(&self) -> (r: u64)
        ensures
            r == self.spec_secs(),
    {
        self.secs
    }

    /// The subsecond nanoseconds.
    pub fn nanos(&self) -> (r: u32)
        ensures
            r == self.spec_nanos(),
    {
        self.nanos
    }
}

} // verus!
