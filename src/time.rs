use vstd::prelude::*;

verus! {

/// The number of nanoseconds in a second.
pub const NANOS_PER_SECOND: u32 = 1000000000;

/// A point in time (UTC): whole seconds since the Unix epoch, plus nanoseconds into that second.
#[derive(Clone, Copy, Debug, PartialEq, Eq, Structural)]
pub struct Timestamp {
    pub seconds: i64,
    pub nanos: u32,
}

impl Timestamp {
    /// The nanoseconds stay below one second.
    pub open spec fn wf(self) -> bool {
        self.nanos < NANOS_PER_SECOND
    }

    /// Nanoseconds since the Unix epoch.
    pub open spec fn total_nanos(self) -> int {
        self.seconds * NANOS_PER_SECOND + self.nanos
    }

    /// The instant `seconds` (plus `nanos`) after the Unix epoch.
    pub fn new(seconds: i64, nanos: u32) -> (r: Timestamp)
        requires
            nanos < NANOS_PER_SECOND,
        ensures
            r.seconds == seconds,
            r.nanos == nanos,
            r.wf(),
    {
        Timestamp { seconds, nanos }
    }

    pub(crate) fn total_nanos_exec(self) -> (r: i128)
        ensures
            r == self.total_nanos(),
    {
        self.seconds as i128 * 1000000000 + self.nanos as i128
    }
}

/// The whole seconds from `begin` to `end`, the fraction dropped; `end` is not earlier.
pub open spec fn elapsed_seconds(begin: Timestamp, end: Timestamp) -> int {
    (end.total_nanos() - begin.total_nanos()) / (NANOS_PER_SECOND as int)
}

} // verus!
