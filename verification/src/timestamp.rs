//! Points in time.

use vstd::prelude::*;

verus! {

/// A point in time: nanoseconds since the Unix epoch, negative before it.
#[derive(Clone, Copy, Debug, PartialEq, Eq, Structural)]
pub struct Timestamp {
    pub nanos: i128,
}

/// Nanoseconds in a second.
pub const NANOS_PER_SEC: i128 = 1_000_000_000;

impl View for Timestamp {
    type V = int;

    open spec fn view(&self) -> int {
        self.nanos as int
    }
}

impl Timestamp {
    /// The Unix epoch.
    pub fn epoch() -> (r: Timestamp)
        ensures
            r@ == 0,
    {
        Timestamp { nanos: 0 }
    }

    /// The point `secs` seconds and `nanos` nanoseconds after the epoch.
    pub fn after_epoch(secs: u64, nanos: u32) -> (r: Timestamp)
        ensures
            r@ == secs * NANOS_PER_SEC + nanos,
    {
        Timestamp { nanos: (secs as i128) * NANOS_PER_SEC + (nanos as i128) }
    }

    /// The point `secs` seconds and `nanos` nanoseconds before the epoch.
    pub fn before_epoch(secs: u64, nanos: u32) -> (r: Timestamp)
        ensures
            r@ == -(secs * NANOS_PER_SEC + nanos),
    {
        Timestamp { nanos: -((secs as i128) * NANOS_PER_SEC + (nanos as i128)) }
    }
}

} // verus!
