//! A span of time, as whole seconds and the nanoseconds of a fraction of a second.

use vstd::prelude::*;

verus! {

/// A span of time of `secs` seconds and `nanos` nanoseconds, `nanos` being less
/// than a second.
#[derive(Clone, Copy, Debug, PartialEq, Eq, Structural)]
pub struct Duration {
    secs: u64,
    nanos: u32,
}

/// The number of nanoseconds in a second.
pub const NANOS_PER_SEC: u32 = 1_000_000_000;

impl Duration {
    #[verifier::type_invariant]
    spec fn subsecond(self) -> bool {
        self.nanos < NANOS_PER_SEC
    }

    /// The whole seconds.
    pub closed spec fn whole_secs(self) -> u64 {
        self.secs
    }

    /// The nanoseconds of the fraction of a second.
    pub closed spec fn frac_nanos(self) -> u32 {
        self.nanos
    }

    /// The whole span in nanoseconds.
    pub open spec fn total_nanos(self) -> nat {
        self.whole_secs() as nat * 1_000_000_000 + self.frac_nanos() as nat
    }

    /// `secs` seconds and `nanos` nanoseconds; whole seconds among the
    /// nanoseconds carry over into the seconds.
    pub fn new(secs: u64, nanos: u32) -> (d: Duration)
        requires
            secs + nanos / 1_000_000_000 <= u64::MAX,
        ensures
            d.whole_secs() == secs + nanos / 1_000_000_000,
            d.frac_nanos() == nanos % 1_000_000_000,
    {
        Duration { secs: secs + (nanos / NANOS_PER_SEC) as u64, nanos: nanos % NANOS_PER_SEC }
    }

    /// A span of `micros` microseconds.
    pub fn from_micros(micros: u64) -> (d: Duration)
        ensures
            d.total_nanos() == micros * 1000,
    {
        let secs = micros / 1_000_000;
        let nanos = ((micros % 1_000_000) * 1000) as u32;
        Duration { secs, nanos }
    }

    /// The whole seconds.
    pub fn as_secs(&self) -> (s: u64)
        ensures
            s == self.whole_secs(),
    {
        self.secs
    }

    /// The nanoseconds of the fraction of a second.
    pub fn subsec_nanos(&self) -> (n: u32)
        ensures
            n == self.frac_nanos(),
            n < 1_000_000_000,
    {
        proof {
            use_type_invariant(self);
        }
        self.nanos
    }

    /// The whole span in nanoseconds.
    pub fn as_nanos(&self) -> (n: u128)
        ensures
            n == self.total_nanos(),
    {
        self.secs as u128 * 1_000_000_000 + self.nanos as u128
    }
}

} // verus!
