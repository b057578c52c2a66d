use vstd::prelude::*;

verus! {

/// Nanoseconds in one second.
pub const NANOS_PER_SEC: u128 = 1_000_000_000;

/// The longest span a measurement can hold: `u64::MAX` whole seconds and
/// 999_999_999 nanoseconds, as for a standard duration.
pub const MAX_NANOS: u128 = 18_446_744_073_709_551_615_999_999_999;

/// A measured span of time, counted in nanoseconds.
///
/// It has the range of a standard duration: at most `u64::MAX` seconds and
/// a sub-second part below one second.
#[derive(Clone, Copy, Debug)]
pub struct Elapsed {
    nanos: u128,
}

impl View for Elapsed {
    type V = nat;

    /// The span in nanoseconds.
    closed spec fn view(&self) -> nat {
        self.nanos as nat
    }
}

impl Elapsed {
    #[verifier::type_invariant]
    spec fn within_range(self) -> bool {
        self.nanos <= MAX_NANOS
    }

    /// The empty span.
    pub fn zero() -> (r: Elapsed)
        ensures
            r@ == 0,
    {
        Elapsed { nanos: 0 }
    }

    /// A span of whole seconds.
    pub fn from_secs(secs: u64) -> (r: Elapsed)
        ensures
            r@ == secs * NANOS_PER_SEC,
    {
        Elapsed { nanos: (secs as u128) * NANOS_PER_SEC }
    }

    /// A span of `secs` seconds and `nanos` nanoseconds; nanoseconds beyond
    /// one second carry into the seconds.
    pub fn new(secs: u64, nanos: u32) -> (r: Elapsed)
        requires
            secs * NANOS_PER_SEC + nanos <= MAX_NANOS,
        ensures
            r@ == secs * NANOS_PER_SEC + nanos,
    {
        Elapsed { nanos: (secs as u128) * NANOS_PER_SEC + (nanos as u128) }
    }

    /// The whole seconds of the span.
    pub fn as_secs(&self) -> (r: u64)
        ensures
            r == self@ / (NANOS_PER_SEC as nat),
    {
        proof {
            use_type_invariant(self);
        }
        (self.nanos / NANOS_PER_SEC) as u64
    }

    /// The part of the span below one second, in nanoseconds.
    pub fn subsec_nanos(&self) -> (r: u32)
        ensures
            r == self@ % (NANOS_PER_SEC as nat),
            r < NANOS_PER_SEC,
    {
        (self.nanos % NANOS_PER_SEC) as u32
    }

    /// The span in nanoseconds.
    pub fn as_nanos(&self) -> (r: u128)
        ensures
            r == self@,
            r <= MAX_NANOS,
    {
        proof {
            use_type_invariant(self);
        }
        self.nanos
    }

    /// The sum of two spans, or `None` where it leaves the range.
    pub fn checked_add(&self, other: &Elapsed) -> (r: Option<Elapsed>)
        ensures
            r is Some <==> self@ + other@ <= MAX_NANOS,
            r matches Some(s) ==> s@ == self@ + other@,
    {
        proof {
            use_type_invariant(self);
            use_type_invariant(other);
        }
        let sum = self.nanos + other.nanos;
        if sum <= MAX_NANOS {
            Some(Elapsed { nanos: sum })
        } else {
            None
        }
    }

    /// The sum of two spans that stays within the range.
    pub fn add(&self, other: &Elapsed) -> (r: Elapsed)
        requires
            self@ + other@ <= MAX_NANOS,
        ensures
            r@ == self@ + other@,
    {
        Elapsed { nanos: self.nanos + other.nanos }
    }

    /// The difference of two spans, the second no longer than the first.
    pub fn sub(&self, other: &Elapsed) -> (r: Elapsed)
        requires
            other@ <= self@,
        ensures
            r@ == self@ - other@,
    {
        proof {
            use_type_invariant(self);
        }
        Elapsed { nanos: self.nanos - other.nanos }
    }

    /// Whether this span is strictly longer than `other`.
    pub fn is_longer_than(&self, other: &Elapsed) -> (r: bool)
        ensures
            r == (self@ > other@),
    {
        self.nanos > other.nanos
    }
}

} // verus!
