//! Signed durations with nanosecond precision, wide enough for any span of
//! instants the library can represent.

use vstd::prelude::*;

verus! {

/// Signed duration with nanosecond precision.
#[derive(Debug, Clone, Copy, PartialEq, Eq, PartialOrd, Ord, Hash, Structural)]
#[verifier::ext_equal]
pub struct Duration {
    nanos: i128,
}

/// A duration is nothing but its nanosecond count: equal counts mean equal
/// values.
pub proof fn lemma_duration_extensional(a: Duration, b: Duration)
    ensures
        (a == b) <==> (a.nanos_s() == b.nanos_s()),
{
    if a.nanos_s() == b.nanos_s() {
        assert(a =~= b);
    }
}

impl Duration {
    /// The signed nanosecond count this duration stands for.
    pub closed spec fn nanos_s(self) -> int {
        self.nanos as int
    }

    /// A duration of `secs` whole seconds.
    pub fn seconds(secs: i64) -> (r: Duration)
        ensures
            r.nanos_s() == secs * 1_000_000_000,
    {
        Duration { nanos: (secs as i128) * 1_000_000_000 }
    }

    /// A duration of `ms` whole milliseconds.
    pub fn milliseconds(ms: i64) -> (r: Duration)
        ensures
            r.nanos_s() == ms * 1_000_000,
    {
        Duration { nanos: (ms as i128) * 1_000_000 }
    }

    /// A duration of `us` whole microseconds.
    pub fn microseconds(us: i64) -> (r: Duration)
        ensures
            r.nanos_s() == us * 1_000,
    {
        Duration { nanos: (us as i128) * 1_000 }
    }

    /// A duration of `ns` nanoseconds.
    pub fn nanoseconds(ns: i128) -> (r: Duration)
        ensures
            r.nanos_s() == ns,
    {
        Duration { nanos: ns }
    }

    /// The exact nanosecond count.
    pub fn total_nanos(self) -> (r: i128)
        ensures
            r == self.nanos_s(),
    {
        self.nanos
    }
}

/// The duration whose nanosecond count is `n` (meaningful while `n` fits
/// the backing 128-bit integer).
pub closed spec fn duration_from_nanos_s(n: int) -> Duration {
    Duration { nanos: n as i128 }
}

/// Within the backing range, `duration_from_nanos_s` holds exactly the
/// count it was given.
pub proof fn lemma_duration_from_nanos(n: int)
    requires
        i128::MIN <= n <= i128::MAX,
    ensures
        duration_from_nanos_s(n).nanos_s() == n,
{
}

impl std::ops::Add for Duration {
    type Output = Duration;

    /// Sum of two durations; the caller keeps the result in range.
    fn add(self, rhs: Duration) -> (r: Duration) {
        Duration { nanos: self.nanos + rhs.nanos }
    }
}

impl vstd::std_specs::ops::AddSpecImpl for Duration {
    open spec fn obeys_add_spec() -> bool {
        true
    }

    open spec fn add_req(self, rhs: Duration) -> bool {
        i128::MIN <= self.nanos_s() + rhs.nanos_s() <= i128::MAX
    }

    open spec fn add_spec(self, rhs: Duration) -> Duration {
        duration_from_nanos_s(self.nanos_s() + rhs.nanos_s())
    }
}

impl std::ops::Sub for Duration {
    type Output = Duration;

    /// Difference of two durations; the caller keeps the result in range.
    fn sub(self, rhs: Duration) -> (r: Duration) {
        Duration { nanos: self.nanos - rhs.nanos }
    }
}

impl vstd::std_specs::ops::SubSpecImpl for Duration {
    open spec fn obeys_sub_spec() -> bool {
        true
    }

    open spec fn sub_req(self, rhs: Duration) -> bool {
        i128::MIN <= self.nanos_s() - rhs.nanos_s() <= i128::MAX
    }

    open spec fn sub_spec(self, rhs: Duration) -> Duration {
        duration_from_nanos_s(self.nanos_s() - rhs.nanos_s())
    }
}

impl std::ops::Neg for Duration {
    type Output = Duration;

    /// The negated duration; the caller rules out the one extreme value.
    fn neg(self) -> (r: Duration) {
        Duration { nanos: -self.nanos }
    }
}

impl vstd::std_specs::ops::NegSpecImpl for Duration {
    open spec fn obeys_neg_spec() -> bool {
        true
    }

    open spec fn neg_req(self) -> bool {
        self.nanos_s() != i128::MIN
    }

    open spec fn neg_spec(self) -> Duration {
        duration_from_nanos_s(-self.nanos_s())
    }
}

} // verus!
