//! Moments in time, and the clock arithmetic of the `time` crate that the
//! metrics store relies on.
use vstd::prelude::*;

verus! {

/// Nanoseconds in one second.
pub const NSEC_PER_SEC: i32 = 1_000_000_000;

/// Seconds on either side of the epoch inside which clock arithmetic on a
/// timestamp cannot overflow (about 146 billion years).
pub const MAX_CLOCK_SEC: i64 = 4_611_686_018_427_387_904;

/// A moment in time: whole seconds since the epoch and the nanoseconds past
/// that second, as `time::Timespec` holds it.
#[derive(Clone, Copy, Debug, PartialEq, Eq, Structural)]
pub struct Timespec {
    pub sec: i64,
    pub nsec: i32,
}

/// The moment that lies `t` nanoseconds after the epoch, with its nanoseconds
/// in `0..10^9`.
pub open spec fn timespec_from_nanos(t: int) -> Timespec {
    Timespec { sec: (t / 1_000_000_000) as i64, nsec: (t % 1_000_000_000) as i32 }
}

/// A moment `t` nanoseconds after the epoch comes strictly before `ts` in the
/// order of `(sec, nsec)` pairs.
pub open spec fn nanos_before(t: int, ts: Timespec) -> bool {
    ||| t / 1_000_000_000 < ts.sec
    ||| (t / 1_000_000_000 == ts.sec && t % 1_000_000_000 < ts.nsec)
}

/// Whole seconds inside which clock arithmetic cannot overflow.
pub open spec fn in_clock_range(sec: i64) -> bool {
    -MAX_CLOCK_SEC <= sec <= MAX_CLOCK_SEC
}

impl Timespec {
    /// The nanoseconds lie in `0..10^9`, as `time::Timespec::new` demands.
    pub open spec fn is_normalized(self) -> bool {
        0 <= self.nsec < 1_000_000_000
    }

    /// Nanoseconds since the epoch.
    pub open spec fn total_nanos(self) -> int {
        self.sec * 1_000_000_000 + self.nsec
    }

    /// The order of `time::Timespec`, which derives it from `(sec, nsec)`.
    pub open spec fn spec_before(self, other: Timespec) -> bool {
        self.sec < other.sec || (self.sec == other.sec && self.nsec < other.nsec)
    }

    /// Whether `self` comes strictly before `other`.
    pub fn before(&self, other: &Timespec) -> (r: bool)
        ensures
            r == self.spec_before(*other),
    {
        self.sec < other.sec || (self.sec == other.sec && self.nsec < other.nsec)
    }
}

/// A normalized moment is the one its nanosecond count names.
pub proof fn lemma_normalized_from_nanos(t: Timespec)
    requires
        t.is_normalized(),
    ensures
        timespec_from_nanos(t.total_nanos()) == t,
        nanos_before(t.total_nanos(), t) == false,
        forall|u: Timespec| #[trigger] nanos_before(t.total_nanos(), u) == t.spec_before(u),
{
    assert(t.total_nanos() / 1_000_000_000 == t.sec && t.total_nanos() % 1_000_000_000 == t.nsec)
        by (nonlinear_arith)
        requires
            0 <= t.nsec < 1_000_000_000,
    ;
}

/// A nanosecond count splits into whole seconds and the nanoseconds left over.
pub proof fn lemma_nanos_split(t: int)
    ensures
        t == (t / 1_000_000_000) * 1_000_000_000 + t % 1_000_000_000,
        0 <= t % 1_000_000_000 < 1_000_000_000,
        t < (t / 1_000_000_000 + 1) * 1_000_000_000,
        (t / 1_000_000_000) * 1_000_000_000 <= t,
{
    vstd::arithmetic::div_mod::lemma_fundamental_div_mod(t, 1_000_000_000);
    vstd::arithmetic::div_mod::lemma_mod_bound(t, 1_000_000_000);
}

/// The moment a nanosecond count names is normalized and counts those
/// nanoseconds, as long as its seconds fit an `i64`.
pub proof fn lemma_from_nanos(t: int)
    requires
        i64::MIN <= t / 1_000_000_000 <= i64::MAX,
    ensures
        timespec_from_nanos(t).is_normalized(),
        timespec_from_nanos(t).total_nanos() == t,
        timespec_from_nanos(t).sec == t / 1_000_000_000,
        forall|u: Timespec| #[trigger] nanos_before(t, u) == timespec_from_nanos(t).spec_before(u),
{
    lemma_nanos_split(t);
}

/// A moment before `ts` lies less than a second past `ts`'s whole second.
pub proof fn lemma_nanos_before_bound(t: int, ts: Timespec)
    ensures
        nanos_before(t, ts) ==> t < (ts.sec + 1) * 1_000_000_000,
{
    lemma_nanos_split(t);
}

/// The first nanosecond count that does not come before `ts`: a count comes
/// before `ts` exactly when it is below this one.
pub open spec fn threshold(ts: Timespec) -> int {
    if ts.nsec < 0 {
        ts.sec * 1_000_000_000
    } else if ts.nsec >= 1_000_000_000 {
        (ts.sec + 1) * 1_000_000_000
    } else {
        ts.sec * 1_000_000_000 + ts.nsec
    }
}

/// Coming before a moment is being below its threshold.
pub proof fn lemma_before_threshold(t: int, ts: Timespec)
    ensures
        nanos_before(t, ts) == (t < threshold(ts)),
{
    lemma_nanos_split(t);
}

/// `time::get_time`: the current time. The source builds its result with
/// `Timespec::new`, which asserts that the nanoseconds lie in `0..10^9`; that
/// is all that is claimed, the seconds are whatever the system clock says.
#[verifier::external_body]
pub(crate) fn current_time() -> (t: Timespec)
    ensures
        t.is_normalized(),
{
    let t = time::get_time();
    Timespec { sec: t.sec, nsec: t.nsec }
}

/// `time::Timespec + time::Duration`, the duration made by
/// `Duration::nanoseconds(span)`. The source adds the whole seconds and the
/// remaining nanoseconds of the duration and carries once, so the sum is
/// exact and its nanoseconds lie in `0..10^9`. It can only overflow near the
/// ends of the `i64` seconds, which `requires` keeps away from (a span of
/// `i64` nanoseconds is under 10^10 seconds).
#[verifier::external_body]
pub(crate) fn advance(t: Timespec, span: i64) -> (r: Timespec)
    requires
        t.is_normalized(),
        i64::MIN + 10_000_000_000 <= t.sec <= i64::MAX - 10_000_000_000,
    ensures
        r == timespec_from_nanos(t.total_nanos() + span),
{
    let r = time::Timespec::new(t.sec, t.nsec) + time::Duration::nanoseconds(span);
    Timespec { sec: r.sec, nsec: r.nsec }
}

/// What `((now - start) / points).num_nanoseconds()` gives with the `time`
/// crate: the span between two moments divided into `points` parts, in
/// nanoseconds, or `None` when that does not fit an `i64`.
pub uninterp spec fn clock_span(
    now_sec: i64,
    now_nsec: i32,
    start_sec: i64,
    start_nsec: i32,
    points: i32,
) -> Option<i64>;

/// `Sub<Timespec> for time::Timespec`, then `Div<i32> for time::Duration`,
/// then `Duration::num_nanoseconds`. The division truncates the seconds and
/// the nanoseconds separately, so its result is named, not stated. The
/// subtraction panics when the seconds between the two moments leave the
/// range of `Duration::seconds` (`i64::MAX / 1000`), and the division panics
/// on zero points; `requires` keeps away from both.
#[verifier::external_body]
pub(crate) fn span_per_point(now: Timespec, start: Timespec, points: i32) -> (r: Option<i64>)
    requires
        now.is_normalized(),
        start.is_normalized(),
        points != 0,
        -(i64::MAX / 1000) <= now.sec - start.sec <= i64::MAX / 1000,
    ensures
        r == clock_span(now.sec, now.nsec, start.sec, start.nsec, points),
{
    let elapsed = time::Timespec::new(now.sec, now.nsec) - time::Timespec::new(start.sec, start.nsec);
    (elapsed / points).num_nanoseconds()
}

} // verus!
