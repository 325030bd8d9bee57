//! Points in time.
use chrono::Utc;
use vstd::prelude::*;

verus! {

/// A point in time: whole seconds since the Unix epoch, and the nanoseconds
/// into that second. A leap second has no second of its own: it is the second
/// before it with a thousand million nanoseconds or more.
#[derive(Debug, Clone, Copy, PartialEq, Eq, Structural)]
pub struct Timestamp {
    pub secs: i64,
    pub nanos: u32,
}

pub const NANOS_PER_SEC: i128 = 1_000_000_000;

pub const SECS_PER_DAY: i64 = 86_400;

pub const NANOS_PER_DAY: i128 = 86_400_000_000_000;

/// Division that rounds toward zero.
pub open spec fn div_toward_zero(a: int, b: int) -> int
    recommends
        b > 0,
{
    if a >= 0 {
        a / b
    } else {
        -((-a) / b)
    }
}

impl Timestamp {
    /// `self` is not later than `other`: a leap second comes after its second
    /// and before the next one.
    pub open spec fn up_to(self, other: Timestamp) -> bool {
        self.secs < other.secs || (self.secs == other.secs && self.nanos <= other.nanos)
    }

    /// The second of the day.
    pub open spec fn second_of_day(self) -> int {
        self.secs as int % SECS_PER_DAY as int
    }

    pub open spec fn is_leap(self) -> bool {
        self.nanos >= NANOS_PER_SEC
    }

    /// The leap second that a span of time counts besides the seconds between
    /// its ends: one where the end that is earlier in the day is a leap second.
    pub open spec fn leap_counted(self, earlier: Timestamp) -> int {
        if self.second_of_day() > earlier.second_of_day() && earlier.is_leap() {
            1
        } else if self.second_of_day() < earlier.second_of_day() && self.is_leap() {
            -1
        } else {
            0
        }
    }

    /// The nanoseconds from `earlier` to `self`.
    pub open spec fn elapsed(self, earlier: Timestamp) -> int {
        (self.secs - earlier.secs + self.leap_counted(earlier)) * NANOS_PER_SEC + (self.nanos
            - earlier.nanos)
    }

    /// Whole days from `earlier` to `self`, rounded toward zero.
    pub open spec fn days_after(self, earlier: Timestamp) -> int {
        div_toward_zero(self.elapsed(earlier), NANOS_PER_DAY as int)
    }

    /// Is `self` not later than `other`?
    pub fn not_after(self, other: Timestamp) -> (r: bool)
        ensures
            r == self.up_to(other),
    {
        self.secs < other.secs || (self.secs == other.secs && self.nanos <= other.nanos)
    }

    fn time_of_day(self) -> (r: i64)
        ensures
            r == self.second_of_day(),
    {
        if self.secs >= 0 {
            self.secs % SECS_PER_DAY
        } else {
            SECS_PER_DAY - 1 - (-(self.secs + 1)) % SECS_PER_DAY
        }
    }

    /// The nanoseconds from `earlier` to `self`.
    pub fn nanos_since(self, earlier: Timestamp) -> (r: i128)
        ensures
            r == self.elapsed(earlier),
    {
        let (a, b): (i64, i64) = (self.time_of_day(), earlier.time_of_day());
        let leap: i128 = if a > b && earlier.nanos as i128 >= NANOS_PER_SEC {
            1
        } else if a < b && self.nanos as i128 >= NANOS_PER_SEC {
            -1
        } else {
            0
        };
        (self.secs as i128 - earlier.secs as i128 + leap) * NANOS_PER_SEC + (self.nanos as i128
            - earlier.nanos as i128)
    }

    /// Whole days from `earlier` to `self`, rounded toward zero.
    pub fn days_since(self, earlier: Timestamp) -> (r: i64)
        ensures
            r == self.days_after(earlier),
    {
        let d: i128 = self.nanos_since(earlier);
        if d >= 0 {
            (d / NANOS_PER_DAY) as i64
        } else {
            let days: i64 = ((-d) / NANOS_PER_DAY) as i64;
            -days
        }
    }
}

/// `a` is not later than `b`; no date at all is earlier than every date.
pub open spec fn date_up_to(a: Option<Timestamp>, b: Option<Timestamp>) -> bool {
    match (a, b) {
        (None, _) => true,
        (Some(_), None) => false,
        (Some(x), Some(y)) => x.up_to(y),
    }
}

/// Is `a` not later than `b`?
pub fn date_not_after(a: Option<Timestamp>, b: Option<Timestamp>) -> (r: bool)
    ensures
        r == date_up_to(a, b),
{
    match (a, b) {
        (None, _) => true,
        (Some(_), None) => false,
        (Some(x), Some(y)) => x.not_after(y),
    }
}

/// `chrono::Utc::now`: the machine's clock. Its reading counts from the Unix
/// epoch, with less than a second in the nanoseconds; nothing more is claimed.
#[verifier::external_body]
pub(crate) fn now() -> (r: Timestamp)
    ensures
        r.secs >= 0,
        r.nanos < NANOS_PER_SEC,
{
    let t = Utc::now();
    Timestamp { secs: t.timestamp(), nanos: t.timestamp_subsec_nanos() }
}

/// Time that has passed is counted the same from either end, and for two times
/// none of which is in a leap second it is the seconds between them and what
/// the fractions differ by. A time comes after another exactly when it has the
/// later second, or the later fraction of the same second.
pub proof fn time_is_counted_from_either_end(a: Timestamp, b: Timestamp)
    ensures
        a.elapsed(b) == -b.elapsed(a),
        a.nanos < 1_000_000_000 && b.nanos < 1_000_000_000 ==> a.elapsed(b) == (a.secs - b.secs)
            * 1_000_000_000 + (a.nanos - b.nanos),
        !a.up_to(b) <==> a.secs > b.secs || (a.secs == b.secs && a.nanos > b.nanos),
{
    let (x, y) = (a.secs - b.secs + a.leap_counted(b), b.secs - a.secs + b.leap_counted(a));
    assert(x == -y);
    assert(x * NANOS_PER_SEC == -(y * NANOS_PER_SEC)) by (nonlinear_arith)
        requires
            x == -y,
    ;
}

/// Days are whole days of 86,400 seconds: a span has `n` of them when it is
/// `n` days long and not `n` and one more, forward as well as backward.
pub proof fn days_are_whole_days(a: Timestamp, b: Timestamp, n: int)
    requires
        0 <= n,
        n * 86_400_000_000_000 <= a.elapsed(b) < (n + 1) * 86_400_000_000_000,
    ensures
        a.days_after(b) == n,
        b.days_after(a) == -n,
{
    time_is_counted_from_either_end(a, b);
    let e = a.elapsed(b);
    assert(e / 86_400_000_000_000 == n) by (nonlinear_arith)
        requires
            n * 86_400_000_000_000 <= e < (n + 1) * 86_400_000_000_000,
    ;
}

/// A leap second that time passes on its way through a day is counted: from
/// within it, a later second of the day is one second further off.
pub proof fn a_leap_second_is_counted(a: Timestamp, b: Timestamp)
    requires
        b.nanos >= 1_000_000_000,
        a.nanos < 1_000_000_000,
    ensures
        (a.secs as int) % 86_400 > (b.secs as int) % 86_400 ==> a.elapsed(b) == (a.secs - b.secs + 1)
            * 1_000_000_000 + a.nanos - b.nanos,
        (a.secs as int) % 86_400 <= (b.secs as int) % 86_400 ==> a.elapsed(b) == (a.secs - b.secs)
            * 1_000_000_000 + a.nanos - b.nanos,
{
}

} // verus!
