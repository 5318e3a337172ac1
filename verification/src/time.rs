//! `SimpleTime`: a time of hours, minutes, seconds and milliseconds.

use vstd::prelude::*;
use vstd::arithmetic::div_mod::lemma_fundamental_div_mod;

verus! {

/// Milliseconds in one second.
pub const MILLIS_PER_SECOND: usize = 1000;

/// Milliseconds in one minute.
pub const MILLIS_PER_MINUTE: usize = 60 * MILLIS_PER_SECOND;

/// Milliseconds in one hour.
pub const MILLIS_PER_HOUR: usize = 60 * MILLIS_PER_MINUTE;

/// The mathematical value of a `SimpleTime`: its four fields as natural numbers.
pub struct TimeParts {
    pub hours: nat,
    pub minutes: nat,
    pub seconds: nat,
    pub milliseconds: nat,
}

impl TimeParts {
    /// The time as a number of milliseconds.
    pub open spec fn total_ms(self) -> nat {
        self.hours * 3_600_000 + self.minutes * 60_000 + self.seconds * 1000 + self.milliseconds
    }

    /// The documented ranges of the fields: minutes and seconds in 0-60 inclusive,
    /// milliseconds in 0-999 inclusive.
    pub open spec fn in_range(self) -> bool {
        &&& self.minutes <= 60
        &&& self.seconds <= 60
        &&& self.milliseconds <= 999
    }

    /// Every field below its unit's size, as `from_milliseconds` produces them.
    pub open spec fn is_canonical(self) -> bool {
        &&& self.minutes < 60
        &&& self.seconds < 60
        &&& self.milliseconds < 1000
    }
}

/// The parts of a number of milliseconds: whole hours, then whole minutes of what
/// remains, then whole seconds of what remains, then the rest.
pub open spec fn parts_of_ms(m: nat) -> TimeParts {
    TimeParts {
        hours: m / 3_600_000,
        minutes: (m % 3_600_000) / 60_000,
        seconds: ((m % 3_600_000) % 60_000) / 1000,
        milliseconds: ((m % 3_600_000) % 60_000) % 1000,
    }
}

/// Simple time object to store hours, minutes, seconds, and milliseconds.
///
/// Minutes and seconds are in the range 0-60 inclusive, and milliseconds in the range
/// 0-999 inclusive. There is no support for sub-millisecond resolution.
#[derive(Debug, Clone, Copy)]
pub struct SimpleTime {
    hours: usize,
    minutes: usize,
    seconds: usize,
    milliseconds: usize,
}

impl View for SimpleTime {
    type V = TimeParts;

    closed spec fn view(&self) -> TimeParts {
        TimeParts {
            hours: self.hours as nat,
            minutes: self.minutes as nat,
            seconds: self.seconds as nat,
            milliseconds: self.milliseconds as nat,
        }
    }
}

impl SimpleTime {
    #[verifier::type_invariant]
    spec fn fields_in_range(self) -> bool {
        self@.in_range()
    }

    /// Create a SimpleTime from hours, minutes, seconds, milliseconds.
    /// The values must lie in the documented ranges.
    pub fn from_parts(hours: usize, minutes: usize, seconds: usize, milliseconds: usize) -> (t:
        SimpleTime)
        requires
            minutes <= 60,
            seconds <= 60,
            milliseconds <= 999,
        ensures
            t@ == (TimeParts {
                hours: hours as nat,
                minutes: minutes as nat,
                seconds: seconds as nat,
                milliseconds: milliseconds as nat,
            }),
    {
        SimpleTime { hours, minutes, seconds, milliseconds }
    }

    /// Create a SimpleTime from milliseconds of time.
    pub fn from_milliseconds(m: usize) -> (t: SimpleTime)
        ensures
            t@ == parts_of_ms(m as nat),
            t@.is_canonical(),
            t@.total_ms() == m,
            t@.hours * 3_600_000 + t@.minutes * 60_000 + t@.seconds * 1000 + t@.milliseconds
                == m,
            t@.minutes < 60 && t@.seconds < 60 && t@.milliseconds < 1000,
    {
        let mut t: usize = m;
        let hours = t / MILLIS_PER_HOUR;
        t -= hours * MILLIS_PER_HOUR;
        let minutes = t / MILLIS_PER_MINUTE;
        t -= minutes * MILLIS_PER_MINUTE;
        let seconds = t / MILLIS_PER_SECOND;
        t -= seconds * MILLIS_PER_SECOND;
        let milliseconds = t;
        proof {
            lemma_parts_of_ms(m as nat);
        }
        SimpleTime { hours, minutes, seconds, milliseconds }
    }

    /// The time in milliseconds.
    pub fn to_milliseconds(&self) -> (r: usize)
        requires
            self@.total_ms() <= usize::MAX,
        ensures
            r == self@.total_ms(),
            r == self@.hours * 3_600_000 + self@.minutes * 60_000 + self@.seconds * 1000
                + self@.milliseconds,
    {
        self.hours * MILLIS_PER_HOUR + self.minutes * MILLIS_PER_MINUTE + self.seconds
            * MILLIS_PER_SECOND + self.milliseconds
    }

    /// Get hours.
    pub fn hour(&self) -> (r: usize)
        ensures
            r == self@.hours,
    {
        self.hours
    }

    /// Get minutes.
    pub fn minute(&self) -> (r: usize)
        ensures
            r == self@.minutes,
            r <= 60,
    {
        proof {
            use_type_invariant(self);
        }
        self.minutes
    }

    /// Get seconds.
    pub fn second(&self) -> (r: usize)
        ensures
            r == self@.seconds,
            r <= 60,
    {
        proof {
            use_type_invariant(self);
        }
        self.seconds
    }

    /// Get milliseconds.
    pub fn millisecond(&self) -> (r: usize)
        ensures
            r == self@.milliseconds,
            r <= 999,
    {
        proof {
            use_type_invariant(self);
        }
        self.milliseconds
    }

    /// Offset this timestamp by a (possibly negative) number of milliseconds.
    ///
    /// Fails, leaving the time as it was, when the result would be negative. Otherwise the
    /// time becomes the canonical time of the new number of milliseconds, which is taken
    /// modulo `usize::MAX + 1` when it does not fit in a `usize`.
    pub fn offset(&mut self, offset: isize) -> (r: Result<(), NegativeSimpleTime>)
        requires
            old(self)@.total_ms() <= usize::MAX,
        ensures
            match offset_result(old(self)@, offset as int) {
                None => r is Err && final(self)@ == old(self)@,
                Some(u) => r is Ok && final(self)@ == u,
            },
            r is Err <==> old(self)@.total_ms() + offset < 0,
            r is Err ==> final(self)@ == old(self)@,
            r is Ok && old(self)@.total_ms() + offset <= usize::MAX ==> final(self)@.total_ms()
                == old(self)@.total_ms() + offset,
    {
        let new_millis: i128 = self.to_milliseconds() as i128 + offset as i128;
        if new_millis < 0 {
            Err(NegativeSimpleTime)
        } else {
            let max: i128 = usize::MAX as i128;
            let wrapped: usize = if new_millis > max {
                (new_millis - max - 1) as usize
            } else {
                new_millis as usize
            };
            *self = SimpleTime::from_milliseconds(wrapped);
            Ok(())
        }
    }
}

/// What a non-negative number below `2 * (usize::MAX + 1)` becomes when cast to `usize`.
pub open spec fn wrap_to_usize(n: int) -> nat {
    if n > usize::MAX {
        (n - usize::MAX - 1) as nat
    } else {
        n as nat
    }
}

/// What `offset` makes of the time `t` shifted by `off` milliseconds: `None` when the
/// result would be negative, else the canonical parts of the new number of milliseconds,
/// taken modulo `usize::MAX + 1` when it does not fit in a `usize`.
pub open spec fn offset_result(t: TimeParts, off: int) -> Option<TimeParts> {
    let n = t.total_ms() + off;
    if n < 0 {
        None
    } else {
        Some(parts_of_ms(wrap_to_usize(n)))
    }
}

/// Error type for trying to make a negative SimpleTime.
#[derive(Debug, Clone, Copy)]
pub struct NegativeSimpleTime;

impl NegativeSimpleTime {
    /// The error's message.
    pub fn to_string(&self) -> (r: String)
        ensures
            r@ == "attempted to create negative SimpleTime"@,
    {
        "attempted to create negative SimpleTime".to_owned()
    }
}

/// Splitting a number of milliseconds into parts and adding them up again gives it
/// back, and the parts are canonical.
pub proof fn lemma_parts_of_ms(m: nat)
    ensures
        parts_of_ms(m).total_ms() == m,
        parts_of_ms(m).is_canonical(),
{
    let p = parts_of_ms(m);
    let r1 = m % 3_600_000;
    let r2 = r1 % 60_000;
    lemma_fundamental_div_mod(m as int, 3_600_000);
    lemma_fundamental_div_mod(r1 as int, 60_000);
    lemma_fundamental_div_mod(r2 as int, 1000);
}

/// A canonical time is the splitting of its own number of milliseconds.
pub proof fn lemma_canonical_roundtrip(t: TimeParts)
    requires
        t.is_canonical(),
    ensures
        parts_of_ms(t.total_ms()) == t,
{
    let m = t.total_ms();
    let below_hour = t.minutes * 60_000 + t.seconds * 1000 + t.milliseconds;
    let below_minute = t.seconds * 1000 + t.milliseconds;
    lemma_div_mod_unique(m as int, 3_600_000, t.hours as int, below_hour as int);
    lemma_div_mod_unique(below_hour as int, 60_000, t.minutes as int, below_minute as int);
    lemma_div_mod_unique(below_minute as int, 1000, t.seconds as int, t.milliseconds as int);
}

/// The quotient and remainder of `x` by `d` are the `q` and `r` with `x == q * d + r` and
/// `0 <= r < d`.
proof fn lemma_div_mod_unique(x: int, d: int, q: int, r: int)
    requires
        d > 0,
        0 <= r < d,
        x == q * d + r,
    ensures
        x / d == q,
        x % d == r,
{
    lemma_fundamental_div_mod(x, d);
    lemma_div_mod_unique_step(x, d, q, r);
}

proof fn lemma_div_mod_unique_step(x: int, d: int, q: int, r: int)
    by (nonlinear_arith)
    requires
        d > 0,
        0 <= r < d,
        x == q * d + r,
        x == d * (x / d) + x % d,
        0 <= x % d < d,
    ensures
        x / d == q,
        x % d == r,
{
}

/// Shifting a time by some milliseconds and back gives its canonical form, as long as
/// the shifted time is not negative and fits in a `usize`.
pub proof fn lemma_offset_inverse(t: TimeParts, a: int)
    requires
        t.total_ms() <= usize::MAX,
        0 <= t.total_ms() + a <= usize::MAX,
    ensures
        offset_result(t, a) matches Some(u) && offset_result(u, -a) == Some(
            parts_of_ms(t.total_ms()),
        ),
{
    lemma_parts_of_ms((t.total_ms() + a) as nat);
}

/// Shifting by `a` and then by `b` is shifting by `a + b`, as long as the time in between
/// is not negative and every time fits in a `usize`.
pub proof fn lemma_offset_compose(t: TimeParts, a: int, b: int)
    requires
        0 <= t.total_ms() + a <= usize::MAX,
        t.total_ms() + a + b <= usize::MAX,
    ensures
        offset_result(t, a) matches Some(u) && offset_result(u, b) == offset_result(t, a + b),
{
    lemma_parts_of_ms((t.total_ms() + a) as nat);
}

/// The number of milliseconds of a time is positional: an hour is 3 600 000 ms, a
/// minute 60 000 ms, a second 1000 ms.
pub proof fn lemma_total_ms_formula(t: TimeParts)
    ensures
        t.total_ms() == t.hours * 3_600_000 + t.minutes * 60_000 + t.seconds * 1000
            + t.milliseconds,
{
}

/// The parts of a number of milliseconds add up to it positionally, with minutes and
/// seconds below 60 and milliseconds below 1000; so they are its whole hours, then whole
/// minutes, then whole seconds of what remains.
pub proof fn lemma_parts_of_ms_fields(m: nat)
    ensures
        ({
            let p = parts_of_ms(m);
            &&& p.hours * 3_600_000 + p.minutes * 60_000 + p.seconds * 1000 + p.milliseconds
                == m
            &&& p.minutes < 60 && p.seconds < 60 && p.milliseconds < 1000
        }),
{
    lemma_parts_of_ms(m);
}

/// Shifting by `d` fails exactly when the time would go below zero; otherwise, as long as
/// the result fits in a `usize`, it is the canonical time of the old milliseconds plus `d`.
pub proof fn lemma_offset_law(t: TimeParts, d: int)
    ensures
        ({
            let n = t.hours * 3_600_000 + t.minutes * 60_000 + t.seconds * 1000
                + t.milliseconds + d;
            &&& offset_result(t, d) is None <==> n < 0
            &&& n < 0 ==> offset_result(t, d) == None::<TimeParts>
            &&& 0 <= n <= usize::MAX ==> (offset_result(t, d) matches Some(u) && u.hours
                * 3_600_000 + u.minutes * 60_000 + u.seconds * 1000 + u.milliseconds == n
                && u.minutes < 60 && u.seconds < 60 && u.milliseconds < 1000)
        }),
{
    let n = t.total_ms() + d;
    if n >= 0 {
        lemma_parts_of_ms(wrap_to_usize(n));
    }
}

/// For canonical times, fewer milliseconds means earlier field by field: fewer hours, or
/// as many hours and fewer minutes, and so on.
pub proof fn lemma_total_ms_order(a: TimeParts, b: TimeParts)
    requires
        a.is_canonical(),
        b.is_canonical(),
    ensures
        a.total_ms() < b.total_ms() <==> {
            ||| a.hours < b.hours
            ||| a.hours == b.hours && a.minutes < b.minutes
            ||| a.hours == b.hours && a.minutes == b.minutes && a.seconds < b.seconds
            ||| a.hours == b.hours && a.minutes == b.minutes && a.seconds == b.seconds
                && a.milliseconds < b.milliseconds
        },
        a.total_ms() == b.total_ms() <==> a == b,
{
    let ra = a.minutes * 60_000 + a.seconds * 1000 + a.milliseconds;
    let rb = b.minutes * 60_000 + b.seconds * 1000 + b.milliseconds;
    assert(ra < 3_600_000 && rb < 3_600_000);
    if a.hours < b.hours {
        assert(a.hours * 3_600_000 + 3_600_000 <= b.hours * 3_600_000) by (nonlinear_arith)
            requires
                a.hours < b.hours,
        ;
    } else if a.hours > b.hours {
        assert(b.hours * 3_600_000 + 3_600_000 <= a.hours * 3_600_000) by (nonlinear_arith)
            requires
                a.hours > b.hours,
        ;
    }
}

} // verus!
