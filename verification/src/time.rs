//! The time domain: working days, clock times, instants of the week, and
//! half-open availability windows.

use vstd::prelude::*;

verus! {

/// A day of the week (Mon - Fri, since noone can be reached on the weekend).
#[derive(Debug, PartialEq, Eq, Structural, Hash, Clone, Copy)]
pub enum Day {
    Mon,
    Tue,
    Wed,
    Thu,
    Fri,
}

/// The two days that carry no `Day` value.
#[derive(Debug, PartialEq, Eq, Structural, Clone, Copy)]
pub enum WeekendError {
    Sat,
    Sun,
}

/// The position of a day in the week, counted from Monday.
pub open spec fn day_ord(d: Day) -> int {
    match d {
        Day::Mon => 0,
        Day::Tue => 1,
        Day::Wed => 2,
        Day::Thu => 3,
        Day::Fri => 4,
    }
}

/// The day standing at position `n` of the week, counted from Monday.
pub open spec fn day_of_ord(n: int) -> Day {
    if n == 0 {
        Day::Mon
    } else if n == 1 {
        Day::Tue
    } else if n == 2 {
        Day::Wed
    } else if n == 3 {
        Day::Thu
    } else {
        Day::Fri
    }
}

/// The inclusive run of days from `a` to `b` in week order: `a` first,
/// then each successor up to and including `b`.
pub open spec fn day_span(a: Day, b: Day) -> Seq<Day>
    recommends
        day_ord(a) <= day_ord(b),
{
    Seq::new((day_ord(b) - day_ord(a) + 1) as nat, |k: int| day_of_ord(day_ord(a) + k))
}

/// The successor of a day, defined for every day before Friday.
pub open spec fn spec_next(d: Day) -> Day
    recommends
        d != Day::Fri,
{
    day_of_ord(day_ord(d) + 1)
}

impl Day {
    /// The position of this day in the week, counted from Monday.
    pub fn ord(&self) -> (r: u8)
        ensures
            r as int == day_ord(*self),
    {
        match self {
            Day::Mon => 0,
            Day::Tue => 1,
            Day::Wed => 2,
            Day::Thu => 3,
            Day::Fri => 4,
        }
    }

    /// The next working day. Friday has no successor: ranges of days are
    /// built forward and never wrap around the weekend.
    pub fn next(&self) -> (r: Day)
        requires
            *self != Day::Fri,
        ensures
            r == spec_next(*self),
            day_ord(r) == day_ord(*self) + 1,
    {
        match self {
            Day::Mon => Day::Tue,
            Day::Tue => Day::Wed,
            Day::Wed => Day::Thu,
            Day::Thu => Day::Fri,
            Day::Fri => Day::Mon,  // unreachable: ruled out by the precondition
        }
    }
}

/// A day range from `a` to a no-earlier `b` stands for the inclusive list
/// of the days from `a` to `b` in week order: the first entry is `a`, the
/// last is `b`, and the k-th entry stands k positions after `a`.
pub proof fn lemma_day_span_inclusive(a: Day, b: Day)
    requires
        day_ord(a) <= day_ord(b),
    ensures
        day_span(a, b).len() == day_ord(b) - day_ord(a) + 1,
        day_span(a, b)[0] == a,
        day_span(a, b).last() == b,
        forall|k: int|
            0 <= k < day_span(a, b).len() ==> day_ord(#[trigger] day_span(a, b)[k]) == day_ord(a)
                + k,
{
}

/// The successor chain Mon, Tue, Wed, Thu, Fri is strict and total below
/// its end: every day before Friday steps exactly one position forward in
/// the week, while Friday, the last working day, has no successor at all
/// (`next` demands a day before Friday).
pub proof fn lemma_day_successor_chain()
    ensures
        spec_next(Day::Mon) == Day::Tue,
        spec_next(Day::Tue) == Day::Wed,
        spec_next(Day::Wed) == Day::Thu,
        spec_next(Day::Thu) == Day::Fri,
        forall|d: Day| d != Day::Fri ==> day_ord(#[trigger] spec_next(d)) == day_ord(d) + 1,
{
}

/// A time of the day in single-minute precision.
#[derive(Debug, PartialEq, Eq, Structural, Clone, Copy)]
pub struct Clock {
    pub hours: u8,
    pub minutes: u8,
}

impl Clock {
    /// Both components in range: at most 23 hours, at most 59 minutes.
    pub open spec fn wf(&self) -> bool {
        self.hours <= 23 && self.minutes <= 59
    }

    /// Construction demands both components in range and preserves them.
    pub fn new(hours: u8, minutes: u8) -> (r: Clock)
        requires
            hours <= 23,
            minutes <= 59,
        ensures
            r == (Clock { hours, minutes }),
            r.wf(),
    {
        Clock { hours, minutes }
    }

    pub fn hours(&self) -> (r: u8)
        ensures
            r == self.hours,
    {
        self.hours
    }

    pub fn minutes(&self) -> (r: u8)
        ensures
            r == self.minutes,
    {
        self.minutes
    }
}

/// Clock order: by hours first, then by minutes.
pub open spec fn clock_le(a: Clock, b: Clock) -> bool {
    a.hours < b.hours || (a.hours == b.hours && a.minutes <= b.minutes)
}

impl PartialOrd for Clock {
    fn partial_cmp(&self, other: &Clock) -> (r: Option<core::cmp::Ordering>) {
        if self.hours < other.hours {
            Some(core::cmp::Ordering::Less)
        } else if self.hours > other.hours {
            Some(core::cmp::Ordering::Greater)
        } else if self.minutes < other.minutes {
            Some(core::cmp::Ordering::Less)
        } else if self.minutes > other.minutes {
            Some(core::cmp::Ordering::Greater)
        } else {
            Some(core::cmp::Ordering::Equal)
        }
    }
}

impl vstd::std_specs::cmp::PartialOrdSpecImpl for Clock {
    open spec fn obeys_partial_cmp_spec() -> bool {
        true
    }

    open spec fn partial_cmp_spec(&self, other: &Clock) -> Option<core::cmp::Ordering> {
        if self.hours < other.hours {
            Some(core::cmp::Ordering::Less)
        } else if self.hours > other.hours {
            Some(core::cmp::Ordering::Greater)
        } else if self.minutes < other.minutes {
            Some(core::cmp::Ordering::Less)
        } else if self.minutes > other.minutes {
            Some(core::cmp::Ordering::Greater)
        } else {
            Some(core::cmp::Ordering::Equal)
        }
    }
}

/// Strict clock order, the complement of `clock_le` with the sides swapped.
pub open spec fn clock_lt(a: Clock, b: Clock) -> bool {
    a.hours < b.hours || (a.hours == b.hours && a.minutes < b.minutes)
}

/// A time of the week.
#[derive(Debug, Clone, Copy)]
pub struct Time {
    pub day: Day,
    pub clock: Clock,
}

/// Why no current `Time` could be produced: the local offset was not
/// determinable, or today is a weekend day outside the working week.
#[derive(Debug, Clone, Copy)]
pub enum NowError {
    IndeterminateOffset,
    Weekend(WeekendError),
}

/// Relies on time::OffsetDateTime::now_local for the current local date and
/// time, or an error when the local offset cannot be determined. The opaque
/// result is handed on as plain values: its weekday, zero-indexed from
/// Monday (so at most 6) by time::Weekday::number_days_from_monday, and its
/// clock components, within their clock ranges as time::Time::as_hms
/// documents, the seconds dropped. Nothing more is assumed of the outcome.
#[verifier::external_body]
fn local_now_parts() -> (r: Result<(u8, u8, u8), ()>)
    ensures
        r matches Ok(p) ==> p.0 <= 6 && p.1 <= 23 && p.2 <= 59,
{
    match time::OffsetDateTime::now_local() {
        Ok(t) => {
            let (hours, minutes, _seconds) = t.time().as_hms();
            Ok((t.weekday().number_days_from_monday(), hours, minutes))
        },
        Err(_) => Err(()),
    }
}

impl Time {
    /// Both components well-formed.
    pub open spec fn wf(&self) -> bool {
        self.clock.wf()
    }

    pub fn new(day: Day, clock: Clock) -> (r: Time)
        ensures
            r == (Time { day, clock }),
    {
        Time { day, clock }
    }

    /// The instant a clock provider reported, given as the zero-indexed day
    /// of the week from Monday plus the clock components. The two weekend
    /// days carry no `Day` value and are reported as such.
    pub fn from_parts(days_from_monday: u8, hours: u8, minutes: u8) -> (r: Result<Time, NowError>)
        requires
            days_from_monday <= 6,
            hours <= 23,
            minutes <= 59,
        ensures
            days_from_monday <= 4 ==> r == Ok::<Time, NowError>(
                Time { day: day_of_ord(days_from_monday as int), clock: Clock { hours, minutes } },
            ),
            days_from_monday == 5 ==> r == Err::<Time, NowError>(
                NowError::Weekend(WeekendError::Sat),
            ),
            days_from_monday == 6 ==> r == Err::<Time, NowError>(
                NowError::Weekend(WeekendError::Sun),
            ),
    {
        let clock = Clock { hours, minutes };
        if days_from_monday == 0 {
            Ok(Time { day: Day::Mon, clock })
        } else if days_from_monday == 1 {
            Ok(Time { day: Day::Tue, clock })
        } else if days_from_monday == 2 {
            Ok(Time { day: Day::Wed, clock })
        } else if days_from_monday == 3 {
            Ok(Time { day: Day::Thu, clock })
        } else if days_from_monday == 4 {
            Ok(Time { day: Day::Fri, clock })
        } else if days_from_monday == 5 {
            Err(NowError::Weekend(WeekendError::Sat))
        } else {
            Err(NowError::Weekend(WeekendError::Sun))
        }
    }

    /// The current instant of the working week, from the local clock. On a
    /// weekend day, or when the local offset cannot be determined, an error
    /// is returned instead.
    pub fn now() -> (r: Result<Time, NowError>)
        ensures
            r matches Ok(t) ==> t.wf(),
    {
        match local_now_parts() {
            Ok((days_from_monday, hours, minutes)) => Time::from_parts(
                days_from_monday,
                hours,
                minutes,
            ),
            Err(()) => Err(NowError::IndeterminateOffset),
        }
    }
}

/// The timing information of a single contiguous reachability by phone.
#[derive(Debug, PartialEq, Eq, Structural, Clone, Copy)]
pub struct OfficeHour {
    pub day: Day,
    pub begin: Clock,
    pub end: Clock,
}

impl OfficeHour {
    /// The window holds an instant exactly when the days agree and the clock
    /// lies in the half-open interval from `begin` (included) to `end`
    /// (excluded).
    pub open spec fn spec_contains(&self, time: Time) -> bool {
        self.day == time.day && clock_le(self.begin, time.clock) && clock_lt(time.clock, self.end)
    }

    pub fn new(day: Day, begin: Clock, end: Clock) -> (r: OfficeHour)
        ensures
            r == (OfficeHour { day, begin, end }),
    {
        OfficeHour { day, begin, end }
    }

    pub fn contains(&self, time: &Time) -> (r: bool)
        ensures
            r == self.spec_contains(*time),
    {
        let same_day = self.day == time.day;
        let after_begin = self.begin <= time.clock;
        let before_end = self.end > time.clock;
        same_day && after_begin && before_end
    }
}

/// An availability window is half-open: it holds its beginning, holds every
/// same-day instant strictly before its end, and holds neither its end nor
/// any instant of another day. A window whose end does not lie strictly
/// after its beginning holds no instant at all.
pub proof fn lemma_contains_half_open(w: OfficeHour, t: Time)
    ensures
        w.spec_contains(t) <==> (t.day == w.day && clock_le(w.begin, t.clock) && !clock_le(
            w.end,
            t.clock,
        )),
        t.clock == w.end ==> !w.spec_contains(t),
        t.day != w.day ==> !w.spec_contains(t),
        t.clock == w.begin && t.day == w.day && clock_lt(w.begin, w.end) ==> w.spec_contains(t),
        !clock_lt(w.begin, w.end) ==> !w.spec_contains(t),
{
}

/// The subsequence of `s` whose windows hold the instant `t`, in order.
pub open spec fn active_windows(s: Seq<OfficeHour>, t: Time) -> Seq<OfficeHour>
    decreases s.len(),
{
    if s.len() == 0 {
        Seq::empty()
    } else {
        active_windows(s.drop_last(), t) + if s.last().spec_contains(t) {
            seq![s.last()]
        } else {
            Seq::empty()
        }
    }
}

/// A set of `OfficeHour`s.
#[derive(Debug)]
pub struct OfficeHours {
    pub data: Vec<OfficeHour>,
}

impl View for OfficeHours {
    type V = Seq<OfficeHour>;

    open spec fn view(&self) -> Seq<OfficeHour> {
        self.data@
    }
}

impl Clone for OfficeHours {
    fn clone(&self) -> (r: OfficeHours)
        ensures
            r@ == self@,
    {
        let mut data = Vec::<OfficeHour>::new();
        let mut k: usize = 0;
        while k < self.data.len()
            invariant
                k <= self.data.len(),
                data@ == self.data@.subrange(0, k as int),
            decreases self.data.len() - k,
        {
            data.push(self.data[k]);
            proof {
                assert(data@ =~= self.data@.subrange(0, k + 1));
            }
            k = k + 1;
        }
        proof {
            assert(self.data@.subrange(0, self.data@.len() as int) =~= self.data@);
        }
        OfficeHours { data }
    }
}

impl OfficeHours {
    pub fn empty() -> (r: OfficeHours)
        ensures
            r@ == Seq::<OfficeHour>::empty(),
    {
        OfficeHours { data: Vec::new() }
    }

    /// Move the given windows to the end, in their order.
    pub fn append(&mut self, new_times: Vec<OfficeHour>)
        ensures
            final(self)@ == old(self)@ + new_times@,
    {
        let mut new_times = new_times;
        self.data.append(&mut new_times);
    }

    /// Whether any window holds the instant.
    pub fn contain(&self, time: &Time) -> (r: bool)
        ensures
            r == exists|i: int| 0 <= i < self@.len() && self@[i].spec_contains(*time),
    {
        let mut k: usize = 0;
        while k < self.data.len()
            invariant
                k <= self.data.len(),
                forall|i: int| 0 <= i < k ==> !self@[i].spec_contains(*time),
            decreases self.data.len() - k,
        {
            if self.data[k].contains(time) {
                assert(self@[k as int].spec_contains(*time));
                return true;
            }
            k = k + 1;
        }
        false
    }

    /// Filter out the subset of `OfficeHour`s taking place at `time`. The
    /// windows that hold the instant are handed back in their order; when
    /// none does, nothing is.
    pub fn filter_time(&self, time: &Time) -> (r: Option<OfficeHours>)
        ensures
            active_windows(self@, *time).len() > 0 ==> (r matches Some(oh) && oh@ == active_windows(
                self@,
                *time,
            )),
            active_windows(self@, *time).len() == 0 ==> r is None,
    {
        let mut data = Vec::<OfficeHour>::new();
        let mut k: usize = 0;
        while k < self.data.len()
            invariant
                k <= self.data.len(),
                data@ == active_windows(self.data@.subrange(0, k as int), *time),
            decreases self.data.len() - k,
        {
            let ghost prefix = self.data@.subrange(0, k as int);
            if self.data[k].contains(time) {
                data.push(self.data[k]);
            }
            proof {
                let longer = self.data@.subrange(0, k + 1);
                assert(longer.drop_last() =~= prefix);
                assert(data@ == active_windows(longer, *time));
            }
            k = k + 1;
        }
        proof {
            assert(self.data@.subrange(0, self.data@.len() as int) =~= self.data@);
        }
        if data.len() > 0 {
            Some(OfficeHours { data })
        } else {
            None
        }
    }
}

} // verus!

