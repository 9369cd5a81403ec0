//! The grammar of the office-hours document format.
//!
//! The format is line oriented: an office record is a line of names, a line
//! of phone numbers, and then any number of schedule lines and remark
//! lines; records are separated by one blank line. Weekdays are written by
//! their German shorthands (`Mo`, `Di`, `Mi`, `Do`, `Fr`, and `Tgl` for the
//! whole working week), day ranges with an en dash, time ranges with a
//! plain hyphen.
//!
//! Each grammar rule exists twice: a spec function over a character
//! sequence and a position, which is the rule's mathematical statement, and
//! an executable function proved to return exactly what the spec function
//! says. A rule either finds a value and the position just after it,
//! misses (the input does not begin with the rule, and the caller may try
//! another rule), or fails fatally, which tears down the whole parse.

use vstd::prelude::*;

use crate::time::{day_ord, day_span, Clock, Day, OfficeHour};
use crate::{is_decimal_digit, texts_of, views_of};
use crate::{Comment, Name, Names, Office, OfficeView, Offices, Phone, Phones};
use crate::string_from_range;

verus! {

/// A failure that tears down the whole parse.
#[derive(Debug, PartialEq, Eq, Structural, Clone, Copy)]
pub enum ParseError {
    /// A numeric token exceeds 255.
    NumberTooLarge,
    /// A clock value with hours above 23 or minutes above 59.
    ClockOutOfRange,
    /// A day range whose end precedes its start in week order.
    BackwardDayRange,
    /// A record without a well-formed name line and phone line.
    MalformedHeader,
}

/// Why a rule returned no value: the input does not begin with the rule
/// (`Miss`, the caller may try another rule), or a fatal failure.
#[derive(Debug, PartialEq, Eq, Structural, Clone, Copy)]
pub enum Fail {
    Miss,
    Fatal(ParseError),
}

/// Whether the exec outcome `r` is exactly the spec outcome `s`.
pub open spec fn matches_spec<T>(r: Result<(usize, T), Fail>, s: Result<(int, T), Fail>) -> bool {
    match (r, s) {
        (Ok((n, v)), Ok((m, w))) => n as int == m && v == w,
        (Err(e), Err(f)) => e == f,
        _ => false,
    }
}

/// Whether the two characters stand at position `i`.
pub open spec fn tag2_at(s: Seq<char>, i: int, a: char, b: char) -> bool {
    i + 2 <= s.len() && s[i] == a && s[i + 1] == b
}

/// Whether the three characters stand at position `i`.
pub open spec fn tag3_at(s: Seq<char>, i: int, a: char, b: char, c: char) -> bool {
    i + 3 <= s.len() && s[i] == a && s[i + 1] == b && s[i + 2] == c
}

fn tag2(s: &[char], pos: usize, a: char, b: char) -> (r: bool)
    requires
        pos <= s@.len(),
    ensures
        r == tag2_at(s@, pos as int, a, b),
{
    s.len() - pos >= 2 && s[pos] == a && s[pos + 1] == b
}

fn tag3(s: &[char], pos: usize, a: char, b: char, c: char) -> (r: bool)
    requires
        pos <= s@.len(),
    ensures
        r == tag3_at(s@, pos as int, a, b, c),
{
    s.len() - pos >= 3 && s[pos] == a && s[pos + 1] == b && s[pos + 2] == c
}

/// One weekday shorthand: `Mo`, `Di`, `Mi`, `Do` or `Fr`.
pub open spec fn spec_day(s: Seq<char>, i: int) -> Result<(int, Day), Fail> {
    if tag2_at(s, i, 'M', 'o') {
        Ok((i + 2, Day::Mon))
    } else if tag2_at(s, i, 'D', 'i') {
        Ok((i + 2, Day::Tue))
    } else if tag2_at(s, i, 'M', 'i') {
        Ok((i + 2, Day::Wed))
    } else if tag2_at(s, i, 'D', 'o') {
        Ok((i + 2, Day::Thu))
    } else if tag2_at(s, i, 'F', 'r') {
        Ok((i + 2, Day::Fri))
    } else {
        Err(Fail::Miss)
    }
}

/// Parser for a single day of the week, by its standard German shorthand.
pub fn day(s: &[char], pos: usize) -> (r: Result<(usize, Day), Fail>)
    requires
        pos <= s@.len(),
    ensures
        matches_spec(r, spec_day(s@, pos as int)),
        r matches Ok((n, _)) ==> n == pos + 2 && n <= s@.len(),
{
    let n = s.len();
    if n - pos < 2 {
        return Err(Fail::Miss);
    }
    let c0 = s[pos];
    let c1 = s[pos + 1];
    if c0 == 'M' && c1 == 'o' {
        Ok((pos + 2, Day::Mon))
    } else if c0 == 'D' && c1 == 'i' {
        Ok((pos + 2, Day::Tue))
    } else if c0 == 'M' && c1 == 'i' {
        Ok((pos + 2, Day::Wed))
    } else if c0 == 'D' && c1 == 'o' {
        Ok((pos + 2, Day::Thu))
    } else if c0 == 'F' && c1 == 'r' {
        Ok((pos + 2, Day::Fri))
    } else {
        Err(Fail::Miss)
    }
}

/// The position just after the run of decimal digits starting at `i`.
pub open spec fn digit_run_end(s: Seq<char>, i: int) -> int
    decreases s.len() - i when 0 <= i <= s.len()
{
    if i < s.len() && is_decimal_digit(s[i]) {
        digit_run_end(s, i + 1)
    } else {
        i
    }
}

pub proof fn lemma_digit_run_end(s: Seq<char>, i: int)
    requires
        0 <= i <= s.len(),
    ensures
        i <= digit_run_end(s, i) <= s.len(),
        forall|k: int| i <= k < digit_run_end(s, i) ==> is_decimal_digit(#[trigger] s[k]),
        digit_run_end(s, i) < s.len() ==> !is_decimal_digit(s[digit_run_end(s, i)]),
    decreases s.len() - i,
{
    if i < s.len() && is_decimal_digit(s[i]) {
        lemma_digit_run_end(s, i + 1);
    }
}

/// The value of the decimal digits from `i` (included) to `j` (excluded).
pub open spec fn digits_value(s: Seq<char>, i: int, j: int) -> int
    decreases j - i,
{
    if j <= i {
        0
    } else {
        digits_value(s, i, j - 1) * 10 + (s[j - 1] as u32 - '0' as u32)
    }
}

pub proof fn lemma_digits_value_nonneg(s: Seq<char>, i: int, j: int)
    requires
        forall|k: int| i <= k < j ==> is_decimal_digit(#[trigger] s[k]),
    ensures
        digits_value(s, i, j) >= 0,
    decreases j - i,
{
    if j > i {
        lemma_digits_value_nonneg(s, i, j - 1);
    }
}

/// A small number: one or more decimal digits whose value fits in eight
/// bits. A longer digit run is recognized but fatally rejected, never split.
pub open spec fn spec_small_number(s: Seq<char>, i: int) -> Result<(int, u8), Fail> {
    let j = digit_run_end(s, i);
    if j == i {
        Err(Fail::Miss)
    } else if digits_value(s, i, j) > 255 {
        Err(Fail::Fatal(ParseError::NumberTooLarge))
    } else {
        Ok((j, digits_value(s, i, j) as u8))
    }
}

/// Parser for a decimal number between 0 and 255 (inclusive).
pub fn small_number(s: &[char], pos: usize) -> (r: Result<(usize, u8), Fail>)
    requires
        pos <= s@.len(),
    ensures
        matches_spec(r, spec_small_number(s@, pos as int)),
        r matches Ok((n, _)) ==> pos < n <= s@.len(),
{
    proof {
        lemma_digit_run_end(s@, pos as int);
    }
    let ghost run_end = digit_run_end(s@, pos as int);
    let mut j = pos;
    let mut val: u16 = 0;
    let mut big = false;
    loop
        invariant
            pos <= j <= s@.len(),
            run_end == digit_run_end(s@, pos as int),
            digit_run_end(s@, j as int) == run_end,
            pos <= j <= run_end,
            forall|k: int| pos <= k < j ==> is_decimal_digit(#[trigger] s@[k]),
            !big ==> val == digits_value(s@, pos as int, j as int) && val <= 255,
            big ==> digits_value(s@, pos as int, j as int) > 255,
        ensures
            j == run_end,
            !big ==> val == digits_value(s@, pos as int, j as int) && val <= 255,
            big ==> digits_value(s@, pos as int, j as int) > 255,
        decreases s@.len() - j,
    {
        if j >= s.len() {
            break ;
        }
        let c = s[j] as u32;
        if c < '0' as u32 || c > '9' as u32 {
            break ;
        }
        let d = (c - '0' as u32) as u16;
        proof {
            assert(is_decimal_digit(s@[j as int]));
            assert(digit_run_end(s@, j as int) == digit_run_end(s@, j + 1));
            lemma_digit_run_end(s@, j + 1);
            assert(digits_value(s@, pos as int, j + 1) == digits_value(s@, pos as int, j as int)
                * 10 + d);
            if big {
                lemma_digits_value_nonneg(s@, pos as int, j as int);
            }
        }
        if !big {
            let v10: u16 = val * 10 + d;
            if v10 > 255 {
                big = true;
            } else {
                val = v10;
            }
        }
        j = j + 1;
    }
    if j == pos {
        Err(Fail::Miss)
    } else if big {
        Err(Fail::Fatal(ParseError::NumberTooLarge))
    } else {
        Ok((j, val as u8))
    }
}

/// A clock time `HH:MM` in 24-hour format, the digits not necessarily
/// zero-padded. A value outside the clock's range is fatally rejected.
pub open spec fn spec_time(s: Seq<char>, i: int) -> Result<(int, Clock), Fail> {
    match spec_small_number(s, i) {
        Ok((j, hours)) => if j < s.len() && s[j] == ':' {
            match spec_small_number(s, j + 1) {
                Ok((k, minutes)) => if hours <= 23 && minutes <= 59 {
                    Ok((k, Clock { hours, minutes }))
                } else {
                    Err(Fail::Fatal(ParseError::ClockOutOfRange))
                },
                Err(f) => Err(f),
            }
        } else {
            Err(Fail::Miss)
        },
        Err(f) => Err(f),
    }
}

/// Parser for a time specification of the form HH:MM.
pub fn time(s: &[char], pos: usize) -> (r: Result<(usize, Clock), Fail>)
    requires
        pos <= s@.len(),
    ensures
        matches_spec(r, spec_time(s@, pos as int)),
        r matches Ok((n, _)) ==> pos + 3 <= n <= s@.len(),
{
    let (j, hours) = match small_number(s, pos) {
        Ok(p) => p,
        Err(f) => {
            return Err(f);
        },
    };
    if j < s.len() && s[j] == ':' {
        let (k, minutes) = match small_number(s, j + 1) {
            Ok(p) => p,
            Err(f) => {
                return Err(f);
            },
        };
        if hours <= 23 && minutes <= 59 {
            Ok((k, Clock::new(hours, minutes)))
        } else {
            Err(Fail::Fatal(ParseError::ClockOutOfRange))
        }
    } else {
        Err(Fail::Miss)
    }
}

/// A pair of clock times separated by space-hyphen-space: the beginning
/// and the end of one reachability interval.
pub open spec fn spec_time_pair(s: Seq<char>, i: int) -> Result<(int, (Clock, Clock)), Fail> {
    match spec_time(s, i) {
        Ok((j, begin)) => if tag3_at(s, j, ' ', '-', ' ') {
            match spec_time(s, j + 3) {
                Ok((k, end)) => Ok((k, (begin, end))),
                Err(f) => Err(f),
            }
        } else {
            Err(Fail::Miss)
        },
        Err(f) => Err(f),
    }
}

/// Parser for a time range, two times separated by space-dash-space.
pub fn time_pair(s: &[char], pos: usize) -> (r: Result<(usize, (Clock, Clock)), Fail>)
    requires
        pos <= s@.len(),
    ensures
        matches_spec(r, spec_time_pair(s@, pos as int)),
        r matches Ok((n, _)) ==> pos + 2 <= n <= s@.len(),
{
    let (j, begin) = match time(s, pos) {
        Ok(p) => p,
        Err(f) => {
            return Err(f);
        },
    };
    if tag3(s, j, ' ', '-', ' ') {
        let n = s.len();
        proof {
            assert(j + 3 <= n);
        }
        let (k, end) = match time(s, j + 3) {
            Ok(p) => p,
            Err(f) => {
                return Err(f);
            },
        };
        Ok((k, (begin, end)))
    } else {
        Err(Fail::Miss)
    }
}

/// The one-element list of days holding just the given day.
pub fn single_day(day: Day) -> (r: Vec<Day>)
    ensures
        r@ == seq![day],
{
    let mut days = Vec::new();
    days.push(day);
    proof {
        assert(days@ =~= seq![day]);
    }
    days
}

/// Turning two days into the list of days between them (endpoints
/// included), walking the successor order from the first to the second.
pub fn days_from_range(begin: Day, end: Day) -> (r: Vec<Day>)
    requires
        day_ord(begin) <= day_ord(end),
    ensures
        r@ == day_span(begin, end),
{
    let mut days = single_day(begin);
    let mut d = begin;
    proof {
        assert(days@ =~= day_span(begin, begin));
    }
    while d != end
        invariant
            day_ord(begin) <= day_ord(d) <= day_ord(end),
            days@ == day_span(begin, d),
        decreases day_ord(end) - day_ord(d),
    {
        proof {
            assert(day_ord(d) != day_ord(end));
        }
        d = d.next();
        days.push(d);
        proof {
            assert(days@ =~= day_span(begin, d));
        }
    }
    days
}

/// Merge two lists of `Day`s into a single list, the first then the second.
pub fn merge_days(a: Vec<Day>, b: Vec<Day>) -> (r: Vec<Day>)
    ensures
        r@ == a@ + b@,
{
    let mut a = a;
    let mut b = b;
    a.append(&mut b);
    a
}

/// A range of days: two days separated by an en dash with a space on
/// either side, standing for the inclusive run between them. A range whose
/// end precedes its start is fatally rejected: day ranges never wrap
/// around the weekend.
pub open spec fn spec_day_range(s: Seq<char>, i: int) -> Result<(int, Seq<Day>), Fail> {
    match spec_day(s, i) {
        Ok((j, begin)) => if tag3_at(s, j, ' ', '\u{2013}', ' ') {
            match spec_day(s, j + 3) {
                Ok((k, end)) => if day_ord(begin) <= day_ord(end) {
                    Ok((k, day_span(begin, end)))
                } else {
                    Err(Fail::Fatal(ParseError::BackwardDayRange))
                },
                Err(f) => Err(f),
            }
        } else {
            Err(Fail::Miss)
        },
        Err(f) => Err(f),
    }
}

/// Parser for a range of days, two day shorthands separated by
/// space-en-dash-space.
pub fn day_range(s: &[char], pos: usize) -> (r: Result<(usize, Vec<Day>), Fail>)
    requires
        pos <= s@.len(),
    ensures
        (match spec_day_range(s@, pos as int) {
            Ok((n, ds)) => r matches Ok(p) && p.0 as int == n && p.1@ == ds,
            Err(f) => r matches Err(g) && g == f,
        }),
        r matches Ok((n, _)) ==> pos + 2 <= n <= s@.len(),
{
    let (j, begin) = match day(s, pos) {
        Ok(p) => p,
        Err(f) => {
            return Err(f);
        },
    };
    if tag3(s, j, ' ', '\u{2013}', ' ') {
        let n = s.len();
        proof {
            assert(j + 3 <= n);
        }
        let (k, end) = match day(s, j + 3) {
            Ok(p) => p,
            Err(f) => {
                return Err(f);
            },
        };
        if begin.ord() <= end.ord() {
            Ok((k, days_from_range(begin, end)))
        } else {
            Err(Fail::Fatal(ParseError::BackwardDayRange))
        }
    } else {
        Err(Fail::Miss)
    }
}

/// One entry of a day list: a day range, or else a single day standing
/// for the one-element list.
pub open spec fn spec_day_list_elem(s: Seq<char>, i: int) -> Result<(int, Seq<Day>), Fail> {
    match spec_day_range(s, i) {
        Ok(p) => Ok(p),
        Err(Fail::Fatal(e)) => Err(Fail::Fatal(e)),
        Err(Fail::Miss) => match spec_day(s, i) {
            Ok((j, d)) => Ok((j, seq![d])),
            Err(f) => Err(f),
        },
    }
}

/// Parser for a single entry of a day list.
pub fn day_list_elem(s: &[char], pos: usize) -> (r: Result<(usize, Vec<Day>), Fail>)
    requires
        pos <= s@.len(),
    ensures
        (match spec_day_list_elem(s@, pos as int) {
            Ok((n, ds)) => r matches Ok(p) && p.0 as int == n && p.1@ == ds,
            Err(f) => r matches Err(g) && g == f,
        }),
        r matches Ok((n, _)) ==> pos + 2 <= n <= s@.len(),
{
    match day_range(s, pos) {
        Ok(p) => Ok(p),
        Err(Fail::Fatal(e)) => Err(Fail::Fatal(e)),
        Err(Fail::Miss) => match day(s, pos) {
            Ok((j, d)) => Ok((j, single_day(d))),
            Err(f) => Err(f),
        },
    }
}

/// Zero or more continuations of a day list: a comma and a space, then
/// the next entry, concatenated in encounter order. A missing entry after
/// a separator ends the list before that separator.
pub open spec fn spec_day_list_cont(s: Seq<char>, i: int) -> Result<(int, Seq<Day>), Fail>
    decreases s.len() - i when 0 <= i <= s.len()
{
    if tag2_at(s, i, ',', ' ') {
        match spec_day_list_elem(s, i + 2) {
            Ok((n, ds)) => if i + 2 < n <= s.len() {
                match spec_day_list_cont(s, n) {
                    Ok((m, rest)) => Ok((m, ds + rest)),
                    Err(f) => Err(f),
                }
            } else {
                // never reached: an entry consumes at least two characters
                Err(Fail::Miss)
            },
            Err(Fail::Miss) => Ok((i, Seq::empty())),
            Err(Fail::Fatal(e)) => Err(Fail::Fatal(e)),
        }
    } else {
        Ok((i, Seq::empty()))
    }
}

/// A day list: a first entry, then any number of comma-and-space separated
/// further entries, concatenated in encounter order. Duplicates are kept
/// and nothing is reordered.
pub open spec fn spec_day_list(s: Seq<char>, i: int) -> Result<(int, Seq<Day>), Fail> {
    match spec_day_list_elem(s, i) {
        Ok((n, first)) => if i < n <= s.len() {
            match spec_day_list_cont(s, n) {
                Ok((m, rest)) => Ok((m, first + rest)),
                Err(f) => Err(f),
            }
        } else {
            // never reached: an entry consumes at least two characters
            Err(Fail::Miss)
        },
        Err(f) => Err(f),
    }
}

/// Parser for a comma-and-space separated list of days and day ranges.
pub fn day_list(s: &[char], pos: usize) -> (r: Result<(usize, Vec<Day>), Fail>)
    requires
        pos <= s@.len(),
    ensures
        (match spec_day_list(s@, pos as int) {
            Ok((n, ds)) => r matches Ok(p) && p.0 as int == n && p.1@ == ds,
            Err(f) => r matches Err(g) && g == f,
        }),
        r matches Ok((n, _)) ==> pos + 2 <= n <= s@.len(),
{
    let (first_end, first) = match day_list_elem(s, pos) {
        Ok(p) => p,
        Err(f) => {
            return Err(f);
        },
    };
    let mut acc = first;
    let mut p = first_end;
    loop
        invariant
            pos + 2 <= p <= s@.len(),
            (match spec_day_list_cont(s@, p as int) {
                Ok((m, rest)) => spec_day_list(s@, pos as int) == Ok::<(int, Seq<Day>), Fail>(
                    (m, acc@ + rest),
                ),
                Err(f) => spec_day_list(s@, pos as int) == Err::<(int, Seq<Day>), Fail>(f),
            }),
        ensures
            spec_day_list(s@, pos as int) == Ok::<(int, Seq<Day>), Fail>((p as int, acc@)),
        decreases s@.len() - p,
    {
        if !tag2(s, p, ',', ' ') {
            proof {
                assert(acc@ + Seq::<Day>::empty() =~= acc@);
            }
            break ;
        }
        let n = s.len();
        proof {
            assert(p + 2 <= n);
        }
        match day_list_elem(s, p + 2) {
            Ok((elem_end, ds)) => {
                proof {
                    assert(p + 2 < elem_end <= s@.len());
                }
                let ghost old_acc = acc@;
                let ghost elem_days = ds@;
                let mut ds = ds;
                acc.append(&mut ds);
                proof {
                    match spec_day_list_cont(s@, elem_end as int) {
                        Ok((m, rest)) => {
                            assert(old_acc + (elem_days + rest) =~= acc@ + rest);
                        },
                        Err(_) => {
                        },
                    }
                }
                p = elem_end;
            },
            Err(Fail::Miss) => {
                proof {
                    assert(acc@ + Seq::<Day>::empty() =~= acc@);
                }
                break ;
            },
            Err(Fail::Fatal(e)) => {
                return Err(Fail::Fatal(e));
            },
        }
    }
    Ok((p, acc))
}

/// The daily shorthand `Tgl`, standing for the whole working week.
pub open spec fn spec_daily(s: Seq<char>, i: int) -> Result<(int, Seq<Day>), Fail> {
    if tag3_at(s, i, 'T', 'g', 'l') {
        Ok((i + 3, day_span(Day::Mon, Day::Fri)))
    } else {
        Err(Fail::Miss)
    }
}

/// Parser for the daily shorthand.
pub fn daily(s: &[char], pos: usize) -> (r: Result<(usize, Vec<Day>), Fail>)
    requires
        pos <= s@.len(),
    ensures
        (match spec_daily(s@, pos as int) {
            Ok((n, ds)) => r matches Ok(p) && p.0 as int == n && p.1@ == ds,
            Err(f) => r matches Err(g) && g == f,
        }),
        r matches Ok((n, _)) ==> pos + 3 == n && n <= s@.len(),
{
    if tag3(s, pos, 'T', 'g', 'l') {
        let n = s.len();
        proof {
            assert(pos + 3 <= n);
        }
        Ok((pos + 3, days_from_range(Day::Mon, Day::Fri)))
    } else {
        Err(Fail::Miss)
    }
}

/// Zero or more continuations of a time-range list: a comma and a space,
/// then the next pair. A missing pair after a separator ends the list
/// before that separator.
pub open spec fn spec_time_pairs_cont(s: Seq<char>, i: int) -> Result<
    (int, Seq<(Clock, Clock)>),
    Fail,
>
    decreases s.len() - i when 0 <= i <= s.len()
{
    if tag2_at(s, i, ',', ' ') {
        match spec_time_pair(s, i + 2) {
            Ok((n, tp)) => if i + 2 < n <= s.len() {
                match spec_time_pairs_cont(s, n) {
                    Ok((m, rest)) => Ok((m, seq![tp] + rest)),
                    Err(f) => Err(f),
                }
            } else {
                // never reached: a pair consumes at least two characters
                Err(Fail::Miss)
            },
            Err(Fail::Miss) => Ok((i, Seq::empty())),
            Err(Fail::Fatal(e)) => Err(Fail::Fatal(e)),
        }
    } else {
        Ok((i, Seq::empty()))
    }
}

/// One or more comma-and-space separated time ranges.
pub open spec fn spec_time_pairs(s: Seq<char>, i: int) -> Result<(int, Seq<(Clock, Clock)>), Fail> {
    match spec_time_pair(s, i) {
        Ok((n, tp)) => if i < n <= s.len() {
            match spec_time_pairs_cont(s, n) {
                Ok((m, rest)) => Ok((m, seq![tp] + rest)),
                Err(f) => Err(f),
            }
        } else {
            // never reached: a pair consumes at least two characters
            Err(Fail::Miss)
        },
        Err(f) => Err(f),
    }
}

/// Parser for a comma-and-space separated list of time ranges.
fn time_pairs(s: &[char], pos: usize) -> (r: Result<(usize, Vec<(Clock, Clock)>), Fail>)
    requires
        pos <= s@.len(),
    ensures
        (match spec_time_pairs(s@, pos as int) {
            Ok((n, ps)) => r matches Ok(p) && p.0 as int == n && p.1@ == ps,
            Err(f) => r matches Err(g) && g == f,
        }),
        r matches Ok((n, _)) ==> pos + 2 <= n <= s@.len(),
{
    let (first_end, first) = match time_pair(s, pos) {
        Ok(p) => p,
        Err(f) => {
            return Err(f);
        },
    };
    let mut acc: Vec<(Clock, Clock)> = Vec::new();
    acc.push(first);
    proof {
        assert(acc@ =~= seq![first]);
    }
    let mut p = first_end;
    loop
        invariant
            pos + 2 <= p <= s@.len(),
            (match spec_time_pairs_cont(s@, p as int) {
                Ok((m, rest)) => spec_time_pairs(s@, pos as int) == Ok::<
                    (int, Seq<(Clock, Clock)>),
                    Fail,
                >((m, acc@ + rest)),
                Err(f) => spec_time_pairs(s@, pos as int) == Err::<
                    (int, Seq<(Clock, Clock)>),
                    Fail,
                >(f),
            }),
        ensures
            spec_time_pairs(s@, pos as int) == Ok::<(int, Seq<(Clock, Clock)>), Fail>(
                (p as int, acc@),
            ),
        decreases s@.len() - p,
    {
        if !tag2(s, p, ',', ' ') {
            proof {
                assert(acc@ + Seq::<(Clock, Clock)>::empty() =~= acc@);
            }
            break ;
        }
        let n = s.len();
        proof {
            assert(p + 2 <= n);
        }
        match time_pair(s, p + 2) {
            Ok((pair_end, tp)) => {
                proof {
                    assert(p + 2 < pair_end <= s@.len());
                }
                let ghost old_acc = acc@;
                acc.push(tp);
                proof {
                    match spec_time_pairs_cont(s@, pair_end as int) {
                        Ok((m, rest)) => {
                            assert(old_acc + (seq![tp] + rest) =~= acc@ + rest);
                        },
                        Err(_) => {
                        },
                    }
                }
                p = pair_end;
            },
            Err(Fail::Miss) => {
                proof {
                    assert(acc@ + Seq::<(Clock, Clock)>::empty() =~= acc@);
                }
                break ;
            },
            Err(Fail::Fatal(e)) => {
                return Err(Fail::Fatal(e));
            },
        }
    }
    Ok((p, acc))
}

/// A day list preserves order and duplicates: its value is its first
/// entry's days followed by the remaining entries' days, each block in
/// encounter order, with nothing deduplicated, merged or sorted away.
pub proof fn lemma_day_list_concatenates(s: Seq<char>, i: int)
    requires
        0 <= i <= s.len(),
    ensures
        spec_day_list(s, i) matches Ok((m, all)) ==> (spec_day_list_elem(s, i) matches Ok(
            (n, first),
        ) && (spec_day_list_cont(s, n) matches Ok((m2, rest)) && m2 == m && all == first + rest)),
{
    lemma_spec_day_list_elem_progress(s, i);
}

/// The daily shorthand is exactly equivalent to the full range written
/// `Mo \u{2013} Fr`: wherever either is recognized, both stand for the
/// same five-day list, Monday through Friday in order.
pub proof fn lemma_daily_is_full_range(s: Seq<char>, i: int)
    ensures
        day_span(Day::Mon, Day::Fri) =~= seq![Day::Mon, Day::Tue, Day::Wed, Day::Thu, Day::Fri],
        spec_daily(s, i) matches Ok((n, ds)) ==> ds == day_span(Day::Mon, Day::Fri),
        tag2_at(s, i, 'M', 'o') && tag3_at(s, i + 2, ' ', '\u{2013}', ' ') && tag2_at(
            s,
            i + 5,
            'F',
            'r',
        ) ==> spec_day_range(s, i) == Ok::<(int, Seq<Day>), Fail>(
            (i + 7, day_span(Day::Mon, Day::Fri)),
        ),
{
}

/// A days-of-the-week specification: the daily shorthand, or else a day
/// list.
pub open spec fn spec_days(s: Seq<char>, i: int) -> Result<(int, Seq<Day>), Fail> {
    match spec_daily(s, i) {
        Ok(p) => Ok(p),
        Err(Fail::Fatal(e)) => Err(Fail::Fatal(e)),
        Err(Fail::Miss) => spec_day_list(s, i),
    }
}

/// Parser for a days-of-the-week specification.
pub fn days(s: &[char], pos: usize) -> (r: Result<(usize, Vec<Day>), Fail>)
    requires
        pos <= s@.len(),
    ensures
        (match spec_days(s@, pos as int) {
            Ok((n, ds)) => r matches Ok(p) && p.0 as int == n && p.1@ == ds,
            Err(f) => r matches Err(g) && g == f,
        }),
        r matches Ok((n, _)) ==> pos + 2 <= n <= s@.len(),
{
    match daily(s, pos) {
        Ok(p) => Ok(p),
        Err(Fail::Fatal(e)) => Err(Fail::Fatal(e)),
        Err(Fail::Miss) => day_list(s, pos),
    }
}

/// Whether the character may stand in a name: anything but the list
/// separator comma and the line break.
pub open spec fn is_name_char(c: char) -> bool {
    c != ',' && c != '\n'
}

/// The position just after the run of name characters starting at `i`.
pub open spec fn name_run_end(s: Seq<char>, i: int) -> int
    decreases s.len() - i when 0 <= i <= s.len()
{
    if i < s.len() && is_name_char(s[i]) {
        name_run_end(s, i + 1)
    } else {
        i
    }
}

pub proof fn lemma_name_run_end(s: Seq<char>, i: int)
    requires
        0 <= i <= s.len(),
    ensures
        i <= name_run_end(s, i) <= s.len(),
    decreases s.len() - i,
{
    if i < s.len() && is_name_char(s[i]) {
        lemma_name_run_end(s, i + 1);
    }
}

/// The end of the name run starting at `pos`.
fn name_run(s: &[char], pos: usize) -> (j: usize)
    requires
        pos <= s@.len(),
    ensures
        j as int == name_run_end(s@, pos as int),
        pos <= j <= s@.len(),
{
    proof {
        lemma_name_run_end(s@, pos as int);
    }
    let mut j = pos;
    loop
        invariant
            pos <= j <= s@.len(),
            name_run_end(s@, j as int) == name_run_end(s@, pos as int),
        ensures
            j as int == name_run_end(s@, pos as int),
        decreases s@.len() - j,
    {
        if j >= s.len() {
            break ;
        }
        let c = s[j];
        if c == ',' || c == '\n' {
            break ;
        }
        proof {
            lemma_name_run_end(s@, j + 1);
        }
        j = j + 1;
    }
    j
}

/// The end of the digit run starting at `pos`.
fn digit_run(s: &[char], pos: usize) -> (j: usize)
    requires
        pos <= s@.len(),
    ensures
        j as int == digit_run_end(s@, pos as int),
        pos <= j <= s@.len(),
{
    proof {
        lemma_digit_run_end(s@, pos as int);
    }
    let mut j = pos;
    loop
        invariant
            pos <= j <= s@.len(),
            digit_run_end(s@, j as int) == digit_run_end(s@, pos as int),
        ensures
            j as int == digit_run_end(s@, pos as int),
        decreases s@.len() - j,
    {
        if j >= s.len() {
            break ;
        }
        let c = s[j] as u32;
        if c < '0' as u32 || c > '9' as u32 {
            break ;
        }
        proof {
            lemma_digit_run_end(s@, j + 1);
        }
        j = j + 1;
    }
    j
}

/// One name: a non-empty run of characters free of commas and line breaks.
pub open spec fn spec_name(s: Seq<char>, i: int) -> Result<(int, Seq<char>), Fail> {
    let j = name_run_end(s, i);
    if j == i {
        Err(Fail::Miss)
    } else {
        Ok((j, s.subrange(i, j)))
    }
}

/// Zero or more continuations of a name list: a comma and a space, then
/// the next name. A missing name after a separator ends the list before
/// that separator; nothing here can fail.
pub open spec fn spec_names_cont(s: Seq<char>, i: int) -> (int, Seq<Seq<char>>)
    decreases s.len() - i when 0 <= i <= s.len()
{
    if tag2_at(s, i, ',', ' ') {
        match spec_name(s, i + 2) {
            Ok((n, t)) => if i + 2 < n <= s.len() {
                let (m, rest) = spec_names_cont(s, n);
                (m, seq![t] + rest)
            } else {
                // never reached: a name holds at least one character
                (i, Seq::empty())
            },
            Err(_) => (i, Seq::empty()),
        }
    } else {
        (i, Seq::empty())
    }
}

/// A name list: one or more comma-and-space separated names.
pub open spec fn spec_names(s: Seq<char>, i: int) -> Result<(int, Seq<Seq<char>>), Fail> {
    match spec_name(s, i) {
        Ok((n, t)) => if i < n <= s.len() {
            let (m, rest) = spec_names_cont(s, n);
            Ok((m, seq![t] + rest))
        } else {
            // never reached: a name holds at least one character
            Err(Fail::Miss)
        },
        Err(f) => Err(f),
    }
}

/// Parser for a list of names: a single line, comma-and-space separated,
/// each name any text containing neither commas nor line breaks.
pub fn names(s: &[char], pos: usize) -> (r: Result<(usize, Names), Fail>)
    requires
        pos <= s@.len(),
    ensures
        (match spec_names(s@, pos as int) {
            Ok((n, ts)) => r matches Ok(p) && p.0 as int == n && p.1@ == ts,
            Err(f) => r matches Err(g) && g == f,
        }),
        r matches Ok((n, _)) ==> pos < n <= s@.len(),
{
    let first_end = name_run(s, pos);
    if first_end == pos {
        return Err(Fail::Miss);
    }
    let mut acc: Vec<Name> = Vec::new();
    acc.push(Name::new(string_from_range(s, pos, first_end)));
    proof {
        assert(texts_of(acc@) =~= seq![s@.subrange(pos as int, first_end as int)]);
    }
    let mut p = first_end;
    loop
        invariant
            pos < p <= s@.len(),
            ({
                let (m, rest) = spec_names_cont(s@, p as int);
                spec_names(s@, pos as int) == Ok::<(int, Seq<Seq<char>>), Fail>(
                    (m, texts_of(acc@) + rest),
                )
            }),
        ensures
            spec_names(s@, pos as int) == Ok::<(int, Seq<Seq<char>>), Fail>(
                (p as int, texts_of(acc@)),
            ),
        decreases s@.len() - p,
    {
        if !tag2(s, p, ',', ' ') {
            proof {
                assert(texts_of(acc@) + Seq::<Seq<char>>::empty() =~= texts_of(acc@));
            }
            break ;
        }
        let n = s.len();
        proof {
            assert(p + 2 <= n);
        }
        let elem_end = name_run(s, p + 2);
        if elem_end == p + 2 {
            proof {
                assert(texts_of(acc@) + Seq::<Seq<char>>::empty() =~= texts_of(acc@));
            }
            break ;
        }
        let ghost old_texts = texts_of(acc@);
        let ghost t = s@.subrange(p + 2, elem_end as int);
        acc.push(Name::new(string_from_range(s, p + 2, elem_end)));
        proof {
            assert(texts_of(acc@) =~= old_texts + seq![t]);
            let (m, rest) = spec_names_cont(s@, elem_end as int);
            assert(old_texts + (seq![t] + rest) =~= texts_of(acc@) + rest);
        }
        p = elem_end;
    }
    Ok((p, Names::new(acc)))
}

/// One phone number: a non-empty run of decimal digits, kept as text.
pub open spec fn spec_phone(s: Seq<char>, i: int) -> Result<(int, Seq<char>), Fail> {
    let j = digit_run_end(s, i);
    if j == i {
        Err(Fail::Miss)
    } else {
        Ok((j, s.subrange(i, j)))
    }
}

/// Parser for a single phone number, currently expected to use only
/// decimal digits and no other symbols.
pub fn phone_number(s: &[char], pos: usize) -> (r: Result<(usize, Phone), Fail>)
    requires
        pos <= s@.len(),
    ensures
        (match spec_phone(s@, pos as int) {
            Ok((n, t)) => r matches Ok(p) && p.0 as int == n && p.1@ == t,
            Err(f) => r matches Err(g) && g == f,
        }),
        r matches Ok((n, _)) ==> pos < n <= s@.len(),
{
    proof {
        lemma_digit_run_end(s@, pos as int);
    }
    let j = digit_run(s, pos);
    if j == pos {
        Err(Fail::Miss)
    } else {
        let text = string_from_range(s, pos, j);
        proof {
            assert forall|k: int| 0 <= k < text@.len() implies is_decimal_digit(
                #[trigger] text@[k],
            ) by {
                assert(text@[k] == s@[pos + k]);
            }
        }
        Ok((j, Phone::from_digits(text)))
    }
}

/// Zero or more continuations of a phone list, as for names.
pub open spec fn spec_phones_cont(s: Seq<char>, i: int) -> (int, Seq<Seq<char>>)
    decreases s.len() - i when 0 <= i <= s.len()
{
    if tag2_at(s, i, ',', ' ') {
        match spec_phone(s, i + 2) {
            Ok((n, t)) => if i + 2 < n <= s.len() {
                let (m, rest) = spec_phones_cont(s, n);
                (m, seq![t] + rest)
            } else {
                // never reached: a phone number holds at least one digit
                (i, Seq::empty())
            },
            Err(_) => (i, Seq::empty()),
        }
    } else {
        (i, Seq::empty())
    }
}

/// A phone list: zero or more comma-and-space separated phone numbers.
/// An empty line is a valid, empty list.
pub open spec fn spec_phones(s: Seq<char>, i: int) -> (int, Seq<Seq<char>>) {
    match spec_phone(s, i) {
        Ok((n, t)) => if i < n <= s.len() {
            let (m, rest) = spec_phones_cont(s, n);
            (m, seq![t] + rest)
        } else {
            // never reached: a phone number holds at least one digit
            (i, Seq::empty())
        },
        Err(_) => (i, Seq::empty()),
    }
}

/// Parser for a comma-and-space separated list of phone numbers.
pub fn phone_numbers(s: &[char], pos: usize) -> (r: (usize, Phones))
    requires
        pos <= s@.len(),
    ensures
        ({
            let (m, ts) = spec_phones(s@, pos as int);
            r.0 as int == m && r.1@ == ts
        }),
        pos <= r.0 <= s@.len(),
{
    let mut acc: Vec<Phone> = Vec::new();
    let first_end = match phone_number(s, pos) {
        Ok((n, ph)) => {
            acc.push(ph);
            proof {
                assert(texts_of(acc@) =~= seq![s@.subrange(pos as int, n as int)]);
            }
            n
        },
        Err(_) => {
            proof {
                assert(texts_of(acc@) =~= Seq::<Seq<char>>::empty());
            }
            return (pos, Phones::new(acc));
        },
    };
    let mut p = first_end;
    loop
        invariant
            pos < p <= s@.len(),
            ({
                let (m, rest) = spec_phones_cont(s@, p as int);
                spec_phones(s@, pos as int) == (m, texts_of(acc@) + rest)
            }),
        ensures
            spec_phones(s@, pos as int) == (p as int, texts_of(acc@)),
        decreases s@.len() - p,
    {
        if !tag2(s, p, ',', ' ') {
            proof {
                assert(texts_of(acc@) + Seq::<Seq<char>>::empty() =~= texts_of(acc@));
            }
            break ;
        }
        let n = s.len();
        proof {
            assert(p + 2 <= n);
        }
        match phone_number(s, p + 2) {
            Ok((elem_end, ph)) => {
                proof {
                    assert(p + 2 < elem_end <= s@.len());
                }
                let ghost old_texts = texts_of(acc@);
                let ghost t = s@.subrange(p + 2, elem_end as int);
                acc.push(ph);
                proof {
                    assert(texts_of(acc@) =~= old_texts + seq![t]);
                    let (m, rest) = spec_phones_cont(s@, elem_end as int);
                    assert(old_texts + (seq![t] + rest) =~= texts_of(acc@) + rest);
                }
                p = elem_end;
            },
            Err(_) => {
                proof {
                    assert(texts_of(acc@) + Seq::<Seq<char>>::empty() =~= texts_of(acc@));
                }
                break ;
            },
        }
    }
    (p, Phones::new(acc))
}

/// The office extended by the given windows at the end.
pub open spec fn with_times(o: OfficeView, hs: Seq<OfficeHour>) -> OfficeView {
    OfficeView { names: o.names, phones: o.phones, times: o.times + hs, comments: o.comments }
}

/// The office extended by the given remark at the end.
pub open spec fn with_comment(o: OfficeView, c: Seq<char>) -> OfficeView {
    OfficeView { names: o.names, phones: o.phones, times: o.times, comments: o.comments.push(c) }
}

/// The windows of one day, one per time range, in range order.
pub open spec fn hours_for_day(d: Day, times: Seq<(Clock, Clock)>) -> Seq<OfficeHour> {
    times.map_values(|p: (Clock, Clock)| OfficeHour { day: d, begin: p.0, end: p.1 })
}

/// The windows of a schedule line: one per day and time range, enumerated
/// day-major, the time ranges of each day in written order.
pub open spec fn spec_hours_of(days: Seq<Day>, times: Seq<(Clock, Clock)>) -> Seq<OfficeHour>
    decreases days.len(),
{
    if days.len() == 0 {
        Seq::empty()
    } else {
        spec_hours_of(days.drop_last(), times) + hours_for_day(days.last(), times)
    }
}

/// Turns a list of days-of-week and a list of pairs of times-of-day into
/// the corresponding list of `OfficeHour`s, day-major.
pub fn office_hours_from_days_and_times(days: Vec<Day>, times: Vec<(Clock, Clock)>) -> (r: Vec<
    OfficeHour,
>)
    ensures
        r@ == spec_hours_of(days@, times@),
{
    let mut ranges: Vec<OfficeHour> = Vec::new();
    let mut i: usize = 0;
    while i < days.len()
        invariant
            i <= days.len(),
            ranges@ == spec_hours_of(days@.subrange(0, i as int), times@),
        decreases days.len() - i,
    {
        let d = days[i];
        let ghost done = spec_hours_of(days@.subrange(0, i as int), times@);
        let mut j: usize = 0;
        while j < times.len()
            invariant
                j <= times.len(),
                d == days@[i as int],
                done == spec_hours_of(days@.subrange(0, i as int), times@),
                ranges@ == done + hours_for_day(d, times@.subrange(0, j as int)),
            decreases times.len() - j,
        {
            let (begin, end) = times[j];
            ranges.push(OfficeHour { day: d, begin, end });
            proof {
                assert(ranges@ =~= done + hours_for_day(d, times@.subrange(0, j + 1)));
            }
            j = j + 1;
        }
        proof {
            let upto = days@.subrange(0, i + 1);
            assert(upto.drop_last() =~= days@.subrange(0, i as int));
            assert(times@.subrange(0, times@.len() as int) =~= times@);
            assert(ranges@ =~= spec_hours_of(upto, times@));
        }
        i = i + 1;
    }
    proof {
        assert(days@.subrange(0, days@.len() as int) =~= days@);
    }
    ranges
}

/// A schedule line: a line break, a days specification, a colon and a
/// space, and one or more time ranges; it stands for the day-major list
/// of windows it describes.
pub open spec fn spec_sched_line(s: Seq<char>, i: int) -> Result<(int, Seq<OfficeHour>), Fail> {
    if i < s.len() && s[i] == '\n' {
        match spec_days(s, i + 1) {
            Ok((j, ds)) => if tag2_at(s, j, ':', ' ') {
                match spec_time_pairs(s, j + 2) {
                    Ok((k, ps)) => Ok((k, spec_hours_of(ds, ps))),
                    Err(f) => Err(f),
                }
            } else {
                Err(Fail::Miss)
            },
            Err(f) => Err(f),
        }
    } else {
        Err(Fail::Miss)
    }
}

/// Whether the character may stand in a remark: anything but a line break.
pub open spec fn is_comment_char(c: char) -> bool {
    c != '\n'
}

/// The position just after the run of remark characters starting at `i`.
pub open spec fn comment_run_end(s: Seq<char>, i: int) -> int
    decreases s.len() - i when 0 <= i <= s.len()
{
    if i < s.len() && is_comment_char(s[i]) {
        comment_run_end(s, i + 1)
    } else {
        i
    }
}

pub proof fn lemma_comment_run_end(s: Seq<char>, i: int)
    requires
        0 <= i <= s.len(),
    ensures
        i <= comment_run_end(s, i) <= s.len(),
    decreases s.len() - i,
{
    if i < s.len() && is_comment_char(s[i]) {
        lemma_comment_run_end(s, i + 1);
    }
}

/// The end of the remark run starting at `pos`.
fn comment_run(s: &[char], pos: usize) -> (j: usize)
    requires
        pos <= s@.len(),
    ensures
        j as int == comment_run_end(s@, pos as int),
        pos <= j <= s@.len(),
{
    proof {
        lemma_comment_run_end(s@, pos as int);
    }
    let mut j = pos;
    loop
        invariant
            pos <= j <= s@.len(),
            comment_run_end(s@, j as int) == comment_run_end(s@, pos as int),
        ensures
            j as int == comment_run_end(s@, pos as int),
        decreases s@.len() - j,
    {
        if j >= s.len() {
            break ;
        }
        if s[j] == '\n' {
            break ;
        }
        proof {
            lemma_comment_run_end(s@, j + 1);
        }
        j = j + 1;
    }
    j
}

/// A remark line: a line break, then at least one character of free text
/// up to the next line break.
pub open spec fn spec_comment_line(s: Seq<char>, i: int) -> Result<(int, Seq<char>), Fail> {
    if i < s.len() && s[i] == '\n' {
        let j = comment_run_end(s, i + 1);
        if j == i + 1 {
            Err(Fail::Miss)
        } else {
            Ok((j, s.subrange(i + 1, j)))
        }
    } else {
        Err(Fail::Miss)
    }
}

/// Parser modifying an `Office` by adding the `OfficeHour`s a schedule
/// line specifies. On anything but a schedule line the office is left
/// unchanged.
fn add_times(s: &[char], pos: usize, office: &mut Office) -> (r: Result<usize, Fail>)
    requires
        pos <= s@.len(),
    ensures
        (match spec_sched_line(s@, pos as int) {
            Ok((n, hs)) => r matches Ok(rn) && rn as int == n && final(office)@ == with_times(
                old(office)@,
                hs,
            ),
            Err(f) => r == Err::<usize, Fail>(f) && *final(office) == *old(office),
        }),
        r matches Ok(n) ==> pos + 2 <= n <= s@.len(),
{
    if pos >= s.len() || s[pos] != '\n' {
        return Err(Fail::Miss);
    }
    let (j, ds) = match days(s, pos + 1) {
        Ok(p) => p,
        Err(f) => {
            return Err(f);
        },
    };
    if !tag2(s, j, ':', ' ') {
        return Err(Fail::Miss);
    }
    let n = s.len();
    proof {
        assert(j + 2 <= n);
    }
    let (k, ps) = match time_pairs(s, j + 2) {
        Ok(p) => p,
        Err(f) => {
            return Err(f);
        },
    };
    let hs = office_hours_from_days_and_times(ds, ps);
    office.add_times(hs);
    Ok(k)
}

/// Parser modifying an `Office` by adding the `Comment` a remark line
/// specifies. On anything but a remark line the office is left unchanged.
fn add_comment(s: &[char], pos: usize, office: &mut Office) -> (r: Result<usize, Fail>)
    requires
        pos <= s@.len(),
    ensures
        (match spec_comment_line(s@, pos as int) {
            Ok((n, c)) => r matches Ok(rn) && rn as int == n && final(office)@ == with_comment(
                old(office)@,
                c,
            ),
            Err(f) => r == Err::<usize, Fail>(f) && *final(office) == *old(office),
        }),
        r matches Ok(n) ==> pos + 2 <= n <= s@.len(),
{
    if pos >= s.len() || s[pos] != '\n' {
        return Err(Fail::Miss);
    }
    let j = comment_run(s, pos + 1);
    if j == pos + 1 {
        return Err(Fail::Miss);
    }
    let text = string_from_range(s, pos + 1, j);
    office.add_comment(Comment::new(text));
    Ok(j)
}

/// One body line of a record: a schedule line, or else a remark line,
/// applied to the office. A fatal failure in a schedule line is not
/// recovered into a remark.
pub open spec fn spec_add_info(s: Seq<char>, i: int, o: OfficeView) -> Result<
    (int, OfficeView),
    Fail,
> {
    match spec_sched_line(s, i) {
        Ok((n, hs)) => Ok((n, with_times(o, hs))),
        Err(Fail::Fatal(e)) => Err(Fail::Fatal(e)),
        Err(Fail::Miss) => match spec_comment_line(s, i) {
            Ok((n, c)) => Ok((n, with_comment(o, c))),
            Err(f) => Err(f),
        },
    }
}

/// Parser modifying an `Office` by one body line, whichever alternative
/// matches.
fn add_info(s: &[char], pos: usize, office: &mut Office) -> (r: Result<usize, Fail>)
    requires
        pos <= s@.len(),
    ensures
        (match spec_add_info(s@, pos as int, old(office)@) {
            Ok((n, o2)) => r matches Ok(rn) && rn as int == n && final(office)@ == o2,
            Err(f) => r == Err::<usize, Fail>(f) && *final(office) == *old(office),
        }),
        r matches Ok(n) ==> pos + 2 <= n <= s@.len(),
{
    match add_times(s, pos, office) {
        Ok(n) => Ok(n),
        Err(Fail::Fatal(e)) => Err(Fail::Fatal(e)),
        Err(Fail::Miss) => add_comment(s, pos, office),
    }
}

/// The body of a record: schedule and remark lines applied in order until
/// the first line that is neither, which ends the record.
pub open spec fn spec_body(s: Seq<char>, i: int, o: OfficeView) -> Result<(int, OfficeView), Fail>
    decreases s.len() - i when 0 <= i <= s.len()
{
    match spec_add_info(s, i, o) {
        Ok((n, o2)) => if i < n <= s.len() {
            spec_body(s, n, o2)
        } else {
            // never reached: a body line consumes at least two characters
            Err(Fail::Miss)
        },
        Err(Fail::Fatal(e)) => Err(Fail::Fatal(e)),
        Err(Fail::Miss) => Ok((i, o)),
    }
}

/// The two header lines of a record: the names on the first line, the
/// phone numbers on the second, and no windows or remarks yet.
pub open spec fn spec_base_office(s: Seq<char>, i: int) -> Result<(int, OfficeView), Fail> {
    match spec_names(s, i) {
        Ok((j, ns)) => if j < s.len() && s[j] == '\n' {
            let (k, ps) = spec_phones(s, j + 1);
            Ok(
                (
                    k,
                    OfficeView {
                        names: ns,
                        phones: ps,
                        times: Seq::empty(),
                        comments: Seq::empty(),
                    },
                ),
            )
        } else {
            Err(Fail::Miss)
        },
        Err(f) => Err(f),
    }
}

/// Parser for the basic information of an `Office`: the name list on the
/// first line, the phone list on the second.
fn base_office(s: &[char], pos: usize) -> (r: Result<(usize, Office), Fail>)
    requires
        pos <= s@.len(),
    ensures
        (match spec_base_office(s@, pos as int) {
            Ok((n, ov)) => r matches Ok(p) && p.0 as int == n && p.1@ == ov,
            Err(f) => r matches Err(g) && g == f,
        }),
        r matches Ok((n, _)) ==> pos + 2 <= n <= s@.len(),
{
    let (j, nm) = match names(s, pos) {
        Ok(p) => p,
        Err(f) => {
            return Err(f);
        },
    };
    if j < s.len() && s[j] == '\n' {
        let (k, ph) = phone_numbers(s, j + 1);
        Ok((k, Office::new(nm, ph)))
    } else {
        Err(Fail::Miss)
    }
}

/// An entire record: the two header lines, then any number of body lines.
/// A record whose header is not recognized fatally ends the whole parse:
/// no office can be built without both header lines.
pub open spec fn spec_office(s: Seq<char>, i: int) -> Result<(int, OfficeView), Fail> {
    match spec_base_office(s, i) {
        Ok((j, o)) => if i < j <= s.len() {
            spec_body(s, j, o)
        } else {
            // never reached: a header consumes at least two characters
            Err(Fail::Miss)
        },
        Err(Fail::Miss) => Err(Fail::Fatal(ParseError::MalformedHeader)),
        Err(Fail::Fatal(e)) => Err(Fail::Fatal(e)),
    }
}

/// Parser for an entire `Office`. An office ends with the first line that
/// is neither a schedule line nor a remark line, in particular with the
/// first empty line after the header.
fn office(s: &[char], pos: usize) -> (r: Result<(usize, Office), Fail>)
    requires
        pos <= s@.len(),
    ensures
        (match spec_office(s@, pos as int) {
            Ok((n, ov)) => r matches Ok(p) && p.0 as int == n && p.1@ == ov,
            Err(f) => r matches Err(g) && g == f,
        }),
        r matches Ok((n, _)) ==> pos + 2 <= n <= s@.len(),
        r matches Err(g) ==> g matches Fail::Fatal(_),
{
    let (start, mut ofc) = match base_office(s, pos) {
        Ok(p) => p,
        Err(Fail::Miss) => {
            return Err(Fail::Fatal(ParseError::MalformedHeader));
        },
        Err(Fail::Fatal(e)) => {
            return Err(Fail::Fatal(e));
        },
    };
    let mut p = start;
    loop
        invariant
            pos + 2 <= p <= s@.len(),
            spec_office(s@, pos as int) == spec_body(s@, p as int, ofc@),
        ensures
            spec_office(s@, pos as int) == Ok::<(int, OfficeView), Fail>((p as int, ofc@)),
            pos + 2 <= p <= s@.len(),
        decreases s@.len() - p,
    {
        match add_info(s, p, &mut ofc) {
            Ok(n) => {
                proof {
                    assert(p + 2 <= n <= s@.len());
                }
                p = n;
            },
            Err(Fail::Miss) => {
                break ;
            },
            Err(Fail::Fatal(e)) => {
                return Err(Fail::Fatal(e));
            },
        }
    }
    Ok((p, ofc))
}

/// The records after the first: each preceded by exactly one blank line.
/// Where no blank line follows, the document's recognized part ends; a
/// malformed record after a blank line fatally ends the whole parse.
pub open spec fn spec_offices_rest(s: Seq<char>, i: int) -> Result<(int, Seq<OfficeView>), Fail>
    decreases s.len() - i when 0 <= i <= s.len()
{
    if tag2_at(s, i, '\n', '\n') {
        match spec_office(s, i + 2) {
            Ok((n, o)) => if i + 2 < n <= s.len() {
                match spec_offices_rest(s, n) {
                    Ok((m, os)) => Ok((m, seq![o] + os)),
                    Err(f) => Err(f),
                }
            } else {
                // never reached: a record consumes at least two characters
                Err(Fail::Miss)
            },
            Err(f) => Err(f),
        }
    } else {
        Ok((i, Seq::empty()))
    }
}

/// A whole document: one record, then any number of records each preceded
/// by one blank line. What follows the last recognized record is handed
/// back unparsed.
pub open spec fn spec_offices(s: Seq<char>, i: int) -> Result<(int, Seq<OfficeView>), Fail> {
    match spec_office(s, i) {
        Ok((n, o)) => if i < n <= s.len() {
            match spec_offices_rest(s, n) {
                Ok((m, os)) => Ok((m, seq![o] + os)),
                Err(f) => Err(f),
            }
        } else {
            // never reached: a record consumes at least two characters
            Err(Fail::Miss)
        },
        Err(f) => Err(f),
    }
}

/// Parser for a list of `Office`s, separated by a single empty line each.
/// The result carries the position just after the last recognized record:
/// trailing text that is no record is not an error and stays unconsumed.
#[verifier::rlimit(100)]
pub fn offices(input: &str) -> (r: Result<(usize, Offices), ParseError>)
    ensures
        (match spec_offices(input@, 0) {
            Ok((n, os)) => r matches Ok(p) && p.0 as int == n && p.1@ == os,
            Err(f) => f matches Fail::Fatal(e) && r == Err::<(usize, Offices), ParseError>(e),
        }),
{
    let chars = crate::chars_of(input);
    let s = chars.as_slice();
    let ghost text = input@;
    let (first_end, first) = match office(s, 0) {
        Ok(p) => p,
        Err(Fail::Fatal(e)) => {
            return Err(e);
        },
        Err(Fail::Miss) => {
            // never reached: a record parse misses only fatally
            proof {
                assert(false);
            }
            return Err(ParseError::MalformedHeader);
        },
    };
    let mut list: Vec<Office> = Vec::new();
    list.push(first);
    proof {
        assert(views_of(list@) =~= seq![first@]);
    }
    let mut p = first_end;
    loop
        invariant
            0 < p <= text.len(),
            text == input@,
            text == s@,
            s@ == chars@,
            (match spec_offices_rest(text, p as int) {
                Ok((m, rest)) => spec_offices(text, 0) == Ok::<(int, Seq<OfficeView>), Fail>(
                    (m, views_of(list@) + rest),
                ),
                Err(f) => spec_offices(text, 0) == Err::<(int, Seq<OfficeView>), Fail>(f),
            }),
        ensures
            spec_offices(text, 0) == Ok::<(int, Seq<OfficeView>), Fail>(
                (p as int, views_of(list@)),
            ),
        decreases text.len() - p,
    {
        if !tag2(s, p, '\n', '\n') {
            proof {
                assert(spec_offices_rest(text, p as int) == Ok::<(int, Seq<OfficeView>), Fail>(
                    (p as int, Seq::empty()),
                ));
                assert(views_of(list@) + Seq::<OfficeView>::empty() =~= views_of(list@));
            }
            break ;
        }
        let n = s.len();
        proof {
            assert(p + 2 <= n);
        }
        match office(s, p + 2) {
            Ok((rec_end, ofc)) => {
                proof {
                    assert(p + 2 < rec_end <= text.len());
                    assert(spec_office(text, p + 2) == Ok::<(int, OfficeView), Fail>(
                        (rec_end as int, ofc@),
                    ));
                }
                let ghost old_views = views_of(list@);
                list.push(ofc);
                proof {
                    assert(views_of(list@) =~= old_views.push(ofc@));
                    match spec_offices_rest(text, rec_end as int) {
                        Ok((m, rest)) => {
                            assert(spec_offices_rest(text, p as int) == Ok::<
                                (int, Seq<OfficeView>),
                                Fail,
                            >((m, seq![ofc@] + rest)));
                            assert(old_views + (seq![ofc@] + rest) =~= views_of(list@) + rest);
                        },
                        Err(f) => {
                            assert(spec_offices_rest(text, p as int) == Err::<
                                (int, Seq<OfficeView>),
                                Fail,
                            >(f));
                        },
                    }
                }
                p = rec_end;
            },
            Err(Fail::Fatal(e)) => {
                proof {
                    assert(spec_office(text, p + 2) == Err::<(int, OfficeView), Fail>(
                        Fail::Fatal(e),
                    ));
                    assert(spec_offices_rest(text, p as int) == Err::<
                        (int, Seq<OfficeView>),
                        Fail,
                    >(Fail::Fatal(e)));
                }
                return Err(e);
            },
            Err(Fail::Miss) => {
                // never reached: a record parse misses only fatally
                proof {
                    assert(false);
                }
                return Err(ParseError::MalformedHeader);
            },
        }
    }
    Ok((p, Offices::new(list)))
}

proof fn lemma_spec_name_progress(s: Seq<char>, i: int)
    requires
        0 <= i <= s.len(),
    ensures
        spec_name(s, i) matches Ok((n, _)) ==> i < n <= s.len(),
{
    lemma_name_run_end(s, i);
}

proof fn lemma_spec_names_cont_bounds(s: Seq<char>, i: int)
    requires
        0 <= i <= s.len(),
    ensures
        i <= spec_names_cont(s, i).0 <= s.len(),
    decreases s.len() - i,
{
    if tag2_at(s, i, ',', ' ') {
        lemma_spec_name_progress(s, i + 2);
        match spec_name(s, i + 2) {
            Ok((n, _)) => {
                lemma_spec_names_cont_bounds(s, n);
            },
            Err(_) => {
            },
        }
    }
}

proof fn lemma_spec_names_progress(s: Seq<char>, i: int)
    requires
        0 <= i <= s.len(),
    ensures
        spec_names(s, i) matches Ok((n, _)) ==> i < n <= s.len(),
{
    lemma_spec_name_progress(s, i);
    match spec_name(s, i) {
        Ok((n, _)) => {
            lemma_spec_names_cont_bounds(s, n);
        },
        Err(_) => {
        },
    }
}

proof fn lemma_spec_phone_progress(s: Seq<char>, i: int)
    requires
        0 <= i <= s.len(),
    ensures
        spec_phone(s, i) matches Ok((n, _)) ==> i < n <= s.len(),
{
    lemma_digit_run_end(s, i);
}

proof fn lemma_spec_phones_cont_bounds(s: Seq<char>, i: int)
    requires
        0 <= i <= s.len(),
    ensures
        i <= spec_phones_cont(s, i).0 <= s.len(),
    decreases s.len() - i,
{
    if tag2_at(s, i, ',', ' ') {
        lemma_spec_phone_progress(s, i + 2);
        match spec_phone(s, i + 2) {
            Ok((n, _)) => {
                lemma_spec_phones_cont_bounds(s, n);
            },
            Err(_) => {
            },
        }
    }
}

proof fn lemma_spec_phones_bounds(s: Seq<char>, i: int)
    requires
        0 <= i <= s.len(),
    ensures
        i <= spec_phones(s, i).0 <= s.len(),
{
    lemma_spec_phone_progress(s, i);
    match spec_phone(s, i) {
        Ok((n, _)) => {
            lemma_spec_phones_cont_bounds(s, n);
        },
        Err(_) => {
        },
    }
}

proof fn lemma_spec_small_number_progress(s: Seq<char>, i: int)
    requires
        0 <= i <= s.len(),
    ensures
        spec_small_number(s, i) matches Ok((n, _)) ==> i < n <= s.len(),
{
    lemma_digit_run_end(s, i);
}

proof fn lemma_spec_time_progress(s: Seq<char>, i: int)
    requires
        0 <= i <= s.len(),
    ensures
        spec_time(s, i) matches Ok((n, _)) ==> i + 3 <= n <= s.len(),
{
    lemma_spec_small_number_progress(s, i);
    match spec_small_number(s, i) {
        Ok((j, _)) => {
            if j < s.len() && s[j] == ':' {
                lemma_spec_small_number_progress(s, j + 1);
            }
        },
        Err(_) => {
        },
    }
}

proof fn lemma_spec_time_pair_progress(s: Seq<char>, i: int)
    requires
        0 <= i <= s.len(),
    ensures
        spec_time_pair(s, i) matches Ok((n, _)) ==> i + 2 < n <= s.len(),
{
    lemma_spec_time_progress(s, i);
    match spec_time(s, i) {
        Ok((j, _)) => {
            if tag3_at(s, j, ' ', '-', ' ') {
                lemma_spec_time_progress(s, j + 3);
            }
        },
        Err(_) => {
        },
    }
}

proof fn lemma_spec_time_pairs_cont_bounds(s: Seq<char>, i: int)
    requires
        0 <= i <= s.len(),
    ensures
        spec_time_pairs_cont(s, i) matches Ok((m, _)) ==> i <= m <= s.len(),
        spec_time_pairs_cont(s, i) matches Err(f) ==> f matches Fail::Fatal(_),
    decreases s.len() - i,
{
    if tag2_at(s, i, ',', ' ') {
        lemma_spec_time_pair_progress(s, i + 2);
        match spec_time_pair(s, i + 2) {
            Ok((n, _)) => {
                lemma_spec_time_pairs_cont_bounds(s, n);
            },
            Err(_) => {
            },
        }
    }
}

proof fn lemma_spec_time_pairs_progress(s: Seq<char>, i: int)
    requires
        0 <= i <= s.len(),
    ensures
        spec_time_pairs(s, i) matches Ok((n, _)) ==> i < n <= s.len(),
{
    lemma_spec_time_pair_progress(s, i);
    match spec_time_pair(s, i) {
        Ok((n, _)) => {
            lemma_spec_time_pairs_cont_bounds(s, n);
        },
        Err(_) => {
        },
    }
}

proof fn lemma_spec_day_list_elem_progress(s: Seq<char>, i: int)
    requires
        0 <= i <= s.len(),
    ensures
        spec_day_list_elem(s, i) matches Ok((n, _)) ==> i + 2 <= n <= s.len(),
{
}

proof fn lemma_spec_day_list_cont_bounds(s: Seq<char>, i: int)
    requires
        0 <= i <= s.len(),
    ensures
        spec_day_list_cont(s, i) matches Ok((m, _)) ==> i <= m <= s.len(),
        spec_day_list_cont(s, i) matches Err(f) ==> f matches Fail::Fatal(_),
    decreases s.len() - i,
{
    if tag2_at(s, i, ',', ' ') {
        lemma_spec_day_list_elem_progress(s, i + 2);
        match spec_day_list_elem(s, i + 2) {
            Ok((n, _)) => {
                lemma_spec_day_list_cont_bounds(s, n);
            },
            Err(_) => {
            },
        }
    }
}

proof fn lemma_spec_days_progress(s: Seq<char>, i: int)
    requires
        0 <= i <= s.len(),
    ensures
        spec_days(s, i) matches Ok((n, _)) ==> i + 2 <= n <= s.len(),
{
    lemma_spec_day_list_elem_progress(s, i);
    match spec_day_list_elem(s, i) {
        Ok((n, _)) => {
            lemma_spec_day_list_cont_bounds(s, n);
        },
        Err(_) => {
        },
    }
}

proof fn lemma_spec_sched_line_progress(s: Seq<char>, i: int)
    requires
        0 <= i <= s.len(),
    ensures
        spec_sched_line(s, i) matches Ok((n, _)) ==> i + 2 <= n <= s.len(),
{
    if i < s.len() && s[i] == '\n' {
        lemma_spec_days_progress(s, i + 1);
        match spec_days(s, i + 1) {
            Ok((j, _)) => {
                if tag2_at(s, j, ':', ' ') {
                    lemma_spec_time_pairs_progress(s, j + 2);
                }
            },
            Err(_) => {
            },
        }
    }
}

proof fn lemma_spec_comment_line_progress(s: Seq<char>, i: int)
    requires
        0 <= i <= s.len(),
    ensures
        spec_comment_line(s, i) matches Ok((n, _)) ==> i + 2 <= n <= s.len(),
{
    if i < s.len() && s[i] == '\n' {
        lemma_comment_run_end(s, i + 1);
    }
}

proof fn lemma_spec_add_info_progress(s: Seq<char>, i: int, o: OfficeView)
    requires
        0 <= i <= s.len(),
    ensures
        spec_add_info(s, i, o) matches Ok((n, _)) ==> i + 2 <= n <= s.len(),
{
    lemma_spec_sched_line_progress(s, i);
    lemma_spec_comment_line_progress(s, i);
}

proof fn lemma_spec_body_total(s: Seq<char>, i: int, o: OfficeView)
    requires
        0 <= i <= s.len(),
    ensures
        spec_body(s, i, o) matches Ok((n, _)) ==> i <= n <= s.len(),
        spec_body(s, i, o) matches Err(f) ==> f matches Fail::Fatal(_),
    decreases s.len() - i,
{
    lemma_spec_add_info_progress(s, i, o);
    match spec_add_info(s, i, o) {
        Ok((n, o2)) => {
            lemma_spec_body_total(s, n, o2);
        },
        Err(_) => {
        },
    }
}

proof fn lemma_spec_base_office_progress(s: Seq<char>, i: int)
    requires
        0 <= i <= s.len(),
    ensures
        spec_base_office(s, i) matches Ok((n, _)) ==> i + 2 <= n <= s.len(),
{
    lemma_spec_names_progress(s, i);
    match spec_names(s, i) {
        Ok((j, _)) => {
            if j < s.len() && s[j] == '\n' {
                lemma_spec_phones_bounds(s, j + 1);
            }
        },
        Err(_) => {
        },
    }
}

proof fn lemma_spec_office_total(s: Seq<char>, i: int)
    requires
        0 <= i <= s.len(),
    ensures
        spec_office(s, i) matches Ok((n, _)) ==> i + 2 <= n <= s.len(),
        spec_office(s, i) matches Err(f) ==> f matches Fail::Fatal(_),
{
    lemma_spec_base_office_progress(s, i);
    match spec_base_office(s, i) {
        Ok((j, o)) => {
            lemma_spec_body_total(s, j, o);
        },
        Err(_) => {
        },
    }
}

proof fn lemma_spec_offices_rest_total(s: Seq<char>, i: int)
    requires
        0 <= i <= s.len(),
    ensures
        spec_offices_rest(s, i) matches Err(f) ==> f matches Fail::Fatal(_),
    decreases s.len() - i,
{
    if tag2_at(s, i, '\n', '\n') {
        lemma_spec_office_total(s, i + 2);
        match spec_office(s, i + 2) {
            Ok((n, _)) => {
                lemma_spec_offices_rest_total(s, n);
            },
            Err(_) => {
            },
        }
    }
}

/// A document parse never merely misses: it recognizes a prefix of the
/// document, or it fails fatally. The guarded branches inside the grammar
/// marked as never reached are in fact unreachable: every rule that finds
/// a value moves forward and stays inside the input.
pub proof fn lemma_offices_fatal_only(s: Seq<char>)
    ensures
        spec_offices(s, 0) matches Err(f) ==> f matches Fail::Fatal(_),
{
    lemma_spec_office_total(s, 0);
    match spec_office(s, 0) {
        Ok((n, _)) => {
            lemma_spec_offices_rest_total(s, n);
        },
        Err(_) => {
        },
    }
}

} // verus!
