use sprechzeiten::time::{Clock, Day, NowError, OfficeHour, OfficeHours, Time};
use sprechzeiten::{Name, Names, Office, Offices, Phones};

#[test]
fn after_monday() {
    assert_eq!(Day::Mon.next(), Day::Tue);
}

#[test]
fn clock_works() {
    assert_eq!(
        Clock::new(11, 23),
        Clock {
            hours: 11,
            minutes: 23
        }
    );
}

#[test]
fn clock_preserves_bounds() {
    let low = Clock::new(0, 0);
    assert_eq!(low.hours(), 0);
    assert_eq!(low.minutes(), 0);
    let high = Clock::new(23, 59);
    assert_eq!(high.hours(), 23);
    assert_eq!(high.minutes(), 59);
}

#[test]
fn successor_chain() {
    assert_eq!(Day::Mon.next(), Day::Tue);
    assert_eq!(Day::Tue.next(), Day::Wed);
    assert_eq!(Day::Wed.next(), Day::Thu);
    assert_eq!(Day::Thu.next(), Day::Fri);
}

#[test]
fn window_is_half_open() {
    let window = OfficeHour::new(Day::Mon, Clock::new(9, 0), Clock::new(12, 0));
    assert!(window.contains(&Time::new(Day::Mon, Clock::new(11, 59))));
    assert!(window.contains(&Time::new(Day::Mon, Clock::new(9, 0))));
    assert!(!window.contains(&Time::new(Day::Mon, Clock::new(12, 0))));
    assert!(!window.contains(&Time::new(Day::Tue, Clock::new(10, 0))));
}

#[test]
fn office_hours_filter() {
    let hours = OfficeHours {
        data: vec![
            OfficeHour::new(Day::Mon, Clock::new(9, 0), Clock::new(12, 0)),
            OfficeHour::new(Day::Tue, Clock::new(9, 0), Clock::new(12, 0)),
            OfficeHour::new(Day::Mon, Clock::new(14, 0), Clock::new(16, 0)),
        ],
    };
    let at = Time::new(Day::Mon, Clock::new(10, 30));
    let filtered = hours.filter_time(&at).unwrap();
    assert_eq!(filtered.data.len(), 1);
    assert_eq!(filtered.data[0].day, Day::Mon);
    assert_eq!(filtered.data[0].begin, Clock::new(9, 0));
    assert_eq!(filtered.data[0].end, Clock::new(12, 0));

    let sunday_like = Time::new(Day::Fri, Clock::new(10, 30));
    assert!(hours.filter_time(&sunday_like).is_none());
}

fn sample_offices() -> Offices {
    let mut early = Office::new(
        Names::new(vec![Name::new(String::from("Anna"))]),
        Phones::new(vec![]),
    );
    early.add_times(vec![
        OfficeHour::new(Day::Mon, Clock::new(8, 0), Clock::new(10, 0)),
        OfficeHour::new(Day::Wed, Clock::new(8, 0), Clock::new(10, 0)),
    ]);
    let mut late = Office::new(
        Names::new(vec![Name::new(String::from("Berta"))]),
        Phones::new(vec![]),
    );
    late.add_times(vec![OfficeHour::new(
        Day::Wed,
        Clock::new(14, 0),
        Clock::new(16, 0),
    )]);
    Offices::new(vec![early, late])
}

fn shape(offices: &Offices) -> Vec<(String, usize, Vec<(Day, u8, u8, u8, u8)>)> {
    let mut out = Vec::new();
    for i in 0..offices.len() {
        let office = offices.get(i);
        let mut windows = Vec::new();
        for w in &office.times().data {
            windows.push((
                w.day,
                w.begin.hours(),
                w.begin.minutes(),
                w.end.hours(),
                w.end.minutes(),
            ));
        }
        out.push((
            office.names().get(0).as_str().to_string(),
            office.phones().len(),
            windows,
        ));
    }
    out
}

#[test]
fn filter_time_reduces_to_active_windows() {
    let offices = sample_offices();
    let at = Time::new(Day::Wed, Clock::new(9, 0));
    let active = offices.filter_time(&at);
    assert_eq!(active.len(), 1);
    let office = active.get(0);
    assert_eq!(office.names().get(0).as_str(), "Anna");
    assert_eq!(office.times().data.len(), 1);
    assert_eq!(office.times().data[0].day, Day::Wed);
}

#[test]
fn filter_time_is_pure() {
    let offices = sample_offices();
    let at = Time::new(Day::Wed, Clock::new(9, 0));
    let once = offices.filter_time(&at);
    let twice = offices.filter_time(&at);
    assert_eq!(shape(&once), shape(&twice));
    // the projection applied to its own result changes nothing
    assert_eq!(shape(&once.filter_time(&at)), shape(&once));
    // the source is unchanged
    assert_eq!(offices.len(), 2);
    assert_eq!(offices.get(0).times().data.len(), 2);
    // an instant no window holds yields an empty collection
    let never = Time::new(Day::Fri, Clock::new(3, 0));
    assert_eq!(offices.filter_time(&never).len(), 0);
}

#[test]
fn office_reachable_matches_windows() {
    let offices = sample_offices();
    assert!(offices.get(0).reachable(&Time::new(Day::Mon, Clock::new(8, 0))));
    assert!(!offices.get(0).reachable(&Time::new(Day::Mon, Clock::new(10, 0))));
    assert!(!offices.get(1).reachable(&Time::new(Day::Mon, Clock::new(8, 0))));
}

#[test]
fn now_is_in_range_or_fails() {
    match Time::now() {
        Ok(t) => {
            assert!(t.clock.hours <= 23);
            assert!(t.clock.minutes <= 59);
        }
        Err(NowError::IndeterminateOffset) => {}
        Err(NowError::Weekend(_)) => {}
    }
}
