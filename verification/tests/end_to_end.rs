use sprechzeiten::hrdb::{offices, names, ParseError};
use sprechzeiten::time::{Clock, Day, Time};
use sprechzeiten::chars_of;

const TWO_OFFICES: &str = "Anna Muster\n12345678\nMo \u{2013} Fr: 09:00 - 12:00\n\nBerta Beispiel\n\nTgl: 08:00 - 10:00, 14:00 - 16:00\nVacation next week";

#[test]
fn names_line() {
    let input = chars_of("Anna Muster, Berta B\n123");
    let (next, parsed) = names(&input, 0).unwrap();
    assert_eq!(next, 20);
    assert_eq!(parsed.len(), 2);
    assert_eq!(parsed.get(0).as_str(), "Anna Muster");
    assert_eq!(parsed.get(1).as_str(), "Berta B");
}

#[test]
fn two_office_document() {
    let (rest, parsed) = offices(TWO_OFFICES).unwrap();
    assert_eq!(rest, TWO_OFFICES.chars().count());
    assert_eq!(parsed.len(), 2);

    let first = parsed.get(0);
    assert_eq!(first.names().len(), 1);
    assert_eq!(first.names().get(0).as_str(), "Anna Muster");
    assert_eq!(first.phones().len(), 1);
    assert_eq!(first.phones().get(0).as_str(), "12345678");
    assert_eq!(first.comments().len(), 0);
    let windows = &first.times().data;
    assert_eq!(windows.len(), 5);
    let week = [Day::Mon, Day::Tue, Day::Wed, Day::Thu, Day::Fri];
    for (window, expected_day) in windows.iter().zip(week.iter()) {
        assert_eq!(window.day, *expected_day);
        assert_eq!(window.begin, Clock::new(9, 0));
        assert_eq!(window.end, Clock::new(12, 0));
    }

    let second = parsed.get(1);
    assert_eq!(second.names().len(), 1);
    assert_eq!(second.names().get(0).as_str(), "Berta Beispiel");
    assert_eq!(second.phones().len(), 0);
    assert_eq!(second.comments().len(), 1);
    assert_eq!(second.comments().get(0).as_str(), "Vacation next week");
    let windows2 = &second.times().data;
    assert_eq!(windows2.len(), 10);
    for (k, window) in windows2.iter().enumerate() {
        assert_eq!(window.day, week[k / 2]);
        if k % 2 == 0 {
            assert_eq!(window.begin, Clock::new(8, 0));
            assert_eq!(window.end, Clock::new(10, 0));
        } else {
            assert_eq!(window.begin, Clock::new(14, 0));
            assert_eq!(window.end, Clock::new(16, 0));
        }
    }
}

#[test]
fn query_wednesday_morning() {
    let (_, parsed) = offices(TWO_OFFICES).unwrap();
    // at 09:30 both offices are reachable: the first through its
    // 09:00 - 12:00 window, the second through its 08:00 - 10:00 one
    let at = Time::new(Day::Wed, Clock::new(9, 30));
    let active = parsed.filter_time(&at);
    assert_eq!(active.len(), 2);
    let first = active.get(0);
    assert_eq!(first.names().get(0).as_str(), "Anna Muster");
    assert_eq!(first.times().data.len(), 1);
    assert_eq!(first.times().data[0].day, Day::Wed);
    assert_eq!(first.times().data[0].begin, Clock::new(9, 0));
    assert_eq!(first.times().data[0].end, Clock::new(12, 0));
    let second = active.get(1);
    assert_eq!(second.names().get(0).as_str(), "Berta Beispiel");
    assert_eq!(second.times().data.len(), 1);
    assert_eq!(second.times().data[0].day, Day::Wed);
    assert_eq!(second.times().data[0].begin, Clock::new(8, 0));
    assert_eq!(second.times().data[0].end, Clock::new(10, 0));
}

#[test]
fn query_wednesday_late_morning() {
    let (_, parsed) = offices(TWO_OFFICES).unwrap();
    // at 10:30 only the first office is reachable, reduced to its single
    // Wednesday window
    let at = Time::new(Day::Wed, Clock::new(10, 30));
    let active = parsed.filter_time(&at);
    assert_eq!(active.len(), 1);
    let office = active.get(0);
    assert_eq!(office.names().get(0).as_str(), "Anna Muster");
    assert_eq!(office.times().data.len(), 1);
    assert_eq!(office.times().data[0].day, Day::Wed);
    assert_eq!(office.times().data[0].begin, Clock::new(9, 0));
    assert_eq!(office.times().data[0].end, Clock::new(12, 0));
}

#[test]
fn empty_document_is_rejected() {
    assert!(matches!(offices(""), Err(ParseError::MalformedHeader)));
}

#[test]
fn missing_phone_line_is_rejected() {
    assert!(matches!(offices("Anna Muster"), Err(ParseError::MalformedHeader)));
}

#[test]
fn fatal_clock_aborts_whole_parse() {
    assert!(matches!(
        offices("Anna\n123\nMo: 24:00 - 26:00"),
        Err(ParseError::ClockOutOfRange)
    ));
    assert!(matches!(
        offices("Anna\n123\nMo: 111111:00 - 12:00"),
        Err(ParseError::NumberTooLarge)
    ));
    assert!(matches!(
        offices("Anna\n123\nFr \u{2013} Mo: 09:00 - 12:00"),
        Err(ParseError::BackwardDayRange)
    ));
}

#[test]
fn trailing_text_is_left_unconsumed() {
    let (rest, parsed) = offices("Anna\n12a45").unwrap();
    assert_eq!(rest, 7);
    assert_eq!(parsed.len(), 1);
    assert_eq!(parsed.get(0).phones().len(), 1);
    assert_eq!(parsed.get(0).phones().get(0).as_str(), "12");
}

#[test]
fn unrecognized_line_becomes_remark() {
    let (rest, parsed) = offices("Anna\n123\nMo9:00 - 10:00").unwrap();
    let doc_len = "Anna\n123\nMo9:00 - 10:00".chars().count();
    assert_eq!(rest, doc_len);
    assert_eq!(parsed.get(0).times().data.len(), 0);
    assert_eq!(parsed.get(0).comments().len(), 1);
    assert_eq!(parsed.get(0).comments().get(0).as_str(), "Mo9:00 - 10:00");
}

#[test]
fn record_ends_at_blank_line() {
    let doc = "Anna\n1\nMo: 08:00 - 09:00\n\nBerta\n2";
    let (rest, parsed) = offices(doc).unwrap();
    assert_eq!(rest, doc.chars().count());
    assert_eq!(parsed.len(), 2);
    assert_eq!(parsed.get(0).times().data.len(), 1);
    assert_eq!(parsed.get(1).names().get(0).as_str(), "Berta");
    assert_eq!(parsed.get(1).phones().get(0).as_str(), "2");
}
