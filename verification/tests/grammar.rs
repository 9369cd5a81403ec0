use sprechzeiten::hrdb::{
    day, day_list, day_range, days, days_from_range, merge_days, office_hours_from_days_and_times,
    phone_number, phone_numbers, single_day, time, time_pair, Fail, ParseError,
};
use sprechzeiten::time::{Clock, Day};
use sprechzeiten::{chars_of, display_simple_list, Phone, PhoneErr};

#[test]
fn test_day() {
    let input = chars_of("Mo");
    let (_, res) = day(&input, 0).unwrap();
    assert_eq!(res, Day::Mon);
}

#[test]
fn test_day_range() {
    let input = chars_of("Di \u{2013} Do");
    let (_, res) = day_range(&input, 0).unwrap();
    assert_eq!(res, vec![Day::Tue, Day::Wed, Day::Thu]);
}

#[test]
fn test_day_list() {
    let input = chars_of("Mo, Mi \u{2013} Fr");
    let (_, res) = day_list(&input, 0).unwrap();
    assert_eq!(res, vec![Day::Mon, Day::Wed, Day::Thu, Day::Fri]);
}

#[test]
fn test_days() {
    let input = chars_of("Tgl");
    let (_, res) = days(&input, 0).unwrap();
    assert_eq!(res, vec![Day::Mon, Day::Tue, Day::Wed, Day::Thu, Day::Fri]);
}

#[test]
fn test_time() {
    let input = chars_of("10:38");
    let (_, res) = time(&input, 0).unwrap();
    assert_eq!(res, Clock::new(10, 38));
}

#[test]
fn all_day_tokens() {
    for (text, expected) in [
        ("Mo", Day::Mon),
        ("Di", Day::Tue),
        ("Mi", Day::Wed),
        ("Do", Day::Thu),
        ("Fr", Day::Fri),
    ] {
        let input = chars_of(text);
        let (next, res) = day(&input, 0).unwrap();
        assert_eq!(next, 2);
        assert_eq!(res, expected);
    }
    assert_eq!(day(&chars_of("Sa"), 0), Err(Fail::Miss));
    assert_eq!(day(&chars_of("M"), 0), Err(Fail::Miss));
}

#[test]
fn day_range_equal_endpoints() {
    let input = chars_of("Mi \u{2013} Mi");
    let (next, res) = day_range(&input, 0).unwrap();
    assert_eq!(next, 7);
    assert_eq!(res, vec![Day::Wed]);
}

#[test]
fn day_range_backward_is_fatal() {
    let input = chars_of("Fr \u{2013} Mo");
    assert_eq!(
        day_range(&input, 0),
        Err(Fail::Fatal(ParseError::BackwardDayRange))
    );
}

#[test]
fn day_range_wants_en_dash() {
    // a plain hyphen is the time-range separator, not the day-range one
    let input = chars_of("Di - Do");
    assert_eq!(day_range(&input, 0), Err(Fail::Miss));
    let (next, res) = day_list(&input, 0).unwrap();
    assert_eq!(next, 2);
    assert_eq!(res, vec![Day::Tue]);
}

#[test]
fn day_list_keeps_duplicates_and_order() {
    let input = chars_of("Do, Mo, Mo");
    let (_, res) = day_list(&input, 0).unwrap();
    assert_eq!(res, vec![Day::Thu, Day::Mon, Day::Mon]);
}

#[test]
fn daily_equals_full_range() {
    let (_, via_daily) = days(&chars_of("Tgl"), 0).unwrap();
    let (_, via_range) = days(&chars_of("Mo \u{2013} Fr"), 0).unwrap();
    assert_eq!(via_daily, via_range);
    assert_eq!(
        via_daily,
        vec![Day::Mon, Day::Tue, Day::Wed, Day::Thu, Day::Fri]
    );
}

#[test]
fn time_accepts_unpadded_digits() {
    let (next, res) = time(&chars_of("9:05"), 0).unwrap();
    assert_eq!(next, 4);
    assert_eq!(res, Clock::new(9, 5));
    let (_, padded) = time(&chars_of("07:05"), 0).unwrap();
    assert_eq!(padded, Clock::new(7, 5));
}

#[test]
fn time_out_of_range_is_fatal() {
    assert_eq!(
        time(&chars_of("24:00"), 0),
        Err(Fail::Fatal(ParseError::ClockOutOfRange))
    );
    assert_eq!(
        time(&chars_of("12:60"), 0),
        Err(Fail::Fatal(ParseError::ClockOutOfRange))
    );
    assert_eq!(
        time(&chars_of("300:00"), 0),
        Err(Fail::Fatal(ParseError::NumberTooLarge))
    );
    assert_eq!(time(&chars_of("ab"), 0), Err(Fail::Miss));
}

#[test]
fn time_pair_uses_plain_hyphen() {
    let (next, (begin, end)) = time_pair(&chars_of("09:00 - 12:00"), 0).unwrap();
    assert_eq!(next, 13);
    assert_eq!(begin, Clock::new(9, 0));
    assert_eq!(end, Clock::new(12, 0));
    // the en dash must not be accepted here
    assert_eq!(
        time_pair(&chars_of("09:00 \u{2013} 12:00"), 0),
        Err(Fail::Miss)
    );
}

#[test]
fn single_day_and_merge() {
    let one = single_day(Day::Wed);
    assert_eq!(one, vec![Day::Wed]);
    let merged = merge_days(vec![Day::Mon, Day::Tue], vec![Day::Fri]);
    assert_eq!(merged, vec![Day::Mon, Day::Tue, Day::Fri]);
}

#[test]
fn days_from_range_walks_successors() {
    assert_eq!(
        days_from_range(Day::Tue, Day::Thu),
        vec![Day::Tue, Day::Wed, Day::Thu]
    );
    assert_eq!(days_from_range(Day::Fri, Day::Fri), vec![Day::Fri]);
}

#[test]
fn hours_cross_product_is_day_major() {
    let days_list = vec![Day::Mon, Day::Tue];
    let pairs = vec![
        (Clock::new(8, 0), Clock::new(10, 0)),
        (Clock::new(14, 0), Clock::new(16, 0)),
    ];
    let hours = office_hours_from_days_and_times(days_list, pairs);
    assert_eq!(hours.len(), 4);
    assert_eq!(hours[0].day, Day::Mon);
    assert_eq!(hours[0].begin, Clock::new(8, 0));
    assert_eq!(hours[1].day, Day::Mon);
    assert_eq!(hours[1].begin, Clock::new(14, 0));
    assert_eq!(hours[2].day, Day::Tue);
    assert_eq!(hours[2].begin, Clock::new(8, 0));
    assert_eq!(hours[3].day, Day::Tue);
    assert_eq!(hours[3].begin, Clock::new(14, 0));
}

#[test]
fn phone_rejects_non_digits() {
    assert!(matches!(
        Phone::new(String::from("12a45")),
        Err(PhoneErr::InvalidChar)
    ));
    let phone = Phone::new(String::from("0123456789")).unwrap();
    assert_eq!(phone.as_str(), "0123456789");
}

#[test]
fn phone_number_reads_digit_run() {
    let input = chars_of("12345678, 99");
    let (next, phone) = phone_number(&input, 0).unwrap();
    assert_eq!(next, 8);
    assert_eq!(phone.as_str(), "12345678");
    assert!(matches!(phone_number(&chars_of("x1"), 0), Err(Fail::Miss)));
}

#[test]
fn phone_numbers_list_may_be_empty() {
    let (next, phones) = phone_numbers(&chars_of(""), 0);
    assert_eq!(next, 0);
    assert_eq!(phones.len(), 0);
    let (next2, phones2) = phone_numbers(&chars_of("12, 34"), 0);
    assert_eq!(next2, 6);
    assert_eq!(phones2.len(), 2);
    assert_eq!(phones2.get(0).as_str(), "12");
    assert_eq!(phones2.get(1).as_str(), "34");
}

#[test]
fn display_list_joins_with_comma_space() {
    assert_eq!(display_simple_list(&vec![]), "");
    assert_eq!(display_simple_list(&vec![String::from("ab")]), "ab");
    assert_eq!(
        display_simple_list(&vec![
            String::from("Anna"),
            String::from("Berta"),
            String::from("Clara")
        ]),
        "Anna, Berta, Clara"
    );
}

#[test]
fn chars_of_counts_characters() {
    let cs = chars_of("Mo \u{2013} Fr");
    assert_eq!(cs.len(), 7);
    assert_eq!(cs[3], '\u{2013}');
}
