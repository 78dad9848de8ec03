use mtif::datetime::DateTime;
use mtif::parser::utils::parse_date_value;

fn at(year: i32, month: u8, day: u8, hour: u8, minute: u8, second: u8) -> DateTime {
    DateTime { year, month, day, hour, minute, second }
}

fn in_time_crate(date: DateTime) -> time::PrimitiveDateTime {
    let month = time::Month::try_from(date.month).unwrap();
    time::PrimitiveDateTime::new(
        time::Date::from_calendar_date(date.year, month, date.day).unwrap(),
        time::Time::from_hms(date.hour, date.minute, date.second).unwrap(),
    )
}

#[test]
fn new_accepts_what_exists() {
    assert_eq!(DateTime::new(2012, 12, 31, 12, 34, 56), Some(at(2012, 12, 31, 12, 34, 56)));
    assert_eq!(DateTime::new(0, 1, 1, 0, 0, 0), Some(at(0, 1, 1, 0, 0, 0)));
    assert_eq!(DateTime::new(9999, 12, 31, 23, 59, 59), Some(at(9999, 12, 31, 23, 59, 59)));
    assert_eq!(DateTime::new(-9999, 1, 1, 0, 0, 0), Some(at(-9999, 1, 1, 0, 0, 0)));
    assert_eq!(DateTime::new(2000, 2, 29, 0, 0, 0), Some(at(2000, 2, 29, 0, 0, 0)));
    assert_eq!(DateTime::new(-4, 2, 29, 0, 0, 0), Some(at(-4, 2, 29, 0, 0, 0)));
}

#[test]
fn new_refuses_what_does_not_exist() {
    assert_eq!(DateTime::new(2013, 2, 29, 0, 0, 0), None);
    assert_eq!(DateTime::new(2100, 2, 29, 0, 0, 0), None);
    assert_eq!(DateTime::new(2012, 0, 1, 0, 0, 0), None);
    assert_eq!(DateTime::new(2012, 13, 1, 0, 0, 0), None);
    assert_eq!(DateTime::new(2012, 1, 0, 0, 0, 0), None);
    assert_eq!(DateTime::new(2012, 1, 32, 0, 0, 0), None);
    assert_eq!(DateTime::new(2012, 9, 31, 0, 0, 0), None);
    assert_eq!(DateTime::new(2012, 11, 31, 0, 0, 0), None);
    assert_eq!(DateTime::new(10000, 1, 1, 0, 0, 0), None);
    assert_eq!(DateTime::new(-10000, 1, 1, 0, 0, 0), None);
    assert_eq!(DateTime::new(2012, 1, 1, 24, 0, 0), None);
    assert_eq!(DateTime::new(2012, 1, 1, 0, 60, 0), None);
    assert_eq!(DateTime::new(2012, 1, 1, 0, 0, 60), None);
}

#[test]
fn new_knows_the_length_of_each_month() {
    let lengths = [31u8, 28, 31, 30, 31, 30, 31, 31, 30, 31, 30, 31];
    for (index, length) in lengths.iter().enumerate() {
        let month = (index + 1) as u8;
        assert!(DateTime::new(2013, month, *length, 0, 0, 0).is_some());
        assert!(DateTime::new(2013, month, *length + 1, 0, 0, 0).is_none());
    }
}

#[test]
fn plus_hours_moves_the_clock_and_wraps_at_midnight() {
    assert_eq!(at(2012, 12, 31, 1, 34, 56).plus_hours(12), at(2012, 12, 31, 13, 34, 56));
    assert_eq!(at(2012, 12, 31, 12, 0, 0).plus_hours(12), at(2012, 12, 31, 0, 0, 0));
    assert_eq!(at(2012, 12, 31, 23, 59, 59).plus_hours(23), at(2012, 12, 31, 22, 59, 59));
    assert_eq!(at(2012, 12, 31, 5, 6, 7).plus_hours(0), at(2012, 12, 31, 5, 6, 7));
}

#[test]
fn parsed_dates_are_dates_of_the_time_crate() {
    let (_, noon) = parse_date_value("12/31/2012 12:34:56").unwrap();
    let expected = time::PrimitiveDateTime::new(
        time::Date::from_calendar_date(2012, time::Month::December, 31).unwrap(),
        time::Time::from_hms(12, 34, 56).unwrap(),
    );
    assert_eq!(in_time_crate(noon), expected);
    let (_, afternoon) = parse_date_value("12/31/2012 01:34:56 PM").unwrap();
    assert_eq!(
        in_time_crate(afternoon),
        expected + time::Duration::hours(1)
    );
}

#[test]
fn new_agrees_with_the_gregorian_rule_for_every_date() {
    for year in -10001..=10001i32 {
        let leap = year.rem_euclid(4) == 0
            && (year.rem_euclid(100) != 0 || year.rem_euclid(400) == 0);
        for month in 0..=13u8 {
            let length = match month {
                2 => {
                    if leap {
                        29
                    } else {
                        28
                    }
                }
                4 | 6 | 9 | 11 => 30,
                _ => 31,
            };
            for day in 0..=32u8 {
                let exists = (-9999..=9999).contains(&year)
                    && (1..=12).contains(&month)
                    && (1..=length).contains(&day);
                assert_eq!(
                    DateTime::new(year, month, day, 0, 0, 0).is_some(),
                    exists,
                    "{}-{}-{}",
                    year,
                    month,
                    day
                );
            }
        }
    }
}

#[test]
fn new_agrees_with_the_clock_for_every_time() {
    for hour in 0..=255u8 {
        for minute in 0..=255u8 {
            for second in [0u8, 1, 30, 59, 60, 61, 255] {
                let exists = hour < 24 && minute < 60 && second < 60;
                assert_eq!(DateTime::new(2000, 1, 1, hour, minute, second).is_some(), exists);
            }
        }
    }
}

#[test]
fn plus_hours_agrees_with_the_dial_for_every_hour() {
    for hour in 0..24u8 {
        for hours in 0..24u8 {
            let moved = at(2000, 6, 15, hour, 7, 9).plus_hours(hours);
            assert_eq!(moved, at(2000, 6, 15, (hour + hours) % 24, 7, 9));
        }
    }
}
