use rizzy::scanner::match_at;
use rizzy::timestamp::read_instant;

/// The instant that `text` names, if all of it is a timestamp and names one.
fn seconds_of(text: &str) -> Option<i64> {
    let t: Vec<char> = text.chars().collect();
    let found = match_at(&t, 0)?;
    if found.end != t.len() {
        return None;
    }
    read_instant(&t, &found).map(|instant| instant.secs)
}

fn is_leap_year(year: i64) -> bool {
    year % 4 == 0 && (year % 100 != 0 || year % 400 == 0)
}

fn days_in_month(year: i64, month: i64) -> i64 {
    match month {
        2 => {
            if is_leap_year(year) {
                29
            } else {
                28
            }
        }
        4 | 6 | 9 | 11 => 30,
        _ => 31,
    }
}

fn leap_years_through(year: i64) -> i64 {
    year.div_euclid(4) - year.div_euclid(100) + year.div_euclid(400)
}

/// The seconds from 1970-01-01 00:00:00, counted by the calendar.
fn civil_seconds(year: i64, month: i64, day: i64, hour: i64, minute: i64, second: i64) -> i64 {
    let days_before_year = 365 * (year - 1970) + leap_years_through(year - 1) - 477;
    let days_before_month: i64 = (1..month).map(|before| days_in_month(year, before)).sum();
    86_400 * (days_before_year + days_before_month + day - 1) + 3_600 * hour + 60 * minute + second
}

fn stamp(year: i64, month: i64, day: i64, hour: i64, minute: i64, second: i64) -> String {
    format!("{:04}-{:02}-{:02}T{:02}:{:02}:{:02}Z", year, month, day, hour, minute, second)
}

const YEARS: [i64; 24] = [
    0, 1, 4, 99, 100, 400, 1000, 1582, 1600, 1700, 1800, 1900, 1968, 1969, 1970, 1971, 1972, 2000,
    2020, 2021, 2038, 2100, 2400, 9999,
];

#[test]
fn leap_years_are_counted_from_the_year_one() {
    assert_eq!(leap_years_through(1969), 477);
    assert_eq!(leap_years_through(0), 0);
    assert_eq!(leap_years_through(4), 1);
    assert_eq!(leap_years_through(-1), -1);
}

#[test]
fn every_day_of_these_years_has_its_seconds() {
    for year in YEARS {
        for month in 1..=12 {
            for day in 1..=days_in_month(year, month) {
                let hour = (day * 5 + month) % 24;
                let minute = (day * 7 + year) % 60;
                let second = (day * 11 + month * 13) % 60;
                assert_eq!(
                    seconds_of(&stamp(year, month, day, hour, minute, second)),
                    Some(civil_seconds(year, month, day, hour, minute, second)),
                    "{}-{}-{}",
                    year,
                    month,
                    day
                );
            }
        }
    }
}

#[test]
fn every_year_has_its_seconds() {
    for year in 0..=9999 {
        let last_of_february = days_in_month(year, 2);
        for (month, day, hour, minute, second) in [
            (1, 1, 0, 0, 0),
            (2, last_of_february, 23, 59, 59),
            (3, 1, 0, 0, 0),
            (12, 31, 23, 59, 59),
        ] {
            assert_eq!(
                seconds_of(&stamp(year, month, day, hour, minute, second)),
                Some(civil_seconds(year, month, day, hour, minute, second)),
                "{}-{}-{}",
                year,
                month,
                day
            );
        }
    }
}

#[test]
fn days_are_those_of_the_calendar() {
    for year in YEARS {
        for month in 0..=13 {
            for day in 0..=32 {
                let exists =
                    1 <= month && month <= 12 && 1 <= day && day <= days_in_month(year, month);
                assert_eq!(
                    seconds_of(&stamp(year, month, day, 12, 0, 0)).is_some(),
                    exists,
                    "{}-{}-{}",
                    year,
                    month,
                    day
                );
            }
        }
    }
}

#[test]
fn every_time_of_the_day_has_its_seconds() {
    for hour in 0..=24 {
        for minute in 0..=60 {
            for second in [0, 1, 30, 59, 61] {
                let on_the_clock = hour < 24 && minute < 60 && second < 60;
                let expected = if on_the_clock {
                    Some(civil_seconds(2020, 8, 27, hour, minute, second))
                } else {
                    None
                };
                assert_eq!(seconds_of(&stamp(2020, 8, 27, hour, minute, second)), expected);
            }
        }
    }
}
