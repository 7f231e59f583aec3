use chrono_tz::America::{Chicago, New_York};
use rizzy::instant::Instant;
use rizzy::rizzy::Rizzy;

#[test]
fn should_replace_dates_1() {
    let rizzy = Rizzy::new(New_York, None, false);
    assert_eq!(
        rizzy.handle_line("2020-08-27T12:45:37Z foobar"),
        "2020-08-27T08:45:37-04:00 foobar"
    );
}

#[test]
fn should_replace_dates_2() {
    let rizzy = Rizzy::new(New_York, None, false);
    assert_eq!(
        rizzy.handle_line("2020-08-27 13:30:00+00:00 foobar"),
        "2020-08-27T09:30:00-04:00 foobar"
    );
}

#[test]
fn should_replace_dates_3() {
    let rizzy = Rizzy::new(New_York, None, false);
    assert_eq!(
        rizzy.handle_line("2020-08-27 12:45:43.728154+00:00 foobar"),
        "2020-08-27T08:45:43.728154-04:00 foobar"
    );
}

#[test]
fn should_replace_dates_4() {
    let rizzy = Rizzy::new(New_York, None, false);
    assert_eq!(
        rizzy.handle_line("2020-09-11 14:48:34+0000 foobar"),
        "2020-09-11T10:48:34-04:00 foobar"
    );
}

#[test]
fn should_replace_dates_5() {
    let rizzy = Rizzy::new(Chicago, None, false);
    assert_eq!(
        rizzy.handle_line("2021-03-25 17:39:28.167391+00:00 foobar"),
        "2021-03-25T12:39:28.167391-05:00 foobar"
    );
}

#[test]
fn should_replace_dates_6() {
    let rizzy = Rizzy::new(Chicago, None, false);
    assert_eq!(
        rizzy.handle_line("2020-08-27 12:45:43.728154+00:00 foobar"),
        "2020-08-27T07:45:43.728154-05:00 foobar"
    );
}

#[test]
fn should_replace_multiple_matches() {
    let rizzy = Rizzy::new(Chicago, None, false);
    assert_eq!(
        rizzy.handle_line("2020-08-27 12:45:43.728154+00:00 foo 2020-08-27T12:45:37Z"),
        "2020-08-27T07:45:43.728154-05:00 foo 2020-08-27T07:45:37-05:00"
    );
}

#[test]
fn should_apply_format() {
    let rizzy = Rizzy::new(New_York, Option::from("%H:%M:%S".to_string()), false);
    assert_eq!(rizzy.handle_line("2020-09-11 14:48:34+0000 foobar"), "10:48:34 foobar");
}

#[test]
fn should_convert_epoch_nanos() {
    let rizzy = Rizzy::new(New_York, None, true);
    assert_eq!(
        rizzy.handle_line("1607965978437104000 foobar"),
        "2020-12-14T12:12:58.437104-05:00 foobar"
    );
}

#[test]
fn timestamp_alone_is_converted() {
    let rizzy = Rizzy::new(New_York, None, false);
    assert_eq!(rizzy.handle_line("2020-08-27T12:45:37Z"), "2020-08-27T08:45:37-04:00");
    assert_eq!(
        rizzy.replace_one_time("2020-08-27T12:45:37Z").unwrap(),
        "2020-08-27T08:45:37-04:00"
    );
}

#[test]
fn every_zone_marker_names_the_same_moment() {
    let rizzy = Rizzy::new(New_York, None, false);
    for zone in ["Z", "+00:00", "+0000", "-00:00", "-0000"] {
        for separator in ["T", " "] {
            let line = format!("at 2020-08-27{}12:45:37{} done", separator, zone);
            assert_eq!(rizzy.handle_line(&line), "at 2020-08-27T08:45:37-04:00 done");
        }
    }
    for local in ["2020-08-27T18:15:37+05:30", "2020-08-27T18:15:37+0530"] {
        assert_eq!(rizzy.handle_line(local), "2020-08-27T08:45:37-04:00");
    }
    for local in ["2020-08-27T07:15:37-05:30", "2020-08-27T07:15:37-0530"] {
        assert_eq!(rizzy.handle_line(local), "2020-08-27T08:45:37-04:00");
    }
}

#[test]
fn every_fraction_is_kept_to_the_nanosecond() {
    let rizzy = Rizzy::new(New_York, None, false);
    assert_eq!(
        rizzy.handle_line("2020-08-27T12:45:37.728Z"),
        "2020-08-27T08:45:37.728-04:00"
    );
    assert_eq!(
        rizzy.handle_line("2020-08-27T12:45:37.728154Z"),
        "2020-08-27T08:45:37.728154-04:00"
    );
    assert_eq!(
        rizzy.handle_line("2020-08-27T12:45:37.728154321Z"),
        "2020-08-27T08:45:37.728154321-04:00"
    );
    assert_eq!(
        rizzy.handle_line("2020-08-27T12:45:37.000000001+00:00"),
        "2020-08-27T08:45:37.000000001-04:00"
    );
    assert_eq!(
        rizzy.handle_line("2020-08-27T12:45:37.999999999-0000"),
        "2020-08-27T08:45:37.999999999-04:00"
    );
}

#[test]
fn fraction_is_shown_as_short_as_it_can_be() {
    let rizzy = Rizzy::new(New_York, None, false);
    assert_eq!(
        rizzy.handle_line("2020-08-27T12:45:37.120000000Z"),
        "2020-08-27T08:45:37.120-04:00"
    );
    assert_eq!(rizzy.handle_line("2020-08-27T12:45:37.000Z"), "2020-08-27T08:45:37-04:00");
}

#[test]
fn same_line_gives_the_same_text_every_time() {
    let line = "2020-08-27 12:45:43.728154+00:00 foo 1607965978437104000";
    let one = Rizzy::new(Chicago, Some("%Y %j %T%.6f".to_string()), true);
    let other = Rizzy::new(Chicago, Some("%Y %j %T%.6f".to_string()), true);
    let first = one.handle_line(line);
    assert_eq!(first, "2020 240 07:45:43.728154 foo 2020 349 11:12:58.437104");
    assert_eq!(one.handle_line(line), first);
    assert_eq!(other.handle_line(line), first);
}

#[test]
fn second_pass_in_another_timezone_changes_the_text_again() {
    let chicago = Rizzy::new(Chicago, None, false);
    let new_york = Rizzy::new(New_York, None, false);
    let once = chicago.handle_line("2020-08-27T12:45:37Z");
    assert_eq!(once, "2020-08-27T07:45:37-05:00");
    assert_eq!(new_york.handle_line(&once), "2020-08-27T08:45:37-04:00");
    assert_eq!(chicago.handle_line(&once), once);
}

#[test]
fn timestamps_keep_their_order_and_their_surroundings() {
    let rizzy = Rizzy::new(chrono_tz::UTC, None, false);
    assert_eq!(
        rizzy.handle_line("  [2021-01-01T00:00:00+01:00] a→b (2020-06-01 12:00:00.5-0200);2019-03-04T05:06:07Z\t"),
        "  [2020-12-31T23:00:00+00:00] a→b (2020-06-01 12:00:00.5-0200);2019-03-04T05:06:07+00:00\t"
    );
    assert_eq!(
        rizzy.handle_line("2021-01-01T00:00:00+01:00,2020-06-01 12:00:00.500-0200,2019-03-04T05:06:07Z"),
        "2020-12-31T23:00:00+00:00,2020-06-01T14:00:00.500+00:00,2019-03-04T05:06:07+00:00"
    );
}

#[test]
fn timestamps_that_touch_are_each_converted() {
    let rizzy = Rizzy::new(New_York, None, false);
    assert_eq!(
        rizzy.handle_line("2020-08-27T12:45:37Z2020-08-27T12:45:38Z"),
        "2020-08-27T08:45:37-04:002020-08-27T08:45:38-04:00"
    );
}

#[test]
fn line_without_timestamp_stays() {
    let rizzy = Rizzy::new(New_York, None, true);
    for line in ["", " ", "foobar", "12:45:37", "2020-08-27", "héllo wörld ☃", "160796597843710400"] {
        assert_eq!(rizzy.handle_line(line), line);
    }
}

#[test]
fn shapes_that_are_nearly_timestamps_stay() {
    let rizzy = Rizzy::new(New_York, None, false);
    for line in [
        "2020-08-27 12:45:43.7281+00:00 foobar",
        "2020-08-27 12:45:43.72815+00:00 foobar",
        "2020-08-27 12:45:43.7+00:00 foobar",
        "2020-08-27 12:45:43.7281543+00:00 foobar",
        "2020-08-27 12:45:43.7281543210+00:00 foobar",
        "2020-08-27 12:45:43+00 foobar",
        "2020-08-27 12:45:43 foobar",
        "2020-08-27 12:45:43 +00:00 foobar",
        "2020-08-27  12:45:43+00:00 foobar",
        "２０２０-０８-２７T１２:４５:３７Z foobar",
    ] {
        assert_eq!(rizzy.handle_line(line), line);
    }
}

#[test]
fn timestamp_that_names_no_moment_stays() {
    let rizzy = Rizzy::new(New_York, None, false);
    for line in [
        "2020-08-32T12:45:37Z foobar",
        "2021-02-29T12:45:37Z foobar",
        "2020-13-27T12:45:37Z foobar",
        "2020-08-27T24:45:37Z foobar",
        "2020-08-27T12:60:37Z foobar",
        "2020-08-27T12:45:61Z foobar",
        "2020-08-27T12:45:37+24:00 foobar",
        "2020-08-27T12:45:37+00:60 foobar",
    ] {
        assert_eq!(rizzy.handle_line(line), line);
    }
    // and the timestamps beside it are converted all the same
    assert_eq!(
        rizzy.handle_line("2020-08-27T12:45:37Z 2020-08-32T12:45:37Z 2020-08-27T12:45:38Z"),
        "2020-08-27T08:45:37-04:00 2020-08-32T12:45:37Z 2020-08-27T08:45:38-04:00"
    );
}

#[test]
fn timestamp_that_names_no_moment_is_malformed() {
    let rizzy = Rizzy::new(New_York, None, false);
    for text in [
        "2020-08-32T12:45:37Z",
        "2021-02-29T12:45:37Z",
        "2020-08-27T24:45:37Z",
        "2020-08-27T12:45:37+24:00",
        "2020-08-27T12:45:37Z foobar",
        " 2020-08-27T12:45:37Z",
        "2020-08-27 12:45:43.7281+00:00",
        "yesterday",
        "",
    ] {
        match rizzy.replace_one_time(text) {
            Err(rizzy::RizzyError::MalformedTimestamp(given)) => assert_eq!(given, text),
            other => panic!("unexpected for {}: {:?}", text, other),
        }
    }
}

#[test]
fn leap_second_is_shown_as_one() {
    let rizzy = Rizzy::new(chrono_tz::UTC, None, false);
    assert_eq!(rizzy.handle_line("2016-12-31T23:59:60Z"), "2016-12-31T23:59:60+00:00");
    assert_eq!(
        rizzy.handle_line("2016-12-31 18:59:60.250-05:00"),
        "2016-12-31T23:59:60.250+00:00"
    );
}

#[test]
fn timezone_rules_of_the_day_apply() {
    let new_york = Rizzy::new(New_York, None, false);
    assert_eq!(new_york.handle_line("2020-01-15T12:00:00Z"), "2020-01-15T07:00:00-05:00");
    assert_eq!(new_york.handle_line("2020-07-15T12:00:00Z"), "2020-07-15T08:00:00-04:00");
    // the hour in which the clocks of New York went forward
    assert_eq!(new_york.handle_line("2020-03-08T06:59:59Z"), "2020-03-08T01:59:59-05:00");
    assert_eq!(new_york.handle_line("2020-03-08T07:00:00Z"), "2020-03-08T03:00:00-04:00");
    let kolkata = Rizzy::new(chrono_tz::Asia::Kolkata, None, false);
    assert_eq!(kolkata.handle_line("2020-08-27T20:00:00Z"), "2020-08-28T01:30:00+05:30");
}

#[test]
fn format_lays_the_moment_out() {
    let rizzy = Rizzy::new(New_York, Some("%d/%m/%Y %I:%M %p %Z".to_string()), false);
    assert_eq!(
        rizzy.handle_line("<2020-09-11 14:48:34+0000>"),
        "<11/09/2020 10:48 AM EDT>"
    );
    let literal = Rizzy::new(New_York, Some("when".to_string()), false);
    assert_eq!(literal.handle_line("2020-09-11 14:48:34+0000 foobar"), "when foobar");
    let empty = Rizzy::new(New_York, Some(String::new()), false);
    assert_eq!(empty.handle_line("2020-09-11 14:48:34+0000 foobar"), " foobar");
}

#[test]
fn format_that_cannot_be_used_is_an_invalid_argument() {
    let rizzy = Rizzy::new(New_York, Some("%H:%Q".to_string()), true);
    match rizzy.try_format() {
        Err(rizzy::RizzyError::InvalidArg(message)) => {
            assert_eq!(message, "Cannot render a timestamp with the format %H:%Q")
        }
        other => panic!("unexpected: {:?}", other),
    }
    match rizzy.replace_one_time("2020-09-11 14:48:34+0000") {
        Err(rizzy::RizzyError::InvalidArg(message)) => {
            assert_eq!(message, "Cannot render a timestamp with the format %H:%Q")
        }
        other => panic!("unexpected: {:?}", other),
    }
    // lines pass unchanged
    let line = "2020-09-11 14:48:34+0000 foobar 1607965978437104000";
    assert_eq!(rizzy.handle_line(line), line);
}

#[test]
fn format_that_can_be_used_passes_the_check() {
    assert!(Rizzy::new(New_York, Some("%H:%M:%S".to_string()), false).try_format().is_ok());
    assert!(Rizzy::new(New_York, Some(String::new()), false).try_format().is_ok());
    assert!(Rizzy::new(New_York, None, false).try_format().is_ok());
}

#[test]
fn instants_are_shown_in_the_timezone() {
    let rizzy = Rizzy::new(New_York, None, false);
    let show = |secs: i64, nanos: u32| rizzy.format_time(&Instant { secs, nanos });
    assert_eq!(show(0, 0).unwrap(), "1969-12-31T19:00:00-05:00");
    assert_eq!(show(1598532337, 0).unwrap(), "2020-08-27T08:45:37-04:00");
    assert_eq!(show(1598532337, 500).unwrap(), "2020-08-27T08:45:37.000000500-04:00");
    assert_eq!(show(-1, 999_999_999).unwrap(), "1969-12-31T18:59:59.999999999-05:00");
    // chrono has no date so far off, and no second of two thousand million nanoseconds
    assert_eq!(show(i64::MAX, 0), None);
    assert_eq!(show(i64::MIN, 0), None);
    assert_eq!(show(0, 2_000_000_000), None);
    // nor a leap second in the middle of a minute
    assert_eq!(show(0, 1_000_000_000), None);
    assert_eq!(show(59, 1_000_000_000).unwrap(), "1969-12-31T19:00:60-05:00");
}

#[test]
fn epoch_nanos_are_converted_only_when_asked() {
    let line = "1607965978437104000 foobar";
    assert_eq!(Rizzy::new(New_York, None, false).handle_line(line), line);
    assert_eq!(
        Rizzy::new(New_York, None, true).handle_line(line),
        "2020-12-14T12:12:58.437104-05:00 foobar"
    );
}

#[test]
fn epoch_nanos_are_seconds_and_a_remainder() {
    let rizzy = Rizzy::new(chrono_tz::UTC, None, true);
    assert_eq!(rizzy.handle_line("0000000000000000000"), "1970-01-01T00:00:00+00:00");
    assert_eq!(rizzy.handle_line("0000000000999999999"), "1970-01-01T00:00:00.999999999+00:00");
    assert_eq!(rizzy.handle_line("0000000001000000000"), "1970-01-01T00:00:01+00:00");
    assert_eq!(rizzy.handle_line("1598532337000000001"), "2020-08-27T12:45:37.000000001+00:00");
    // beyond what a signed number of 64 bits holds
    assert_eq!(rizzy.handle_line("9999999999999999999"), "2286-11-20T17:46:39.999999999+00:00");
}

#[test]
fn digits_that_are_not_nineteen_stay() {
    let rizzy = Rizzy::new(New_York, None, true);
    for line in [
        "1",
        "160796597843710400",
        "16079659784371040001",
        "1607965978437104000160796597843710400",
        "16079659784371040001607965978437104000",
        "id 160796597843710400 and 16079659784371040001 and 42",
    ] {
        assert_eq!(rizzy.handle_line(line), line);
    }
}

#[test]
fn only_ascii_digits_make_a_run() {
    let rizzy = Rizzy::new(New_York, None, true);
    assert_eq!(
        rizzy.handle_line("1607965978437104000１"),
        "2020-12-14T12:12:58.437104-05:00１"
    );
    assert_eq!(rizzy.handle_line("160796597843710400０"), "160796597843710400０");
}

#[test]
fn nineteen_digits_are_converted_wherever_they_stand() {
    let rizzy = Rizzy::new(New_York, None, true);
    assert_eq!(
        rizzy.handle_line("t=1607965978437104000,1607965978437104000ns 12 1607965978437104000"),
        "t=2020-12-14T12:12:58.437104-05:00,2020-12-14T12:12:58.437104-05:00ns 12 2020-12-14T12:12:58.437104-05:00"
    );
}

#[test]
fn epoch_nanos_are_looked_for_in_the_rewritten_line() {
    // the first rewrite writes nineteen digits, which the second takes for a timestamp
    let rizzy = Rizzy::new(chrono_tz::UTC, Some("%s%f".to_string()), true);
    assert_eq!(rizzy.handle_line("2020-08-27T12:45:37.000000001Z"), "1598532337000000001");
    let shown = Rizzy::new(chrono_tz::UTC, Some("%s%f".to_string()), false);
    assert_eq!(shown.handle_line("2020-08-27T12:45:37.000000001Z"), "1598532337000000001");
    let mixed = Rizzy::new(chrono_tz::UTC, None, true);
    assert_eq!(
        mixed.handle_line("2020-08-27T12:45:37Z 1598532337000000000"),
        "2020-08-27T12:45:37+00:00 2020-08-27T12:45:37+00:00"
    );
}

#[test]
fn passes_work_on_characters() {
    let rizzy = Rizzy::new(chrono_tz::UTC, None, true);
    let line: Vec<char> = "→ 2020-08-27T12:45:37Z ← 1598532337000000000".chars().collect();
    let first: String = rizzy.rewrite_timestamps(&line).into_iter().collect();
    assert_eq!(first, "→ 2020-08-27T12:45:37+00:00 ← 1598532337000000000");
    let second: String = rizzy.rewrite_epochs(&line).into_iter().collect();
    assert_eq!(second, "→ 2020-08-27T12:45:37Z ← 2020-08-27T12:45:37+00:00");
}

#[test]
fn joined_lines_are_rewritten_each_by_itself() {
    let lines = [
        "",
        "foobar",
        "2020-08-27T12:45:37Z",
        "2020-08-27 12:45:43.728154+00:00",
        "at 2020-08-27T12:45:37Z and 2020-08-32T12:45:37Z",
        "1607965978437104000",
        "2020-08-27T12:45:37",
        "2020-08-27",
        "1607965978",
        "12:45:37Z 2020-08-27 12:45:37+0000 160796597843710400099",
    ];
    for rizzy in [
        Rizzy::new(New_York, None, false),
        Rizzy::new(Chicago, None, true),
        Rizzy::new(chrono_tz::UTC, Some("%s%f".to_string()), true),
    ] {
        for a in lines {
            for b in lines {
                for between in [" foo ", "x", " | ", "\t-- ", " and then, "] {
                    let joined = format!("{}{}{}", a, between, b);
                    let expected =
                        format!("{}{}{}", rizzy.handle_line(a), between, rizzy.handle_line(b));
                    assert_eq!(rizzy.handle_line(&joined), expected, "{}", joined);
                }
            }
        }
    }
}

#[test]
fn lines_joined_by_what_a_timestamp_may_hold_can_grow_together() {
    let rizzy = Rizzy::new(New_York, None, true);
    // a `Z` completes the timestamp before it, a digit lengthens a run
    assert_eq!(rizzy.handle_line("2020-08-27T12:45:37"), "2020-08-27T12:45:37");
    assert_eq!(rizzy.handle_line("2020-08-27T12:45:37Z"), "2020-08-27T08:45:37-04:00");
    assert_eq!(rizzy.handle_line("1607965978437104000"), "2020-12-14T12:12:58.437104-05:00");
    assert_eq!(rizzy.handle_line("16079659784371040001"), "16079659784371040001");
}
