use regex::Regex;
use rizzy::scanner::find_timestamps;

/// The shape of a timestamp, written as a pattern.
const PATTERN: &str = r"[0-9]{4}-[0-9]{2}-[0-9]{2}[ T][0-9]{2}:[0-9]{2}:[0-9]{2}(\.([0-9]{9}|[0-9]{6}|[0-9]{3}))?(Z|[+-][0-9]{2}:?[0-9]{2})";

fn spans_of_the_pattern(line: &str) -> Vec<(usize, usize)> {
    let pattern = Regex::new(PATTERN).unwrap();
    pattern.find_iter(line).map(|found| (found.start(), found.end())).collect()
}

fn spans_of_the_scan(line: &str) -> Vec<(usize, usize)> {
    let text: Vec<char> = line.chars().collect();
    find_timestamps(&text).iter().map(|found| (found.start, found.end)).collect()
}

#[test]
fn scan_finds_what_the_pattern_finds() {
    let lines = [
        "",
        "foobar",
        "2020-08-27T12:45:37Z foobar",
        "2020-08-27 13:30:00+00:00 foobar",
        "2020-08-27 12:45:43.728154+00:00 foo 2020-08-27T12:45:37Z",
        "2020-09-11 14:48:34+0000 foobar",
        "x2020-08-27T12:45:37Zy",
        "12020-08-27T12:45:37Z1",
        "2020-08-27T12:45:37Z2020-08-27T12:45:37.123-0100",
        "2020-08-27T12:45:37.1Z 2020-08-27T12:45:37.12Z 2020-08-27T12:45:37.123Z",
        "2020-08-27T12:45:37.1234Z 2020-08-27T12:45:37.12345Z 2020-08-27T12:45:37.123456Z",
        "2020-08-27T12:45:37.1234567Z 2020-08-27T12:45:37.12345678Z 2020-08-27T12:45:37.123456789Z",
        "2020-08-27T12:45:37.1234567890Z",
        "2020-08-27T12:45:37+05 2020-08-27T12:45:37+05: 2020-08-27T12:45:37+05:3 2020-08-27T12:45:37+05:30",
        "2020-08-27T12:45:37+053 2020-08-27T12:45:37+0530 2020-08-27T12:45:37+05300",
        "2020-08-27T12:45:37+05:30:00",
        "2020-08-27T12:45:2020-08-27T12:45:37Z",
        "2020-08-2020-08-27 12:45:37-00:00",
        "2020-08-27 12:45:37.2020-08-27 12:45:37Z",
        "2020-08-27T12:45:37.123.456Z",
        "2020-08-27T12:45:37.123+2020-08-27T12:45:37Z",
        "9999-99-99 99:99:99.999999999+99:99",
        "0000-00-00T00:00:00.000-0000",
        "2020-08-27T12:45:37z 2020-08-27t12:45:37Z",
    ];
    for line in lines {
        assert_eq!(spans_of_the_scan(line), spans_of_the_pattern(line), "{}", line);
    }
}

#[test]
fn scan_finds_what_the_pattern_finds_in_every_cut_of_a_line() {
    let line = "a2020-08-27 12:45:43.728154321+00:00b2020-08-27T12:45:37.123456-0130 2020-08-27T12:45:37.123Z";
    for start in 0..line.len() {
        for end in start..=line.len() {
            let cut = &line[start..end];
            assert_eq!(spans_of_the_scan(cut), spans_of_the_pattern(cut), "{}", cut);
        }
    }
}
