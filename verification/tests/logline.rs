use forward_proxy::logline::{
    format_log_line, log_line, push_padded, ten_thousandths, LocalTime,
};
use forward_proxy::request::Request;

fn request() -> Request {
    Request {
        verb: "GET".to_string(),
        scheme: "http".to_string(),
        hostname: "example.com".to_string(),
        path: "foo/bar".to_string(),
        headers: vec![],
    }
}

fn padded(value: i64, width: usize) -> String {
    let mut out = String::new();
    push_padded(&mut out, value, width);
    out
}

#[test]
fn log_line_has_the_documented_form() {
    let t = LocalTime {
        years_since_1900: 115,
        months_since_january: 2,
        day_of_month: 7,
        hour: 9,
        minute: 5,
        second: 3,
        nanosecond: 123456789,
    };
    assert_eq!(
        format_log_line(&t, &request()),
        "[2015-03-07 09:05:03.1234] GET example.com \"/foo/bar\""
    );
}

#[test]
fn fraction_is_the_ten_thousandths_of_the_second_in_four_digits() {
    let mut t = LocalTime {
        years_since_1900: 100,
        months_since_january: 0,
        day_of_month: 1,
        hour: 0,
        minute: 0,
        second: 0,
        nanosecond: 0,
    };
    let expect = |t: &LocalTime, fraction: &str| {
        assert_eq!(
            format_log_line(t, &request()),
            format!("[2000-01-01 00:00:00.{}] GET example.com \"/foo/bar\"", fraction)
        );
    };
    expect(&t, "0000");
    t.nanosecond = 99_999;
    expect(&t, "0000");
    t.nanosecond = 100_000;
    expect(&t, "0001");
    t.nanosecond = 5_000_000;
    expect(&t, "0050");
    t.nanosecond = 999_999_999;
    expect(&t, "9999");
    assert_eq!(ten_thousandths(123_456_789), 1234);
    assert_eq!(ten_thousandths(0), 0);
    assert_eq!(ten_thousandths(-1), -1);
    assert_eq!(ten_thousandths(-100_000), -1);
    assert_eq!(ten_thousandths(-100_001), -2);
    assert_eq!(ten_thousandths(i32::MIN), (i32::MIN as i64).div_euclid(100_000));
}

#[test]
fn year_is_filled_to_four_digits() {
    let t = LocalTime {
        years_since_1900: -901,
        months_since_january: 11,
        day_of_month: 31,
        hour: 23,
        minute: 59,
        second: 60,
        nanosecond: 0,
    };
    assert_eq!(
        format_log_line(&t, &request()),
        "[0999-12-31 23:59:60.0000] GET example.com \"/foo/bar\""
    );
}

#[test]
fn padded_numbers_are_written_as_std_writes_them() {
    let values = [0, 1, 9, 10, 99, 100, 1234, 99999, -1, -9, -10, -123, 2147483647, -2147483648];
    for value in values {
        assert_eq!(padded(value, 0), format!("{}", value));
        assert_eq!(padded(value, 1), format!("{:01}", value));
        assert_eq!(padded(value, 2), format!("{:02}", value));
        assert_eq!(padded(value, 4), format!("{:04}", value));
    }
    assert_eq!(padded(i64::MAX, 0), "9223372036854775807");
    assert_eq!(padded(i64::MIN, 0), "-9223372036854775808");
    assert_eq!(padded(-5, 4), "-005");
    assert_eq!(padded(7, 2), "07");
}

#[test]
fn push_padded_appends() {
    let mut out = "x=".to_string();
    push_padded(&mut out, 42, 3);
    assert_eq!(out, "x=042");
}

#[test]
fn log_line_of_the_clock_names_the_request() {
    let line = log_line(&request());
    assert!(line.starts_with('['));
    assert!(line.ends_with("] GET example.com \"/foo/bar\""));
    let stamp = &line[1..line.len() - "] GET example.com \"/foo/bar\"".len()];
    let halves: Vec<&str> = stamp.split(' ').collect();
    assert_eq!(halves.len(), 2);
    assert_eq!(halves[0].split('-').count(), 3);
    let clock: Vec<&str> = halves[1].split(':').collect();
    assert_eq!(clock.len(), 3);
    let seconds: Vec<&str> = clock[2].split('.').collect();
    assert_eq!(seconds.len(), 2);
    assert_eq!(seconds[0].len(), 2);
    assert_eq!(seconds[1].len(), 4);
    assert!(halves[0].starts_with("20"));
    assert_eq!(stamp.len(), 24);
}
