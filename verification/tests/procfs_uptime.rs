use pseudofs::parser::PseudoFileParser;
use pseudofs::procfs::uptime::{FieldStream, Parser, SampledData};
use pseudofs::time::Duration;
use pseudofs::uptime::UptimeData;

/// Check that our Duration parser works as expected
#[test]
fn uptime_parse_duration() {
    // Plain seconds
    assert_eq!(FieldStream::parse_duration_secs("42"), Duration::new(42, 0));

    // Trailing decimal point
    assert_eq!(FieldStream::parse_duration_secs("3."), Duration::new(3, 0));

    // Some amounts of fractional seconds, down to nanosecond precision
    assert_eq!(FieldStream::parse_duration_secs("4.2"), Duration::new(4, 200_000_000));
    assert_eq!(FieldStream::parse_duration_secs("5.34"), Duration::new(5, 340_000_000));
    assert_eq!(FieldStream::parse_duration_secs("6.567891234"),
               Duration::new(6, 567_891_234));

    // Sub-nanosecond precision is truncated
    assert_eq!(FieldStream::parse_duration_secs("7.8901234567"),
               Duration::new(7, 890_123_456));
}

/// Check that parsing uptime data works
#[test]
fn parse_data() {
    let mut parser = Parser::new("10.11 12.13");
    let mut stream = parser.parse("13.52  50.34");
    assert_eq!(stream.next(), Some(Duration::new(13, 520_000_000)));
    assert_eq!(stream.next(), Some(Duration::new(50, 340_000_000)));
    assert_eq!(stream.next(), None);
}

/// Check that creating an uptime data store works
#[test]
fn init_container() {
    let initial = "16.191963 19686.615";
    let mut parser = Parser::new(initial);
    let data = SampledData::new(parser.parse(initial));
    assert_eq!(data.wall_clock_uptime.len(), 0);
    assert_eq!(data.cpu_idle_time.len(), 0);
    assert_eq!(data.len(), 0);
}

/// Check that parsing uptime data works
#[test]
fn push_data() {
    let initial = "145.16 16546.1469";
    let mut parser = Parser::new(initial);
    let mut data = SampledData::new(parser.parse(initial));
    data.push(parser.parse("614.461  10645.163"));
    assert_eq!(data.wall_clock_uptime, vec![Duration::new(614, 461_000_000)]);
    assert_eq!(data.cpu_idle_time, vec![Duration::new(10645, 163_000_000)]);
    assert_eq!(data.len(), 1);
}

/// Check that a field stream counts its remaining fields
#[test]
fn field_stream_count() {
    assert_eq!(FieldStream::new("1.5 2.5\n").count(), 2);
    assert_eq!(FieldStream::new("").count(), 0);
    let mut stream = FieldStream::new(" 0.25 ");
    assert_eq!(stream.next(), Some(Duration::new(0, 250_000_000)));
    assert_eq!(stream.next(), None);
}

/// Check that successive samples are recorded in order
#[test]
fn uptime_data_push_sample() {
    let mut data = UptimeData::new();
    assert_eq!(data.wall_clock_uptime.len(), 0);
    data.push_sample("1.5 2.25\n");
    data.push_sample("3 4.000000001\n");
    assert_eq!(data.wall_clock_uptime,
               vec![Duration::new(1, 500_000_000), Duration::new(3, 0)]);
    assert_eq!(data.cpu_idle_time,
               vec![Duration::new(2, 250_000_000), Duration::new(4, 1)]);
}

/// Check that samples of /proc/uptime are told apart from malformed ones
#[test]
fn uptime_sample_check() {
    assert!(Parser::check_sample("1.5 2.5\n"));
    assert!(Parser::check_sample("13.52  50.34 7"));
    assert!(!Parser::check_sample("1.5"));
    assert!(!Parser::check_sample(""));
    assert!(!Parser::check_sample("1.5 abc"));
    assert!(!Parser::check_sample("1.5 2.x5"));
    assert!(!Parser::check_sample("1.5 2.5 99999999999999999999"));
}

/// Check that fields are separated by any Unicode whitespace, as with
/// str::split_whitespace
#[test]
fn uptime_unicode_whitespace() {
    let text = "\u{3000}1.5\u{a0}2.25\u{2028}\u{85} 3\t";
    let expected: Vec<&str> = text.split_whitespace().collect();
    assert_eq!(expected, vec!["1.5", "2.25", "3"]);
    assert_eq!(FieldStream::new(text).count(), 3);
    assert!(Parser::check_sample(text));
    let mut stream = FieldStream::new(text);
    assert_eq!(stream.next(), Some(Duration::new(1, 500_000_000)));
    assert_eq!(stream.next(), Some(Duration::new(2, 250_000_000)));
    assert_eq!(stream.next(), Some(Duration::new(3, 0)));
    assert_eq!(stream.next(), None);
    // Other characters, multi-byte ones included, do not separate fields
    assert!(!Parser::check_sample("1.5\u{e9}2.5"));
    assert!(!Parser::check_sample("1.5\u{2030}2.5"));
}
