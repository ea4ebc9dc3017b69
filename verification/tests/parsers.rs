use pseudofs::parsers::{is_duration_str, parse_duration_secs, split_line, SplitLinesBySpace};
use pseudofs::parsers::meminfo::{MemInfoData, MemInfoRecord};
use pseudofs::parsers::uptime::UptimeData;
use pseudofs::parsers::version::{is_version_str, LinuxVersion};
use pseudofs::time::Duration;

/// Check that our Duration parser works as expected
#[test]
fn mod_parse_duration() {
    // Plain seconds
    assert_eq!(parse_duration_secs("42"), Duration::new(42, 0));

    // Trailing decimal point
    assert_eq!(parse_duration_secs("3."), Duration::new(3, 0));

    // Some amounts of fractional seconds, down to nanosecond precision
    assert_eq!(parse_duration_secs("4.2"), Duration::new(4, 200_000_000));
    assert_eq!(parse_duration_secs("5.34"), Duration::new(5, 340_000_000));
    assert_eq!(parse_duration_secs("6.567891234"), Duration::new(6, 567_891_234));

    // Sub-nanosecond precision is truncated
    assert_eq!(parse_duration_secs("7.8901234567"), Duration::new(7, 890_123_456));
}

/// Check that SplitLinesBySpace works as intended, both when skipping
/// through lines and when exhaustively iterating through their words.
#[test]
fn mod_split_lines_by_space() {
    // Split the empty string
    let mut split_empty = SplitLinesBySpace::new("");
    assert_eq!(split_empty.next_line(), false);

    // Split a string full of space
    let mut split_space = SplitLinesBySpace::new(" ");
    assert_eq!(split_space.next_line(), true);
    assert_eq!(split_space.next_line(), false);
    split_space = SplitLinesBySpace::new(" ");
    assert_eq!(split_space.next_line(), true);
    assert_eq!(split_space.next(), None);
    assert_eq!(split_space.next_line(), false);

    // Split a newline
    let mut split_newline = SplitLinesBySpace::new("\n");
    assert_eq!(split_newline.next_line(), true);
    assert_eq!(split_newline.next_line(), false);
    split_newline = SplitLinesBySpace::new("\n");
    assert_eq!(split_newline.next_line(), true);
    assert_eq!(split_newline.next(), None);
    assert_eq!(split_newline.next_line(), false);

    // Split a single word
    let mut split_word = SplitLinesBySpace::new("42");
    assert_eq!(split_word.next_line(), true);
    assert_eq!(split_word.next_line(), false);
    split_word = SplitLinesBySpace::new("42");
    assert_eq!(split_word.next_line(), true);
    assert_eq!(split_word.next(), Some("42"));
    assert_eq!(split_word.next(), None);
    assert_eq!(split_word.next_line(), false);

    // Split a word preceded by spaces
    let mut split_space_word = SplitLinesBySpace::new("  24");
    assert_eq!(split_space_word.next_line(), true);
    assert_eq!(split_space_word.next_line(), false);
    split_space_word = SplitLinesBySpace::new("  24");
    assert_eq!(split_space_word.next_line(), true);
    assert_eq!(split_space_word.next(), Some("24"));
    assert_eq!(split_space_word.next(), None);
    assert_eq!(split_space_word.next_line(), false);

    // Split a word preceded by a newline
    let mut split_newline_word = SplitLinesBySpace::new("\nabc123");
    assert_eq!(split_newline_word.next_line(), true);
    assert_eq!(split_newline_word.next_line(), true);
    assert_eq!(split_newline_word.next_line(), false);
    split_newline_word = SplitLinesBySpace::new("\nabc123");
    assert_eq!(split_newline_word.next_line(), true);
    assert_eq!(split_newline_word.next(), None);
    assert_eq!(split_newline_word.next_line(), true);
    assert_eq!(split_newline_word.next(), Some("abc123"));
    assert_eq!(split_newline_word.next(), None);
    assert_eq!(split_newline_word.next_line(), false);

    // Split a word followed by spaces
    let mut split_word_space = SplitLinesBySpace::new("viwb ");
    assert_eq!(split_word_space.next_line(), true);
    assert_eq!(split_word_space.next_line(), false);
    split_word_space = SplitLinesBySpace::new("viwb ");
    assert_eq!(split_word_space.next_line(), true);
    assert_eq!(split_word_space.next(), Some("viwb"));
    assert_eq!(split_word_space.next(), None);
    assert_eq!(split_word_space.next_line(), false);

    // Split a word followed by a newline
    let mut split_word_newline = SplitLinesBySpace::new("g1s13\n");
    assert_eq!(split_word_newline.next_line(), true);
    assert_eq!(split_word_newline.next_line(), false);
    split_word_newline = SplitLinesBySpace::new("g1s13\n");
    assert_eq!(split_word_newline.next_line(), true);
    assert_eq!(split_word_newline.next(), Some("g1s13"));
    assert_eq!(split_word_newline.next(), None);
    assert_eq!(split_word_newline.next_line(), false);

    // Split three words with spaces and newlines
    let mut split_everything = SplitLinesBySpace::new("  s( e \n o,p");
    assert_eq!(split_everything.next_line(), true);
    assert_eq!(split_everything.next_line(), true);
    assert_eq!(split_everything.next_line(), false);
    split_everything = SplitLinesBySpace::new("  s( e \n o,p");
    assert_eq!(split_everything.next_line(), true);
    assert_eq!(split_everything.next(), Some("s("));
    assert_eq!(split_everything.next(), Some("e"));
    assert_eq!(split_everything.next(), None);
    assert_eq!(split_everything.next_line(), true);
    assert_eq!(split_everything.next(), Some("o,p"));
    assert_eq!(split_everything.next(), None);
    assert_eq!(split_everything.next_line(), false);
}

/// Counting words consumes the line
#[test]
fn mod_word_count() {
    let mut splitter = split_line("a bb  ccc\nd");
    assert_eq!(splitter.word_count(), 3);
    assert_eq!(splitter.next_line(), true);
    assert_eq!(splitter.next(), Some("d"));
}

/// Test the linux kernel version string parser
#[test]
fn parse_version() {
    // No bugfix version and no flavour
    assert_eq!(
        LinuxVersion::parse("Linux version 4.2 (gralouf@yolo) #1 Sat May 14 01:51:54 UTC 2048"),
        LinuxVersion {
            major: 4,
            minor: 2,
            bugfix: 0,
            distro_flavour: None,
            build_info: String::from("(gralouf@yolo) #1 Sat May 14 01:51:54 UTC 2048"),
        }
    );

    // A bugfix version, but no flavour
    assert_eq!(
        LinuxVersion::parse("Linux version 4.2.7 (gralouf@yolo) #1 Sat May 14 01:51:54 UTC 2048"),
        LinuxVersion {
            major: 4,
            minor: 2,
            bugfix: 7,
            distro_flavour: None,
            build_info: String::from("(gralouf@yolo) #1 Sat May 14 01:51:54 UTC 2048"),
        }
    );

    // A flavour, but no bugfix version
    assert_eq!(
        LinuxVersion::parse("Linux version 4.2-yeah (gralouf@yolo) #1 Sat May 14 01:51:54 UTC 2048"),
        LinuxVersion {
            major: 4,
            minor: 2,
            bugfix: 0,
            distro_flavour: Some(String::from("yeah")),
            build_info: String::from("(gralouf@yolo) #1 Sat May 14 01:51:54 UTC 2048"),
        }
    );

    // Both a flavour and a bugfix version
    assert_eq!(
        LinuxVersion::parse("Linux version 4.2.9-wooo (gralouf@yolo) #1 Sat May 14 01:51:54 UTC 2048"),
        LinuxVersion {
            major: 4,
            minor: 2,
            bugfix: 9,
            distro_flavour: Some(String::from("wooo")),
            build_info: String::from("(gralouf@yolo) #1 Sat May 14 01:51:54 UTC 2048"),
        }
    );
}

/// Multi-digit version numbers, and a build information which holds dashes
#[test]
fn parse_version_long_numbers() {
    let version = LinuxVersion::parse("Linux version 10.255.13-rc1-x86_64 builder-1 (gcc)");
    assert_eq!(version.major, 10);
    assert_eq!(version.minor, 255);
    assert_eq!(version.bugfix, 13);
    assert_eq!(version.distro_flavour, Some(String::from("rc1-x86_64")));
    assert_eq!(version.build_info, String::from("builder-1 (gcc)"));
}

/// Check that kernel version compatibility checks work
#[test]
fn check_version_compatibility() {
    let version = LinuxVersion {
        major: 4,
        minor: 2,
        bugfix: 5,
        distro_flavour: None,
        build_info: String::new(),
    };

    // Check "greater than or equal" version constraint
    assert!(!version.greater_eq(4, 2, 6));
    assert!(version.greater_eq(4, 2, 5));
    assert!(version.greater_eq(4, 2, 4));
    assert!(!version.greater_eq(4, 3, 5));
    assert!(version.greater_eq(4, 1, 6));
    assert!(!version.greater_eq(5, 2, 5));
    assert!(version.greater_eq(3, 3, 6));

    // Check "smaller than" version constraint
    assert!(version.smaller(4, 2, 6));
    assert!(!version.smaller(4, 2, 5));
    assert!(!version.smaller(4, 2, 4));
    assert!(version.smaller(4, 3, 5));
    assert!(!version.smaller(4, 1, 6));
    assert!(version.smaller(5, 2, 5));
    assert!(!version.smaller(3, 3, 6));
}

/// Check that meminfo record initialization works well
#[test]
fn init_record() {
    // Data volume record
    let data_volume_record = MemInfoRecord::new(&mut split_line("42 kB"));
    assert_eq!(data_volume_record, MemInfoRecord::DataVolume(Vec::new()));
    assert_eq!(data_volume_record.len(), 0);

    // Counter record
    let counter_record = MemInfoRecord::new(&mut split_line("713705"));
    assert_eq!(counter_record, MemInfoRecord::Counter(Vec::new()));
    assert_eq!(counter_record.len(), 0);

    // Unsupported record
    let unsupported_record = MemInfoRecord::new(&mut split_line("73 MiB"));
    assert_eq!(unsupported_record, MemInfoRecord::Unsupported(0));
    assert_eq!(unsupported_record.len(), 0);
}

/// A first sample of /proc/meminfo gives one record per line, with its key
#[test]
fn init_meminfo_data() {
    let data = MemInfoData::new("MemTotal: 16 kB\nHugePages_Free:  3\nOdd: x");
    assert_eq!(data.keys, vec![String::from("MemTotal"),
                               String::from("HugePages_Free"),
                               String::from("Odd")]);
    assert_eq!(data.records, vec![MemInfoRecord::DataVolume(Vec::new()),
                                  MemInfoRecord::Counter(Vec::new()),
                                  MemInfoRecord::Unsupported(0)]);
    assert_eq!(data.len(), 0);
}

/// Samples of /proc/uptime are recorded in order
#[test]
fn uptime_data_samples() {
    let mut data = UptimeData::new();
    assert_eq!(data.wall_clock_uptime.len(), 0);
    data.push_sample("13.52  50.34\n");
    data.push_sample("14.5 52");
    assert_eq!(data.wall_clock_uptime, vec![Duration::new(13, 520_000_000),
                                            Duration::new(14, 500_000_000)]);
    assert_eq!(data.cpu_idle_time, vec![Duration::new(50, 340_000_000),
                                        Duration::new(52, 0)]);
}

/// Check that /proc/version texts are told apart from malformed ones
#[test]
fn version_text_check() {
    assert!(is_version_str("Linux version 4.2 (gralouf@yolo) #1 Sat May 14 01:51:54 UTC 2048"));
    assert!(is_version_str("Linux version 4.2.9-wooo (gralouf@yolo) #1"));
    assert!(!is_version_str("Linux version 4 (gralouf@yolo)"));
    assert!(!is_version_str("Linux version 04.2 (gralouf@yolo)"));
    assert!(!is_version_str("Linux version 4.256 (gralouf@yolo)"));
    assert!(!is_version_str("Linux version 4.2"));
    assert!(!is_version_str("Linux version 4.2 a\nb"));
    assert!(!is_version_str("FreeBSD version 4.2 (gralouf@yolo)"));
}

/// Check that first samples of /proc/meminfo are told apart from malformed
/// ones by the line-by-line parser
#[test]
fn meminfo_data_setup_check() {
    assert!(MemInfoData::check_setup("MemTotal: 42 kB\nHugePages: 3"));
    assert!(!MemInfoData::check_setup("MemTotal: 42 kB\nMemTotal: 3"));
    assert!(!MemInfoData::check_setup("MemTotal 42 kB"));
    assert!(!MemInfoData::check_setup("MemTotal:"));
}

/// Check that fractional numbers of seconds are told apart from other texts
#[test]
fn duration_text_check() {
    assert!(is_duration_str("42"));
    assert!(is_duration_str("3."));
    assert!(is_duration_str("7.8901234567"));
    assert!(is_duration_str("+5.25"));
    assert!(!is_duration_str(""));
    assert!(!is_duration_str(".5"));
    assert!(!is_duration_str("4.2x"));
    assert!(!is_duration_str("18446744073709551616"));
}
