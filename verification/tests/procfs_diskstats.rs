use pseudofs::procfs::diskstats::{duration_ms, DeviceNumbers, Parser, Statistics};
use pseudofs::splitter::split_and_run;
use pseudofs::time::Duration;

/// A sample of /proc/diskstats with two devices
const SAMPLE: &str = "   8       0 sda 1234 56 7890 1500 4321 65 9870 2000 2 3000 3500\n   8       1 sda1 12 0 96 8 0 0 0 0 0 10 8 0 0 0 0\n";

/// Check that device numbers are packed into a single key
#[test]
fn device_number_keys() {
    let sda = DeviceNumbers { major: 8, minor: 0 };
    let sda1 = DeviceNumbers { major: 8, minor: 1 };
    assert_eq!(sda.to_key(), 8 << 32);
    assert_eq!(sda1.to_key(), (8 << 32) + 1);
    let biggest = DeviceNumbers { major: u32::MAX, minor: u32::MAX };
    assert_eq!(biggest.to_key(), u64::MAX);
}

/// Check that millisecond counters are turned into durations
#[test]
fn millisecond_durations() {
    assert_eq!(duration_ms(0), Duration::new(0, 0));
    assert_eq!(duration_ms(1500), Duration::new(1, 500_000_000));
    assert_eq!(duration_ms(42), Duration::new(0, 42_000_000));
}

/// Check that statistics are parsed, and that counter caches are updated
#[test]
fn statistics_parsing() {
    let mut counters = [0u64; 10];
    let stats = split_and_run("1234 56 7890 1500 4321 65 9870 2000 2 3000 3500", |columns| {
        Statistics::new(&mut counters, columns)
    });
    assert_eq!(stats.completed_reads, 1234);
    assert_eq!(stats.merged_reads, 56);
    assert_eq!(stats.sector_reads, 7890);
    assert_eq!(stats.total_read_time, Duration::new(1, 500_000_000));
    assert_eq!(stats.completed_writes, 4321);
    assert_eq!(stats.merged_writes, 65);
    assert_eq!(stats.sector_writes, 9870);
    assert_eq!(stats.total_write_time, Duration::new(2, 0));
    assert_eq!(stats.io_in_progress, 2);
    assert_eq!(stats.wall_clock_io_time, Duration::new(3, 0));
    assert_eq!(stats.weighted_io_time, Duration::new(3, 500_000_000));
    assert_eq!(counters, [1234, 56, 7890, 1500, 4321, 65, 9870, 2000, 3000, 3500]);
}

/// Check that counters are unwrapped against the last values observed
#[test]
fn statistics_counter_update() {
    let mut counters = [1000, 1, 2, 3, 4, 5, 6, 7, 8, 9];
    let stats = split_and_run("1003 1 2 3 4 5 6 7 42 8 9", |columns| {
        Statistics::new(&mut counters, columns)
    });
    assert_eq!(stats.completed_reads, 1003);
    assert_eq!(stats.io_in_progress, 42);
    assert_eq!(counters, [1003, 1, 2, 3, 4, 5, 6, 7, 8, 9]);
}

/// Check that records of a full file are streamed in order
#[test]
fn diskstats_record_stream() {
    let mut parser = Parser::new(SAMPLE);
    assert_eq!(parser.previous_counter_vals.len(), 2);
    let mut stream = parser.parse(SAMPLE);
    {
        let record = stream.next().unwrap();
        assert_eq!(record.device_numbers(), DeviceNumbers { major: 8, minor: 0 });
        assert_eq!(record.device_name(), "sda");
        let stats = record.extract_statistics();
        assert_eq!(stats.completed_reads, 1234);
        assert_eq!(stats.io_in_progress, 2);
    }
    {
        let record = stream.next().unwrap();
        assert_eq!(record.device_numbers(), DeviceNumbers { major: 8, minor: 1 });
        assert_eq!(record.device_name(), "sda1");
        let stats = record.extract_statistics();
        assert_eq!(stats.sector_reads, 96);
        assert_eq!(stats.weighted_io_time, Duration::new(0, 8_000_000));
    }
    assert!(stream.next().is_none());
}

/// Check that the parser remembers the last counters of each device
#[test]
fn diskstats_counter_cache() {
    let mut parser = Parser::new(SAMPLE);
    let key = DeviceNumbers { major: 8, minor: 0 }.to_key();
    assert_eq!(parser.previous_counter_vals[&key],
               [1234, 56, 7890, 1500, 4321, 65, 9870, 2000, 3000, 3500]);
    let later = "   8       0 sda 1300 56 7890 1500 4321 65 9870 2000 0 3000 3500\n";
    let mut stream = parser.parse(later);
    let stats = stream.next().unwrap().extract_statistics();
    assert_eq!(stats.completed_reads, 1300);
    assert!(stream.next().is_none());
    assert_eq!(parser.previous_counter_vals[&key][0], 1300);
}
