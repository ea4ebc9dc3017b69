use chrono::{TimeZone, Utc};
use pseudofs::parser::PseudoFileParser;
use pseudofs::parsers::split_line;
use pseudofs::parsers::stat::StatDataStore;
use pseudofs::procfs::stat::{cpu, interrupts, paging};
use pseudofs::procfs::stat::interrupt::{InterruptCounts, InterruptStatData};
use pseudofs::procfs::stat::{Data, Parser, Record, RecordKind, RecordStream};
use pseudofs::splitter::split_and_run;
use pseudofs::time::Duration;

/// Number of clock ticks in one second used by these tests
const TICKS_PER_SEC: u64 = 100;

/// Duration of a number of clock ticks
fn ticks(n: u64) -> Duration {
    Duration::new(n / TICKS_PER_SEC, ((n % TICKS_PER_SEC) * (1_000_000_000 / TICKS_PER_SEC)) as u32)
}

/// Build the CPU record fields associated with a certain line of text, and
/// run code taking that as a parameter
fn with_cpu_fields<F, R>(line_of_text: &str, functor: F) -> R
    where F: FnOnce(cpu::RecordFields) -> R
{
    split_and_run(line_of_text, |columns| {
        let fields = cpu::RecordFields::new(columns, TICKS_PER_SEC);
        functor(fields)
    })
}

/// Build the interrupt record fields associated with a line of text, and run
/// code taking that as a parameter
fn with_interrupt_fields<F, R>(line_of_text: &str, functor: F) -> R
    where F: FnOnce(interrupts::RecordFields) -> R
{
    split_and_run(line_of_text, |columns| {
        let fields = interrupts::RecordFields::new(columns);
        functor(fields)
    })
}

/// Build the paging record fields associated with a certain line of text,
/// and run code taking that as a parameter
fn with_paging_fields<F, R>(line_of_text: &str, functor: F) -> R
    where F: FnOnce(paging::RecordFields) -> R
{
    split_and_run(line_of_text, |columns| {
        let fields = paging::RecordFields::new(columns);
        functor(fields)
    })
}

/// Build the record structure associated with a certain line of text
fn with_record<F, R>(line_of_text: &str, functor: F) -> R
    where F: FnOnce(Record) -> R
{
    split_and_run(line_of_text, |columns| {
        let record = Record::new(columns);
        functor(record)
    })
}

/// Exhaustively check that a record has a certain kind
fn check_kind(record: &Record, expected_kind: RecordKind) {
    assert_eq!(record.kind(), expected_kind);
    assert!(record.has_kind(&expected_kind));
}

/// Make sure that record analysis will recognize the proper tag, nothing
/// more and nothing less. For example, not "cp", not "cpuz", but "cpu".
fn check_tag_parsing(tag: &str, expected_kind: RecordKind) {
    // Dummy data to make the test look more realistic, shouldn't be parsed
    const TEST_DATA: &str = " 984 654";

    // Start with something that should look like a valid record
    let mut test_record_str = tag.to_owned();
    test_record_str.push_str(TEST_DATA);
    with_record(&test_record_str, |record| {
        check_kind(&record, expected_kind);
    });

    // Check an invalid record where the tag is one character too short
    let mut test_tag = (&tag[..tag.len() - 1]).to_owned();
    test_record_str = test_tag.clone();
    test_record_str.push_str(TEST_DATA);
    with_record(&test_record_str, |record| {
        check_kind(&record, RecordKind::Unsupported(test_tag));
    });

    // Check an invalid record where the tag is one character too long
    test_tag = tag.to_owned();
    test_tag.push('z');
    test_record_str = test_tag.clone();
    test_record_str.push_str(TEST_DATA);
    with_record(&test_record_str, |record| {
        check_kind(&record, RecordKind::Unsupported(test_tag));
    });
}

/// Test that the output of a record stream is right for a given input file
fn check_record_stream(mut stream: RecordStream, file_contents: &str) {
    for record_str in file_contents.lines() {
        with_record(record_str, |expected_record| {
            // Check that the record is there in the actual stream
            let mut actual_record = stream.next().unwrap();

            // Check that the header matches
            assert_eq!(expected_record.header, actual_record.header);

            // Check that the columns match
            let mut expected_columns = expected_record.data_columns;
            while let Some(expected_column) = expected_columns.next() {
                assert_eq!(actual_record.data_columns.next(), Some(expected_column));
            }
            assert_eq!(actual_record.data_columns.next(), None);
        });
    }
}

/// Test the parsing of valid CPU stats
#[test]
fn record_field_parsing() {
    // Check that the oldest supported CPU stats format is parsed properly
    with_cpu_fields("165 18 96 1", |mut fields| {
        assert_eq!(fields.next(), Some(ticks(165)));
        assert_eq!(fields.next(), Some(ticks(18)));
        assert_eq!(fields.next(), Some(ticks(96)));
        assert_eq!(fields.next(), Some(ticks(1)));
        assert_eq!(fields.next(), None);
    });

    // Check that a slightly extended version parses just as well
    with_cpu_fields("9 678 6521 151 56", |mut fields| {
        assert_eq!(fields.next(), Some(ticks(9)));
        assert_eq!(fields.next(), Some(ticks(678)));
        assert_eq!(fields.next(), Some(ticks(6521)));
        assert_eq!(fields.next(), Some(ticks(151)));
        assert_eq!(fields.next(), Some(ticks(56)));
        assert_eq!(fields.next(), None);
    });

    // Check that the newest supported CPU stats format parses as well
    with_cpu_fields("18 9613 11 941 5 51 9 615 62 14", |mut fields| {
        assert_eq!(fields.next(), Some(ticks(18)));
        assert_eq!(fields.next(), Some(ticks(9613)));
        assert_eq!(fields.next(), Some(ticks(11)));
        assert_eq!(fields.next(), Some(ticks(941)));
        assert_eq!(fields.next(), Some(ticks(5)));
        assert_eq!(fields.next(), Some(ticks(51)));
        assert_eq!(fields.next(), Some(ticks(9)));
        assert_eq!(fields.next(), Some(ticks(615)));
        assert_eq!(fields.next(), Some(ticks(62)));
        assert_eq!(fields.next(), Some(ticks(14)));
        assert_eq!(fields.next(), None);
    });
}

/// The length of a tick depends on the number of ticks in one second
#[test]
fn record_field_tick_length() {
    split_and_run("3 250", |columns| {
        let mut fields = cpu::RecordFields::new(columns, 250);
        assert_eq!(fields.next(), Some(Duration::new(0, 12_000_000)));
        assert_eq!(fields.next(), Some(Duration::new(1, 0)));
        assert_eq!(fields.next(), None);
    });
}

/// Check that CPU stats containers work well for the oldest stat format
#[test]
fn oldest_stats() {
    let mut data = with_cpu_fields("94 6316 64 2", cpu::Data::new);
    assert_eq!(data.user_time, Vec::new());
    assert_eq!(data.nice_time, Vec::new());
    assert_eq!(data.system_time, Vec::new());
    assert_eq!(data.idle_time, Vec::new());
    assert_eq!(data.io_wait_time, None);
    assert_eq!(data.irq_time, None);
    assert_eq!(data.softirq_time, None);
    assert_eq!(data.stolen_time, None);
    assert_eq!(data.guest_time, None);
    assert_eq!(data.guest_nice_time, None);
    assert_eq!(data.len(), 0);

    with_cpu_fields("46 421 3 7866", |fields| data.push(fields));
    assert_eq!(data.user_time, vec![ticks(46)]);
    assert_eq!(data.nice_time, vec![ticks(421)]);
    assert_eq!(data.system_time, vec![ticks(3)]);
    assert_eq!(data.idle_time, vec![ticks(7866)]);
    assert_eq!(data.io_wait_time, None);
    assert_eq!(data.irq_time, None);
    assert_eq!(data.softirq_time, None);
    assert_eq!(data.stolen_time, None);
    assert_eq!(data.guest_time, None);
    assert_eq!(data.guest_nice_time, None);
    assert_eq!(data.len(), 1);
}

/// Check that the first historical "extented" stats format works as well
#[test]
fn extended_stats() {
    let mut data = with_cpu_fields("66 321 795 12 32", cpu::Data::new);
    assert_eq!(data.user_time, Vec::new());
    assert_eq!(data.nice_time, Vec::new());
    assert_eq!(data.system_time, Vec::new());
    assert_eq!(data.idle_time, Vec::new());
    assert_eq!(data.io_wait_time, Some(Vec::new()));
    assert_eq!(data.irq_time, None);
    assert_eq!(data.softirq_time, None);
    assert_eq!(data.stolen_time, None);
    assert_eq!(data.guest_time, None);
    assert_eq!(data.guest_nice_time, None);
    assert_eq!(data.len(), 0);

    with_cpu_fields("3122 21 9 46 32", |fields| data.push(fields));
    assert_eq!(data.user_time, vec![ticks(3122)]);
    assert_eq!(data.nice_time, vec![ticks(21)]);
    assert_eq!(data.system_time, vec![ticks(9)]);
    assert_eq!(data.idle_time, vec![ticks(46)]);
    assert_eq!(data.io_wait_time, Some(vec![ticks(32)]));
    assert_eq!(data.irq_time, None);
    assert_eq!(data.softirq_time, None);
    assert_eq!(data.stolen_time, None);
    assert_eq!(data.guest_time, None);
    assert_eq!(data.guest_nice_time, None);
    assert_eq!(data.len(), 1);
}

/// Check that the latest supported stats format works as well
#[test]
fn latest_stats() {
    let mut data = with_cpu_fields("31 854 361 32 6 8 21 9 3 2", cpu::Data::new);
    assert_eq!(data.user_time, Vec::new());
    assert_eq!(data.nice_time, Vec::new());
    assert_eq!(data.system_time, Vec::new());
    assert_eq!(data.idle_time, Vec::new());
    assert_eq!(data.io_wait_time, Some(Vec::new()));
    assert_eq!(data.irq_time, Some(Vec::new()));
    assert_eq!(data.softirq_time, Some(Vec::new()));
    assert_eq!(data.stolen_time, Some(Vec::new()));
    assert_eq!(data.guest_time, Some(Vec::new()));
    assert_eq!(data.guest_nice_time, Some(Vec::new()));
    assert_eq!(data.len(), 0);

    with_cpu_fields("21 61 8 5 9 3 1 7 0 4", |fields| data.push(fields));
    assert_eq!(data.user_time, vec![ticks(21)]);
    assert_eq!(data.nice_time, vec![ticks(61)]);
    assert_eq!(data.system_time, vec![ticks(8)]);
    assert_eq!(data.idle_time, vec![ticks(5)]);
    assert_eq!(data.io_wait_time, Some(vec![ticks(9)]));
    assert_eq!(data.irq_time, Some(vec![ticks(3)]));
    assert_eq!(data.softirq_time, Some(vec![ticks(1)]));
    assert_eq!(data.stolen_time, Some(vec![ticks(7)]));
    assert_eq!(data.guest_time, Some(vec![ticks(0)]));
    assert_eq!(data.guest_nice_time, Some(vec![ticks(4)]));
    assert_eq!(data.len(), 1);
}

/// Check that initializing an interrupt count sampler works as expected
#[test]
fn interrupt_init_interrupt_counts() {
    let counts = InterruptCounts::new();
    assert_eq!(counts, InterruptCounts::Zeroes(0));
    assert_eq!(counts.len(), 0);
}

/// Check that interrupt count sampling works as expected
#[test]
fn interrupt_parse_interrupt_counts() {
    let mut counts = InterruptCounts::new();
    counts.push("0");
    assert_eq!(counts, InterruptCounts::Zeroes(1));
    assert_eq!(counts.len(), 1);

    counts.push("123");
    assert_eq!(counts, InterruptCounts::Samples(vec![0, 123]));
    assert_eq!(counts.len(), 2);

    counts.push("456");
    assert_eq!(counts, InterruptCounts::Samples(vec![0, 123, 456]));
    assert_eq!(counts.len(), 3);

    let mut counts2 = InterruptCounts::new();
    counts2.push("789");
    assert_eq!(counts2, InterruptCounts::Samples(vec![789]));
    assert_eq!(counts2.len(), 1);
}

/// Check that interrupt statistics initialization works as expected
#[test]
fn interrupt_init_interrupt_stat() {
    let no_details_stats = InterruptStatData::new(0);
    assert_eq!(no_details_stats.total.len(), 0);
    assert_eq!(no_details_stats.details.len(), 0);
    assert_eq!(no_details_stats.len(), 0);

    let two_stats = InterruptStatData::new(2);
    assert_eq!(two_stats.details.len(), 2);
    assert_eq!(two_stats.details[0].len(), 0);
    assert_eq!(two_stats.details[1].len(), 0);
    assert_eq!(two_stats.len(), 0);

    let many_stats = InterruptStatData::new(256);
    assert_eq!(many_stats.details.len(), 256);
    assert_eq!(many_stats.details[0].len(), 0);
    assert_eq!(many_stats.details[255].len(), 0);
    assert_eq!(many_stats.len(), 0);
}

/// Check that parsing interrupt statistics works as expected
#[test]
fn interrupt_parse_interrupt_stat() {
    let mut no_details_stats = InterruptStatData::new(0);
    no_details_stats.push(&mut split_line("12345"));
    assert_eq!(no_details_stats.total, vec![12345]);
    assert_eq!(no_details_stats.details.len(), 0);
    assert_eq!(no_details_stats.len(), 1);

    let mut two_stats = InterruptStatData::new(2);
    two_stats.push(&mut split_line("12345 678 910"));
    assert_eq!(two_stats.total, vec![12345]);
    assert_eq!(two_stats.details,
               vec![InterruptCounts::Samples(vec![678]),
                    InterruptCounts::Samples(vec![910])]);
    assert_eq!(two_stats.len(), 1);
}

/// Check that the detailed interrupt count parser works, and that its
/// optimization for zero interrupt counts does not mess things up
#[test]
fn details_iter() {
    split_and_run("0 1 56 0 98 0 11 36856", |data_columns| {
        let mut details_iter = interrupts::DetailsIter { data_columns };
        assert_eq!(details_iter.next(), Some(0));
        assert_eq!(details_iter.next(), Some(1));
        assert_eq!(details_iter.next(), Some(56));
        assert_eq!(details_iter.next(), Some(0));
        assert_eq!(details_iter.next(), Some(98));
        assert_eq!(details_iter.next(), Some(0));
        assert_eq!(details_iter.next(), Some(11));
        assert_eq!(details_iter.next(), Some(36856));
        assert_eq!(details_iter.next(), None);
    })
}

/// Check that overall, interrupt statistics are parsed well
#[test]
fn interrupts_record_fields() {
    with_interrupt_fields("666 42 0", |mut fields| {
        assert_eq!(fields.total, 666);
        assert_eq!(fields.details.next(), Some(42));
        assert_eq!(fields.details.next(), Some(0));
        assert_eq!(fields.details.next(), None);
    });
}

/// Check that interrupt count samples work well, zero-optimization included
#[test]
fn sampled_counter() {
    let mut samples = interrupts::SampledCounter::new();
    assert_eq!(samples, interrupts::SampledCounter::Zeroes(0));
    assert_eq!(samples.len(), 0);

    samples.push(0);
    assert_eq!(samples, interrupts::SampledCounter::Zeroes(1));
    assert_eq!(samples.len(), 1);
    samples.push(0);
    assert_eq!(samples, interrupts::SampledCounter::Zeroes(2));
    assert_eq!(samples.len(), 2);

    samples.push(69);
    assert_eq!(samples, interrupts::SampledCounter::Samples(vec![0, 0, 69]));
    assert_eq!(samples.len(), 3);

    samples.push(0);
    assert_eq!(samples, interrupts::SampledCounter::Samples(vec![0, 0, 69, 0]));
    assert_eq!(samples.len(), 4);

    samples.push(27);
    assert_eq!(samples, interrupts::SampledCounter::Samples(vec![0, 0, 69, 0, 27]));
    assert_eq!(samples.len(), 5);
}

/// Check that full interrupt samples work well
#[test]
fn interrupts_sampled_data() {
    let mut data = with_interrupt_fields("666 0 24", interrupts::SampledData::new);
    assert_eq!(data.total, Vec::new());
    assert_eq!(data.details.len(), 2);
    assert_eq!(data.len(), 0);

    with_interrupt_fields("669 0 26", |fields| data.push(fields));
    assert_eq!(data.total, vec![669]);
    assert_eq!(data.details, vec![interrupts::SampledCounter::Zeroes(1),
                                  interrupts::SampledCounter::Samples(vec![26])]);
    assert_eq!(data.len(), 1);
    with_interrupt_fields("782 66 42", |fields| data.push(fields));
    assert_eq!(data.total, vec![669, 782]);
    assert_eq!(data.details, vec![interrupts::SampledCounter::Samples(vec![0, 66]),
                                  interrupts::SampledCounter::Samples(vec![26, 42])]);
    assert_eq!(data.len(), 2);
}

/// Check that paging statistics parsing works as expected
#[test]
fn paging_record_fields() {
    with_paging_fields("865 43", |fields| {
        assert_eq!(fields.incoming, 865);
        assert_eq!(fields.outgoing, 43);
    });
}

/// Check that paging statistics are stored as expected
#[test]
fn paging_sampled_data() {
    let mut data = with_paging_fields("4 312", paging::SampledData::new);
    assert_eq!(data.incoming, Vec::new());
    assert_eq!(data.outgoing, Vec::new());
    assert_eq!(data.len(), 0);

    with_paging_fields("600 598", |fields| data.push(fields));
    assert_eq!(data.incoming, vec![600]);
    assert_eq!(data.outgoing, vec![598]);
    assert_eq!(data.len(), 1);
    with_paging_fields("666 4097", |fields| data.push(fields));
    assert_eq!(data.incoming, vec![600, 666]);
    assert_eq!(data.outgoing, vec![598, 4097]);
    assert_eq!(data.len(), 2);
}

/// Check that CPU stats are parsed properly
#[test]
fn cpu_record() {
    check_tag_parsing("cpu", RecordKind::CPUTotal);
    with_record("cpu 98 6 966 48", |record| {
        let cpu_fields = record.parse_cpu(TICKS_PER_SEC);
        assert_eq!(cpu_fields.count(), 4);
    });

    with_record("cpu42 98 6 966 48 62", |record| {
        check_kind(&record, RecordKind::CPUThread(42));
        let cpu_fields = record.parse_cpu(TICKS_PER_SEC);
        assert_eq!(cpu_fields.count(), 5);
    });
}

/// Check that paging stats are parsed properly
#[test]
fn paging_record() {
    check_tag_parsing("page", RecordKind::PagingTotal);
    with_record("page 9846 1367", |record| {
        assert_eq!(record.parse_paging(),
                   paging::RecordFields { incoming: 9846, outgoing: 1367 });
    });

    check_tag_parsing("swap", RecordKind::PagingSwap);
    with_record("swap 3645 4793", |record| {
        assert_eq!(record.parse_paging(),
                   paging::RecordFields { incoming: 3645, outgoing: 4793 });
    });
}

/// Check that interrupt stats are parsed properly
#[test]
fn interrupt_record() {
    check_tag_parsing("intr", RecordKind::InterruptsHW);
    with_record("intr 127 0 66", |record| {
        let fields = record.parse_interrupts();
        assert_eq!(fields.total, 127);
        assert_eq!(fields.details.count(), 2);
    });

    check_tag_parsing("softirq", RecordKind::InterruptsSW);
    with_record("softirq 666 72 69 0", |record| {
        let fields = record.parse_interrupts();
        assert_eq!(fields.total, 666);
        assert_eq!(fields.details.count(), 3);
    });
}

/// Check that context switching stats are parsed properly
#[test]
fn context_switches() {
    check_tag_parsing("ctxt", RecordKind::ContextSwitches);
    with_record("ctxt 46115", |record| {
        assert_eq!(record.parse_context_switches(), 46115);
    });
}

/// Check that boot time stats are parsed properly
#[test]
fn boot_time() {
    check_tag_parsing("btime", RecordKind::BootTime);
    with_record("btime 713705", |record| {
        let boot_secs = record.parse_boot_time();
        assert_eq!(boot_secs, 713705);
        assert_eq!(Utc.timestamp_opt(boot_secs, 0).unwrap(),
                   Utc.timestamp_opt(713705, 0).unwrap());
    });
}

/// Check that process forks are parsed properly
#[test]
fn process_forks() {
    check_tag_parsing("processes", RecordKind::ProcessForks);
    with_record("processes 9564", |record| {
        assert_eq!(record.parse_process_forks(), 9564);
    });
}

/// Check that process activity is parsed properly
#[test]
fn process_activity() {
    check_tag_parsing("procs_running", RecordKind::ProcessesRunnable);
    with_record("procs_running 666", |record| {
        assert_eq!(record.parse_processes(), 666);
    });

    check_tag_parsing("procs_blocked", RecordKind::ProcessesBlocked);
    with_record("procs_blocked 1563", |record| {
        assert_eq!(record.parse_processes(), 1563);
    });
}

/// Unsupported headers are kept, and do not match other kinds
#[test]
fn unsupported_record() {
    with_record("procs_zombie 3", |record| {
        check_kind(&record, RecordKind::Unsupported(String::from("procs_zombie")));
        assert!(!record.has_kind(&RecordKind::ProcessesRunnable));
    });
    with_record("cpu+7 1 2 3 4", |record| {
        check_kind(&record, RecordKind::CPUThread(7));
    });
    with_record("cpu65536 1 2 3 4", |record| {
        check_kind(&record, RecordKind::Unsupported(String::from("cpu65536")));
    });
}

/// Check that record streams work well
#[test]
fn mod_record_stream() {
    let pseudo_file = ["cpu  9 8 7 6",
                       "cpu0 7 5 3 1",
                       "cpu1 2 3 4 5",
                       "page 666 999",
                       "swap 333 888",
                       "intr 128 0 3 4 5",
                       "ctxt 6461165",
                       "btime 61616659",
                       "processes 161316",
                       "procs_running 24",
                       "procs_blocked 13",
                       "totally_unsupported 222",
                       "softirq 614651 13 16 61 632"].join("\n");
    let record_stream = RecordStream::new(&pseudo_file);
    check_record_stream(record_stream, &pseudo_file);
}

/// Check that parsers work well
#[test]
fn parser() {
    let initial_file = ["cpu  9 8 7 6",
                        "cpu0 7 5 3 1",
                        "cpu1 2 3 4 5",
                        "page 666 999",
                        "swap 333 888",
                        "intr 128 0 3 4 5",
                        "ctxt 6461165",
                        "btime 61616659",
                        "processes 161316",
                        "procs_running 24",
                        "procs_blocked 13",
                        "softirq 614651 13 16 61 632"].join("\n");
    let mut parser = Parser::new(&initial_file);

    let file_contents = ["cpu  24 48 72 96",
                         "cpu0 17 22 38 91",
                         "cpu1 7 26 34 5",
                         "page 888 1010",
                         "swap 666 987",
                         "intr 129 0 3 4 5",
                         "ctxt 8461188",
                         "btime 61616659",
                         "processes 191436",
                         "procs_running 14",
                         "procs_blocked 6",
                         "softirq 614851 313 216 61 1632"].join("\n");
    let record_stream = parser.parse(&file_contents);
    check_record_stream(record_stream, &file_contents);
}

/// Check that statistical data containers work as expected
#[test]
fn mod_sampled_data() {
    // Build a new data container associated with certain file contents. If
    // the push flag is set, also push the same file contents into it.
    let new_sampled_data = |file_contents: &str, push: bool| -> Data {
        let mut data = Data::new(RecordStream::new(file_contents), TICKS_PER_SEC);
        if push {
            data.push(RecordStream::new(file_contents));
        }
        data
    };

    // Same idea, but for a CPU stats container / file record
    let new_cpu_data = |textual_record: &str, push: bool| -> cpu::Data {
        let mut data = with_record(textual_record, |record| {
            cpu::Data::new(record.parse_cpu(TICKS_PER_SEC))
        });
        if push {
            with_record(textual_record, |record| {
                data.push(record.parse_cpu(TICKS_PER_SEC));
            });
        }
        data
    };

    // Same idea, but for a paging stats container / file record
    let new_paging_data = |textual_record: &str, push: bool| -> paging::Data {
        let mut data = with_record(textual_record, |record| {
            paging::Data::new(record.parse_paging())
        });
        if push {
            with_record(textual_record, |record| {
                data.push(record.parse_paging());
            });
        }
        data
    };

    // Same idea, but for an interrupts stats container / file record
    let new_interrupts_data = |textual_record: &str, push: bool| -> interrupts::Data {
        let mut data = with_record(textual_record, |record| {
            interrupts::Data::new(record.parse_interrupts())
        });
        if push {
            with_record(textual_record, |record| {
                data.push(record.parse_interrupts());
            });
        }
        data
    };

    // Empty /proc/stat samples
    let mut stats = String::new();
    let empty_void_stats = new_sampled_data(&stats, false);
    let mut expected_empty = Data {
        all_cpus: None,
        each_thread: Vec::new(),
        paging: None,
        swapping: None,
        interrupts: None,
        context_switches: None,
        boot_time: None,
        process_forks: None,
        runnable_processes: None,
        blocked_processes: None,
        softirqs: None,
        line_target: Vec::new(),
        ticks_per_sec: TICKS_PER_SEC,
    };
    assert_eq!(empty_void_stats, expected_empty);
    let full_void_stats = new_sampled_data(&stats, true);
    let mut expected_full = Data {
        all_cpus: None,
        each_thread: Vec::new(),
        paging: None,
        swapping: None,
        interrupts: None,
        context_switches: None,
        boot_time: None,
        process_forks: None,
        runnable_processes: None,
        blocked_processes: None,
        softirqs: None,
        line_target: Vec::new(),
        ticks_per_sec: TICKS_PER_SEC,
    };
    assert_eq!(full_void_stats, expected_full);

    // We will then test supported records one by one
    let mut check_new_record = |extra_text: &str, update_expected: &dyn Fn(&mut Data, bool)| {
        stats.push_str(extra_text);

        let empty_stats = new_sampled_data(&stats, false);
        update_expected(&mut expected_empty, false);
        assert_eq!(empty_stats, expected_empty);
        assert_eq!(empty_stats.len(), 0);

        let full_stats = new_sampled_data(&stats, true);
        update_expected(&mut expected_full, true);
        assert_eq!(full_stats, expected_full);
        assert_eq!(full_stats.len(), 1);
    };

    // ...adding global CPU stats
    const CPU_STR: &str = "cpu 1 2 3 4\n";
    check_new_record(CPU_STR, &|expected, push| {
        expected.all_cpus = Some(new_cpu_data(CPU_STR, push));
        expected.line_target.push(RecordKind::CPUTotal);
    });

    // ...adding dual-core CPU stats
    check_new_record("cpu0 0 1 1 3
             cpu1 1 1 2 1\n", &|expected, push| {
        expected.each_thread = vec![new_cpu_data("cpu0 0 1 1 3", push),
                                    new_cpu_data("cpu1 1 1 2 1", push)];
        expected.line_target.push(RecordKind::CPUThread(0));
        expected.line_target.push(RecordKind::CPUThread(1));
    });

    // ...adding paging stats
    const PAGE_STR: &str = "page 42 43\n";
    check_new_record(PAGE_STR, &|expected, push| {
        expected.paging = Some(new_paging_data(PAGE_STR, push));
        expected.line_target.push(RecordKind::PagingTotal);
    });

    // ...adding swapping stats
    const SWAP_STR: &str = "swap 24 34\n";
    check_new_record(SWAP_STR, &|expected, push| {
        expected.swapping = Some(new_paging_data(SWAP_STR, push));
        expected.line_target.push(RecordKind::PagingSwap);
    });

    // ...adding interrupt stats
    const INTR_STR: &str = "intr 12345 678 910\n";
    check_new_record(INTR_STR, &|expected, push| {
        expected.interrupts = Some(new_interrupts_data(INTR_STR, push));
        expected.line_target.push(RecordKind::InterruptsHW);
    });

    // ...adding context switches
    check_new_record("ctxt 654321\n", &|expected, push| {
        expected.context_switches = Some(if push { vec![654321] } else { Vec::new() });
        expected.line_target.push(RecordKind::ContextSwitches);
    });

    // ...adding boot time
    check_new_record("btime 5738295\n", &|expected, _push| {
        expected.boot_time = Some(5738295);
        expected.line_target.push(RecordKind::BootTime);
    });

    // ...adding process fork counter
    check_new_record("processes 94536551\n", &|expected, push| {
        expected.process_forks = Some(if push { vec![94536551] } else { Vec::new() });
        expected.line_target.push(RecordKind::ProcessForks);
    });

    // ...adding runnable process counter
    check_new_record("procs_running 1624\n", &|expected, push| {
        expected.runnable_processes = Some(if push { vec![1624] } else { Vec::new() });
        expected.line_target.push(RecordKind::ProcessesRunnable);
    });

    // ...adding blocked process counter
    check_new_record("procs_blocked 8948\n", &|expected, push| {
        expected.blocked_processes = Some(if push { vec![8948] } else { Vec::new() });
        expected.line_target.push(RecordKind::ProcessesBlocked);
    });

    // ...adding softirq stats
    const SOFTIRQ_STR: &str = "softirq 94651 1561 21211 12 71867\n";
    check_new_record(SOFTIRQ_STR, &|expected, push| {
        expected.softirqs = Some(new_interrupts_data(SOFTIRQ_STR, push));
        expected.line_target.push(RecordKind::InterruptsSW);
    });
}

/// Each push adds one sample to each member of the store
#[test]
fn sampled_data_two_pushes() {
    let mut data = Data::new(RecordStream::new("ctxt 1\nprocesses 2\ncpu 1 2 3 4"), TICKS_PER_SEC);
    data.push(RecordStream::new("ctxt 3\nprocesses 4\ncpu 5 6 7 8"));
    data.push(RecordStream::new("ctxt 5\nprocesses 6\ncpu 9 10 11 12"));
    assert_eq!(data.len(), 2);
    assert_eq!(data.context_switches, Some(vec![3, 5]));
    assert_eq!(data.process_forks, Some(vec![4, 6]));
    assert_eq!(data.all_cpus.as_ref().unwrap().user_time, vec![ticks(5), ticks(9)]);
}

/// Check that samples of /proc/stat are told apart from malformed ones
#[test]
fn stat_sample_checks() {
    let initial = "cpu 1 2 3 4\ncpu0 1 1 1 1\ncpu1 0 1 0 1\nintr 5 1 2\nbtime 42\nweird 1";
    assert!(Parser::check_sample(initial));
    assert!(!Parser::check_sample("cpu 1 2 3 4\n\n"));
    assert!(Data::check_setup(initial));
    // CPU threads must come in order, with at least four timers
    assert!(!Data::check_setup("cpu1 1 2 3 4"));
    assert!(!Data::check_setup("cpu 1 2 3"));
    assert!(!Data::check_setup("btime soon"));
    assert!(!Data::check_setup("intr"));

    let data = Data::new(RecordStream::new(initial), TICKS_PER_SEC);
    assert!(data.check_sample("cpu 2 3 4 5\ncpu0 2 2 2 2\ncpu1 1 1 1 1\nintr 6 2 2\nbtime 42\nweird x"));
    // Missing lines, changed records and missing counters are refused
    assert!(!data.check_sample("cpu 2 3 4 5\ncpu0 2 2 2 2"));
    assert!(!data.check_sample("cpu 2 3 4 5\ncpu1 2 2 2 2\ncpu0 1 1 1 1\nintr 6 2 2\nbtime 42\nweird x"));
    assert!(!data.check_sample("cpu 2 3 4 5\ncpu0 2 2 2 2\ncpu1 1 1 1 1\nintr 6 2\nbtime 42\nweird x"));
}

/// Check that each sample adds one sample to every member, even when some
/// unsupported lines repeat
#[test]
fn stat_push_adds_one_sample() {
    let initial = "cpu 1 2 3 4\nfoo 1\npage 5 6\nfoo 2\nbtime 42";
    let mut data = Data::new(RecordStream::new(initial), TICKS_PER_SEC);
    assert_eq!(data.len(), 0);
    data.push(RecordStream::new("cpu 2 3 4 5\nfoo 3\npage 7 8\nfoo 4\nbtime 42"));
    assert_eq!(data.len(), 1);
    data.push(RecordStream::new("cpu 3 4 5 6\nfoo 5\npage 9 10\nfoo 6\nbtime 42"));
    assert_eq!(data.len(), 2);
    assert_eq!(data.paging.as_ref().unwrap().incoming, vec![7, 9]);
    assert_eq!(data.paging.as_ref().unwrap().outgoing, vec![8, 10]);
    assert_eq!(data.all_cpus.as_ref().unwrap().user_time, vec![ticks(2), ticks(3)]);
    assert_eq!(data.boot_time, Some(42));
}

/// Check that a member which several lines map to is set up from the last
/// of them, and gets one sample per line on each push
#[test]
fn stat_repeated_headers() {
    let mut data = Data::new(RecordStream::new("intr 1 2\nintr 3 4 5"), TICKS_PER_SEC);
    assert_eq!(data.interrupts.as_ref().unwrap().details.len(), 2);
    data.push(RecordStream::new("intr 10 20 30\nintr 40 50 60"));
    assert_eq!(data.interrupts.as_ref().unwrap().total, vec![10, 40]);
}

/// Check that a counter keeps its compact zero-only form exactly while
/// only zeroes arrive
#[test]
fn interrupt_counts_zero_form() {
    let mut counts = InterruptCounts::new();
    counts.push("0");
    counts.push("0");
    assert_eq!(counts, InterruptCounts::Zeroes(2));
    counts.push("7");
    counts.push("0");
    assert_eq!(counts, InterruptCounts::Samples(vec![0, 0, 7, 0]));
}
