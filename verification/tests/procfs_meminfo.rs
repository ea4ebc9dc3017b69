use bytesize::ByteSize;
use pseudofs::parser::PseudoFileParser;
use pseudofs::procfs::meminfo::{Data, Parser, Payload, PayloadKind, Record, RecordStream,
                                SampledPayloads};
use pseudofs::splitter::split_and_run;

/// Number of bytes in a data volume
fn bytes(volume: ByteSize) -> u64 {
    volume.as_u64()
}

/// Call a function with a payload that parses into a certain data volume
fn with_data_volume_payload<F, R>(data_volume: ByteSize, operation: F) -> R
    where F: FnOnce(Payload) -> R
{
    // Write the data volume as meminfo-like text
    let mut text = (data_volume.as_u64() / 1024).to_string();
    text.push_str(" kB");

    // Create a corresponding payload, and run the user-provided functor on it
    split_and_run(&text, |columns| operation(Payload::new(columns)))
}

/// Call a function with a payload that parses into a certain raw count
fn with_counter_payload<F, R>(counter: u64, operation: F) -> R
    where F: FnOnce(Payload) -> R
{
    let text = counter.to_string();
    split_and_run(&text, |columns| operation(Payload::new(columns)))
}

/// Call a function with an unsupported payload
fn with_unsupported_payload<F, R>(operation: F) -> R
    where F: FnOnce(Payload) -> R
{
    split_and_run("1337 zorglub", |columns| operation(Payload::new(columns)))
}

/// Call a function with a record matching a certain line of meminfo text
fn with_record<F, R>(record_str: &str, operation: F) -> R
    where F: FnOnce(Record) -> R
{
    split_and_run(record_str, |record_columns| {
        let record = Record::new(record_columns);
        operation(record)
    })
}

/// Test that the output of a record stream is right for a given input file
fn check_record_stream(mut stream: RecordStream, file_contents: &str) {
    for record_str in file_contents.lines() {
        with_record(record_str, |expected_record| {
            let actual_record = stream.next().unwrap();
            assert_eq!(actual_record.label(), expected_record.label());
            assert_eq!(actual_record.extract_payload(),
                       expected_record.extract_payload());
        });
    }
    assert!(stream.next().is_none());
}

/// Check that payload parsing works as expected
#[test]
fn payload_parsing() {
    // Valid data volume payload
    with_data_volume_payload(ByteSize::mib(713705), |valid_data_payload| {
        assert_eq!(valid_data_payload.kind(), PayloadKind::DataVolume);
        assert_eq!(valid_data_payload.parse_data_volume(),
                   bytes(ByteSize::mib(713705)));
    });

    // Valid raw counter
    with_counter_payload(911, |valid_counter_payload| {
        assert_eq!(valid_counter_payload.kind(), PayloadKind::Counter);
        assert_eq!(valid_counter_payload.parse_counter(), 911);
    });

    // Unsupported payload type
    with_unsupported_payload(|unsupported_payload| {
        assert_eq!(unsupported_payload.kind(), PayloadKind::Unsupported);
    });
}

/// Check that sampled payload containers work as expected...
#[test]
fn sampled_payloads() {
    // ...with data volume payloads
    let mut data_payloads = with_data_volume_payload(ByteSize::kib(768),
                                                     SampledPayloads::new);
    assert_eq!(data_payloads, SampledPayloads::DataVolume(Vec::new()));
    assert_eq!(data_payloads.len(), 0);
    let sample_data = ByteSize::gib(2);
    with_data_volume_payload(sample_data, |payload| data_payloads.push(payload));
    assert_eq!(data_payloads, SampledPayloads::DataVolume(vec![bytes(sample_data)]));
    assert_eq!(data_payloads.len(), 1);

    // ...with raw counter payloads
    let mut counter_payloads = with_counter_payload(42, SampledPayloads::new);
    assert_eq!(counter_payloads, SampledPayloads::Counter(Vec::new()));
    assert_eq!(counter_payloads.len(), 0);
    let sample_count = 6463;
    with_counter_payload(sample_count, |payload| counter_payloads.push(payload));
    assert_eq!(counter_payloads, SampledPayloads::Counter(vec![sample_count]));
    assert_eq!(counter_payloads.len(), 1);

    // ...and with unsupported payloads
    let mut unsupported_payloads = with_unsupported_payload(SampledPayloads::new);
    assert_eq!(unsupported_payloads, SampledPayloads::Unsupported(0));
    assert_eq!(unsupported_payloads.len(), 0);
    with_unsupported_payload(|unsupported_payload| {
        unsupported_payloads.push(unsupported_payload)
    });
    assert_eq!(unsupported_payloads, SampledPayloads::Unsupported(1));
    assert_eq!(unsupported_payloads.len(), 1);
}

/// Check that record parsing works as expected
#[test]
fn record_parsing() {
    with_record("MyCrazyLabel: 10248 kB", |record| {
        assert_eq!(record.label(), "MyCrazyLabel");
        let payload = record.extract_payload();
        assert_eq!(payload.kind(), PayloadKind::DataVolume);
        assert_eq!(payload.parse_data_volume(), bytes(ByteSize::kib(10248)));
    });
}

/// Check that record streams work as expected
#[test]
fn meminfo_record_stream() {
    let pseudo_file = ["OneRecord: 321 kB",
                       "TwoRecords: 9786",
                       "StupidRecord: 47 MeV"].join("\n");
    let record_stream = RecordStream::new(&pseudo_file);
    check_record_stream(record_stream, &pseudo_file);
}

/// Check that a data volume is converted to bytes through bytesize
#[test]
fn data_volume_in_bytes() {
    with_data_volume_payload(ByteSize::kib(3), |payload| {
        assert_eq!(payload.amount, 3);
        assert_eq!(payload.unit, Some("kB"));
        assert_eq!(payload.parse_data_volume(), 3072);
    });
}

/// Check that parsers accept a well-formed file, and parse later samples
#[test]
fn meminfo_parser() {
    let initial_file = ["TwoPlusTwo: 5",
                        "ThreeRecords: 42 kB"].join("\n");
    let mut parser = Parser::new(&initial_file);
    let file_contents = ["TwoPlusTwo: 9486",
                         "ThreeRecords: 76415 kB"].join("\n");
    let record_stream = parser.parse(&file_contents);
    check_record_stream(record_stream, &file_contents);
}

/// Check that sampled data works as expected
#[test]
fn meminfo_sampled_data() {
    let initial_contents = ["What:     9876",
                            "Could:    6513 kB",
                            "Possibly: 98743 kB",
                            "Go:       48961",
                            "Wrong:    5474"].join("\n");
    let initial_records = RecordStream::new(&initial_contents);
    let mut sampled_data = Data::new(initial_records);
    assert_eq!(sampled_data, Data {
        data: vec![SampledPayloads::Counter(Vec::new()),
                   SampledPayloads::DataVolume(Vec::new()),
                   SampledPayloads::DataVolume(Vec::new()),
                   SampledPayloads::Counter(Vec::new()),
                   SampledPayloads::Counter(Vec::new())],
        keys: vec!["What".to_string(),
                   "Could".to_string(),
                   "Possibly".to_string(),
                   "Go".to_string(),
                   "Wrong".to_string()]
    });
    assert_eq!(sampled_data.len(), 0);

    let file_contents = ["What:     9876",
                         "Could:    6514 kB",
                         "Possibly: 98753 kB",
                         "Go:       50161",
                         "Wrong:    6484"].join("\n");
    let file_records = RecordStream::new(&file_contents);
    sampled_data.push(file_records);
    assert_eq!(sampled_data, Data {
        data: vec![SampledPayloads::Counter(vec![9876]),
                   SampledPayloads::DataVolume(vec![bytes(ByteSize::kib(6514))]),
                   SampledPayloads::DataVolume(vec![bytes(ByteSize::kib(98753))]),
                   SampledPayloads::Counter(vec![50161]),
                   SampledPayloads::Counter(vec![6484])],
        keys: vec!["What".to_string(),
                   "Could".to_string(),
                   "Possibly".to_string(),
                   "Go".to_string(),
                   "Wrong".to_string()]
    });
    assert_eq!(sampled_data.len(), 1);
}

/// Check that a record with an unknown unit is counted, not parsed
#[test]
fn meminfo_unsupported_samples() {
    let initial_records = RecordStream::new("Energy: 47 MeV");
    let mut sampled_data = Data::new(initial_records);
    assert_eq!(sampled_data.data, vec![SampledPayloads::Unsupported(0)]);
    sampled_data.push(RecordStream::new("Energy: 48 MeV"));
    sampled_data.push(RecordStream::new("Energy: 49 MeV"));
    assert_eq!(sampled_data.data, vec![SampledPayloads::Unsupported(2)]);
    assert_eq!(sampled_data.len(), 2);
}

/// Check that samples of /proc/meminfo are told apart from malformed ones
#[test]
fn meminfo_sample_check() {
    assert!(Parser::check_sample("MemTotal: 42 kB\nHugePages: 3\n"));
    assert!(Parser::check_sample(""));
    assert!(!Parser::check_sample("MemTotal: 42 kB\nAbc123\n"));
    assert!(!Parser::check_sample("MemTotal: lots kB"));
    assert!(!Parser::check_sample(": 42 kB"));

    let data = Data::new(RecordStream::new("MemTotal: 42 kB\nHugePages: 3"));
    assert!(data.check_sample("MemTotal: 43 kB\nHugePages: 4"));
    assert!(data.check_sample("MemTotal: 43 kB\nHugePages: 4\nExtra: 5"));
    assert!(!data.check_sample("MemTotal: 43 kB"));
    assert!(!data.check_sample("MemTotl: 43 kB\nHugePages: 4"));
    assert!(!data.check_sample("MemTotal: 18014398509481984 kB\nHugePages: 4"));
    assert!(data.check_sample("MemTotal: 18014398509481983 kB\nHugePages: 4"));
}

/// Check that one-character labels are read too
#[test]
fn meminfo_short_label() {
    with_record("A: 5", |record| {
        assert_eq!(record.label(), "A");
        assert_eq!(record.extract_payload().parse_counter(), 5);
    });
    assert!(Parser::check_sample("A: 5\nBc: 6 kB"));
}
