use pseudofs::parsers::split_line;
use pseudofs::parsers::stat::{CPUStatData, PagingStatData, StatData, StatDataMember,
                              StatDataStore};
use pseudofs::procfs::stat::interrupt::{InterruptCounts, InterruptStatData};
use pseudofs::time::Duration;

/// Number of clock ticks in one second used by these tests
const TICKS_PER_SEC: u64 = 100;

/// Duration of a number of clock ticks
fn ticks(n: u64) -> Duration {
    Duration::new(n / TICKS_PER_SEC, ((n % TICKS_PER_SEC) * (1_000_000_000 / TICKS_PER_SEC)) as u32)
}

/// Check that scalar statistics parsing works as expected
#[test]
fn parse_scalar_stat() {
    let mut scalar_stats = Vec::<u64>::new();
    assert_eq!(StatDataStore::len(&scalar_stats), 0);
    StatDataStore::push(&mut scalar_stats, &mut split_line("123"));
    assert_eq!(scalar_stats, vec![123]);
    assert_eq!(StatDataStore::len(&scalar_stats), 1);
}

/// Check that CPU statistics initialization works as expected
#[test]
fn init_cpu_stat() {
    // Oldest known CPU stats format from Linux 4.11's man proc
    let oldest_stats = CPUStatData::new(4, TICKS_PER_SEC);
    assert_eq!(oldest_stats.user_time.len(), 0);
    assert_eq!(oldest_stats.nice_time.len(), 0);
    assert_eq!(oldest_stats.system_time.len(), 0);
    assert_eq!(oldest_stats.idle_time.len(), 0);
    assert!(oldest_stats.io_wait_time.is_none());
    assert!(oldest_stats.guest_nice_time.is_none());
    assert_eq!(oldest_stats.len(), 0);

    // First known CPU stats extension from Linux 4.11's man proc
    let first_ext_stats = CPUStatData::new(5, TICKS_PER_SEC);
    assert_eq!(first_ext_stats.io_wait_time, Some(Vec::new()));
    assert!(first_ext_stats.irq_time.is_none());
    assert!(first_ext_stats.guest_nice_time.is_none());
    assert_eq!(first_ext_stats.len(), 0);

    // Newest known CPU stats format from Linux 4.11's man proc
    let latest_stats = CPUStatData::new(10, TICKS_PER_SEC);
    assert_eq!(latest_stats.io_wait_time, Some(Vec::new()));
    assert_eq!(latest_stats.guest_nice_time, Some(Vec::new()));
    assert_eq!(latest_stats.len(), 0);
}

/// Check that parsing CPU statistics works as expected
#[test]
fn parse_cpu_stat() {
    // Oldest known CPU stats format from Linux 4.11's man proc
    let mut oldest_stats = CPUStatData::new(4, TICKS_PER_SEC);
    oldest_stats.push(&mut split_line("165 18 96 1"));
    assert_eq!(oldest_stats.user_time, vec![ticks(165)]);
    assert_eq!(oldest_stats.nice_time, vec![ticks(18)]);
    assert_eq!(oldest_stats.system_time, vec![ticks(96)]);
    assert_eq!(oldest_stats.idle_time, vec![ticks(1)]);
    assert!(oldest_stats.io_wait_time.is_none());
    assert_eq!(oldest_stats.len(), 1);

    // Check that "extended" stats are parsed as well
    let mut first_ext_stats = CPUStatData::new(5, TICKS_PER_SEC);
    first_ext_stats.push(&mut split_line("9 698 6521 151 56"));
    assert_eq!(first_ext_stats.io_wait_time, Some(vec![ticks(56)]));
    assert!(first_ext_stats.irq_time.is_none());
    assert_eq!(first_ext_stats.len(), 1);

    // Check that "complete" stats are parsed as well
    let mut latest_stats = CPUStatData::new(10, TICKS_PER_SEC);
    latest_stats.push(&mut split_line("18 9616 11 941 5 51 9 615 62 14"));
    assert_eq!(latest_stats.io_wait_time, Some(vec![ticks(5)]));
    assert_eq!(latest_stats.guest_nice_time, Some(vec![ticks(14)]));
    assert_eq!(latest_stats.len(), 1);
}

/// Check that initializing an interrupt count sampler works as expected
#[test]
fn stat_init_interrupt_counts() {
    let counts = InterruptCounts::new();
    assert_eq!(counts, InterruptCounts::Zeroes(0));
    assert_eq!(counts.len(), 0);
}

/// Check that interrupt count sampling works as expected
#[test]
fn stat_parse_interrupt_counts() {
    // Adding one zero should keep us in the base "zeroes" state
    let mut counts = InterruptCounts::new();
    counts.push("0");
    assert_eq!(counts, InterruptCounts::Zeroes(1));
    assert_eq!(counts.len(), 1);

    // Adding a nonzero value should get us out of this state
    counts.push("123");
    assert_eq!(counts, InterruptCounts::Samples(vec![0, 123]));
    assert_eq!(counts.len(), 2);

    // After that, sampling should work normally
    counts.push("456");
    assert_eq!(counts, InterruptCounts::Samples(vec![0, 123, 456]));
    assert_eq!(counts.len(), 3);

    // Sampling right from the start should work as well
    let mut counts2 = InterruptCounts::new();
    counts2.push("789");
    assert_eq!(counts2, InterruptCounts::Samples(vec![789]));
    assert_eq!(counts2.len(), 1);
}

/// Check that interrupt statistics initialization works as expected
#[test]
fn stat_init_interrupt_stat() {
    // Check that interrupt statistics without any details work
    let no_details_stats = InterruptStatData::new(0);
    assert_eq!(no_details_stats.total.len(), 0);
    assert_eq!(no_details_stats.details.len(), 0);
    assert_eq!(no_details_stats.len(), 0);

    // Check that interrupt statistics with two detailed counters work
    let two_stats = InterruptStatData::new(2);
    assert_eq!(two_stats.details.len(), 2);
    assert_eq!(two_stats.details[0].len(), 0);
    assert_eq!(two_stats.details[1].len(), 0);
    assert_eq!(two_stats.len(), 0);

    // Check that interrupt statistics with lots of detailed counters work
    let many_stats = InterruptStatData::new(256);
    assert_eq!(many_stats.details.len(), 256);
    assert_eq!(many_stats.details[0].len(), 0);
    assert_eq!(many_stats.details[255].len(), 0);
    assert_eq!(many_stats.len(), 0);
}

/// Check that parsing interrupt statistics works as expected
#[test]
fn stat_parse_interrupt_stat() {
    // Interrupt statistics without any detail
    let mut no_details_stats = InterruptStatData::new(0);
    no_details_stats.push(&mut split_line("12345"));
    assert_eq!(no_details_stats.total, vec![12345]);
    assert_eq!(no_details_stats.details.len(), 0);
    assert_eq!(no_details_stats.len(), 1);

    // Interrupt statistics with two detailed counters
    let mut two_stats = InterruptStatData::new(2);
    two_stats.push(&mut split_line("12345 678 910"));
    assert_eq!(two_stats.total, vec![12345]);
    assert_eq!(two_stats.details,
               vec![InterruptCounts::Samples(vec![678]),
                    InterruptCounts::Samples(vec![910])]);
    assert_eq!(two_stats.len(), 1);
}

/// Check that paging statistics initialization works as expected
#[test]
fn init_paging_stat() {
    let stats = PagingStatData::new();
    assert_eq!(stats.incoming.len(), 0);
    assert_eq!(stats.outgoing.len(), 0);
    assert_eq!(stats.len(), 0);
}

/// Check that parsing paging statistics works as expected
#[test]
fn parse_paging_stat() {
    let mut stats = PagingStatData::new();
    stats.push(&mut split_line("123 456"));
    assert_eq!(stats.incoming, vec![123]);
    assert_eq!(stats.outgoing, vec![456]);
    assert_eq!(stats.len(), 1);
}

/// Check that statistical data initialization works as expected
#[test]
fn init_stat_data() {
    // Starting with an empty file (should never happen, but good base case)
    let mut stats = String::new();
    let empty_stats = StatData::new(&stats, TICKS_PER_SEC);
    assert!(empty_stats.all_cpus.is_none());
    assert_eq!(empty_stats.each_cpu.len(), 0);
    assert!(empty_stats.paging.is_none());
    assert!(empty_stats.swapping.is_none());
    assert!(empty_stats.interrupts.is_none());
    assert!(empty_stats.context_switches.is_none());
    assert!(empty_stats.boot_time.is_none());
    assert!(empty_stats.process_forks.is_none());
    assert!(empty_stats.runnable_processes.is_none());
    assert!(empty_stats.blocked_processes.is_none());
    assert!(empty_stats.softirqs.is_none());
    let mut expected = empty_stats;

    // ...adding global CPU stats
    stats.push_str("cpu 1 2 3 4");
    let global_cpu_stats = StatData::new(&stats, TICKS_PER_SEC);
    expected.all_cpus = Some(CPUStatData::new(4, TICKS_PER_SEC));
    expected.line_target.push(StatDataMember::AllCPUs);
    assert_eq!(global_cpu_stats, expected);
    assert_eq!(expected.len(), 0);

    // ...adding dual-core CPU stats
    stats.push_str("\ncpu0 0 1 1 3
                      cpu1 1 1 2 1");
    let local_cpu_stats = StatData::new(&stats, TICKS_PER_SEC);
    expected.each_cpu = vec![CPUStatData::new(4, TICKS_PER_SEC); 2];
    expected.line_target.push(StatDataMember::EachCPU);
    expected.line_target.push(StatDataMember::EachCPU);
    assert_eq!(local_cpu_stats, expected);
    assert_eq!(expected.len(), 0);

    // ...adding paging stats
    stats.push_str("\npage 42 43");
    let paging_stats = StatData::new(&stats, TICKS_PER_SEC);
    expected.paging = Some(PagingStatData::new());
    expected.line_target.push(StatDataMember::Paging);
    assert_eq!(paging_stats, expected);
    assert_eq!(expected.len(), 0);

    // ...adding swapping stats
    stats.push_str("\nswap 24 34");
    let swapping_stats = StatData::new(&stats, TICKS_PER_SEC);
    expected.swapping = Some(PagingStatData::new());
    expected.line_target.push(StatDataMember::Swapping);
    assert_eq!(swapping_stats, expected);
    assert_eq!(expected.len(), 0);

    // ...adding interrupt stats
    stats.push_str("\nintr 12345 678 910");
    let interrupt_stats = StatData::new(&stats, TICKS_PER_SEC);
    expected.interrupts = Some(InterruptStatData::new(2));
    expected.line_target.push(StatDataMember::Interrupts);
    assert_eq!(interrupt_stats, expected);
    assert_eq!(expected.len(), 0);

    // ...adding context switches
    stats.push_str("\nctxt 654321");
    let context_stats = StatData::new(&stats, TICKS_PER_SEC);
    expected.context_switches = Some(Vec::new());
    expected.line_target.push(StatDataMember::ContextSwitches);
    assert_eq!(context_stats, expected);
    assert_eq!(expected.len(), 0);

    // ...adding boot time
    stats.push_str("\nbtime 5738295");
    let boot_time_stats = StatData::new(&stats, TICKS_PER_SEC);
    expected.boot_time = Some(5738295);
    expected.line_target.push(StatDataMember::BootTime);
    assert_eq!(boot_time_stats, expected);
    assert_eq!(expected.len(), 0);

    // ...adding process fork counter
    stats.push_str("\nprocesses 94536551");
    let process_fork_stats = StatData::new(&stats, TICKS_PER_SEC);
    expected.process_forks = Some(Vec::new());
    expected.line_target.push(StatDataMember::ProcessForks);
    assert_eq!(process_fork_stats, expected);
    assert_eq!(expected.len(), 0);

    // ...adding runnable process counter
    stats.push_str("\nprocs_running 1624");
    let runnable_process_stats = StatData::new(&stats, TICKS_PER_SEC);
    expected.runnable_processes = Some(Vec::new());
    expected.line_target.push(StatDataMember::RunnableProcesses);
    assert_eq!(runnable_process_stats, expected);
    assert_eq!(expected.len(), 0);

    // ...adding blocked process counter
    stats.push_str("\nprocs_blocked 8948");
    let blocked_process_stats = StatData::new(&stats, TICKS_PER_SEC);
    expected.blocked_processes = Some(Vec::new());
    expected.line_target.push(StatDataMember::BlockedProcesses);
    assert_eq!(blocked_process_stats, expected);
    assert_eq!(expected.len(), 0);

    // ...adding softirq stats
    stats.push_str("\nsoftirq 94651 1561 21211 12 71867");
    let softirq_stats = StatData::new(&stats, TICKS_PER_SEC);
    expected.softirqs = Some(InterruptStatData::new(4));
    expected.line_target.push(StatDataMember::SoftIRQs);
    assert_eq!(softirq_stats, expected);
    assert_eq!(expected.len(), 0);
}

/// Check that statistical data parsing works as expected
#[test]
fn parse_stat_data() {
    // Starting with an empty file (should never happen, but good base case)
    let mut stats = String::new();
    let mut empty_stats = StatData::new(&stats, TICKS_PER_SEC);
    empty_stats.push(&stats);
    let mut expected = StatData::new(&stats, TICKS_PER_SEC);
    assert_eq!(empty_stats, expected);

    // Adding global CPU stats
    stats.push_str("cpu 1 2 3 4");
    let mut global_cpu_stats = StatData::new(&stats, TICKS_PER_SEC);
    global_cpu_stats.push(&stats);
    expected = StatData::new(&stats, TICKS_PER_SEC);
    expected.all_cpus.as_mut()
                     .expect("CPU stats incorrectly marked as missing")
                     .push(&mut split_line("1 2 3 4"));
    assert_eq!(global_cpu_stats, expected);
    assert_eq!(expected.len(), 1);

    // Adding dual-core CPU stats
    stats.push_str("\ncpu0 0 1 1 3
                      cpu1 1 1 2 1");
    let mut local_cpu_stats = StatData::new(&stats, TICKS_PER_SEC);
    local_cpu_stats.push(&stats);
    expected = StatData::new(&stats, TICKS_PER_SEC);
    expected.all_cpus.as_mut()
                     .expect("CPU stats incorrectly marked as missing")
                     .push(&mut split_line("1 2 3 4"));
    expected.each_cpu[0].push(&mut split_line("0 1 1 3"));
    expected.each_cpu[1].push(&mut split_line("1 1 2 1"));
    assert_eq!(local_cpu_stats, expected);
    assert_eq!(expected.len(), 1);

    // Starting over from paging stats
    stats = String::from("page 42 43");
    let mut paging_stats = StatData::new(&stats, TICKS_PER_SEC);
    paging_stats.push(&stats);
    expected = StatData::new(&stats, TICKS_PER_SEC);
    expected.paging.as_mut()
                   .expect("Paging stats incorrectly marked as missing")
                   .push(&mut split_line("42 43"));
    assert_eq!(paging_stats, expected);
    assert_eq!(expected.len(), 1);

    // Starting over from softirq stats
    stats = String::from("softirq 94651 1561 21211 12 71867");
    let mut softirq_stats = StatData::new(&stats, TICKS_PER_SEC);
    softirq_stats.push(&stats);
    expected = StatData::new(&stats, TICKS_PER_SEC);
    expected.softirqs.as_mut()
                     .expect("Softirq stats incorrectly marked as missing")
                     .push(&mut split_line("94651 1561 21211 12 71867"));
    assert_eq!(softirq_stats, expected);
    assert_eq!(expected.len(), 1);
}

/// A shorter new sample only feeds the members of the lines that it holds
#[test]
fn parse_stat_data_shorter_sample() {
    let mut stats = StatData::new("ctxt 1\nprocesses 2", TICKS_PER_SEC);
    stats.push("ctxt 10");
    assert_eq!(stats.context_switches, Some(vec![10]));
    assert_eq!(stats.process_forks, Some(Vec::new()));
}

/// Unsupported lines and the boot time are skipped when sampling
#[test]
fn parse_stat_data_skipped_lines() {
    let mut stats = StatData::new("weird 1 2\nbtime 77\nctxt 1", TICKS_PER_SEC);
    assert_eq!(stats.line_target, vec![StatDataMember::Unsupported,
                                       StatDataMember::BootTime,
                                       StatDataMember::ContextSwitches]);
    stats.push("whatever\nbtime 99\nctxt 5");
    assert_eq!(stats.boot_time, Some(77));
    assert_eq!(stats.context_switches, Some(vec![5]));
    assert_eq!(stats.len(), 1);
}

/// Check that samples of /proc/stat are told apart from malformed ones by
/// the line-by-line parser
#[test]
fn stat_data_sample_checks() {
    let initial = "cpu 1 2 3 4\ncpu0 1 1 1 1\npage 1 2\nbtime 42";
    assert!(StatData::check_setup(initial));
    assert!(!StatData::check_setup("cpu 1 2 3 4\ncpu0 1 1 1"));
    assert!(!StatData::check_setup("btime later"));
    assert!(!StatData::check_setup("cp 1"));
    let data = StatData::new(initial, TICKS_PER_SEC);
    assert!(data.check_sample("cpu 2 2 3 4\ncpu0 2 1 1 1\npage 2 3\nbtime 42"));
    assert!(data.check_sample("cpu 2 2 3 4"));
    assert!(!data.check_sample("cpu 2 2 3\ncpu0 2 1 1 1\npage 2 3\nbtime 42"));
    assert!(!data.check_sample("cpu 2 2 3 4\ncpu0 2 1 1 1\npage 2"));
}

/// Check that repeated headers push one sample per line into their member
#[test]
fn stat_data_repeated_headers() {
    let mut data = StatData::new("page 1 2\npage 3 4", TICKS_PER_SEC);
    data.push("page 5 6\npage 7 8");
    assert_eq!(data.paging.as_ref().unwrap().incoming, vec![5, 7]);
    assert_eq!(data.paging.as_ref().unwrap().outgoing, vec![6, 8]);
}
