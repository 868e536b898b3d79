use conserve::errors::Error;
use conserve::monitor::collect::CollectMonitor;
use conserve::monitor::counters::{Counter, Counters, COUNTER_COUNT};
use conserve::monitor::{Problem, Task};
use conserve::Apath;

#[test]
fn counters_start_at_zero_and_count() {
    let mut counters = Counters::default();
    assert_eq!(counters.get(Counter::BlockRead), 0);
    counters.count(Counter::BlockRead, 3);
    counters.count(Counter::BlockRead, 4);
    counters.count(Counter::BlockWrite, 1);
    assert_eq!(counters.get(Counter::BlockRead), 7);
    assert_eq!(counters.get(Counter::BlockWrite), 1);
    assert_eq!(counters.get(Counter::BandsDone), 0);
    counters.set(Counter::BlockRead, 100);
    assert_eq!(counters.get(Counter::BlockRead), 100);
    assert_eq!(counters.get(Counter::BlockWrite), 1);
}

#[test]
fn a_count_that_passes_the_largest_number_starts_again() {
    let mut counters = Counters::default();
    counters.set(Counter::FileBytes, usize::MAX);
    counters.count(Counter::FileBytes, 2);
    assert_eq!(counters.get(Counter::FileBytes), 1);
}

#[test]
fn every_counter_has_its_place() {
    for i in 0..COUNTER_COUNT {
        let counter = Counter::from_index(i).unwrap();
        assert_eq!(counter.index(), i);
    }
    assert_eq!(Counter::from_index(COUNTER_COUNT), None);
    assert_eq!(Counter::BandsDone.index(), 0);
    assert_eq!(Counter::BlockCacheHit.index(), 8);
    assert_eq!(Counter::BlockCacheHit.name(), "BlockCacheHit");
}

#[test]
fn counters_describe_themselves() {
    let mut counters = Counters::default();
    counters.set(Counter::BandsTotal, 12);
    counters.set(Counter::FileBytes, 3456);
    assert_eq!(
        counters.debug_text(),
        "Counters { BandsDone: 0, BandsTotal: 12, FilesDone: 0, IndexBytesDone: 0, \
         BlockBytesDone: 0, BlockRead: 0, BlockWrite: 0, BlockMatchExisting: 0, \
         BlockCacheHit: 0, Files: 0, FileBytes: 3456 }"
    );
}

#[test]
fn monitor_collects() {
    let mut monitor = CollectMonitor::new();
    assert_eq!(monitor.get_counter(Counter::FilesDone), 0);
    monitor.count(Counter::FilesDone, 2);
    monitor.count(Counter::FilesDone, 3);
    monitor.set_counter(Counter::BandsTotal, 9);
    assert_eq!(monitor.get_counter(Counter::FilesDone), 5);
    assert_eq!(monitor.get_counter(Counter::BandsTotal), 9);

    monitor.problem(Problem { error: Error::Cancelled });
    monitor.problem(Problem { error: Error::ArchiveEmpty });
    assert_eq!(monitor.problems.len(), 2);
    assert_eq!(
        monitor.take_problems(),
        vec![Problem { error: Error::Cancelled }, Problem { error: Error::ArchiveEmpty }]
    );
    assert!(monitor.take_problems().is_empty());

    monitor.file_started(Apath::new("/a").unwrap());
    monitor.file_started(Apath::new("/b").unwrap());
    assert_eq!(
        monitor.take_started_files(),
        vec![Apath::new("/a").unwrap(), Apath::new("/b").unwrap()]
    );
    assert!(monitor.take_started_files().is_empty());
    assert_eq!(monitor.get_counter(Counter::FilesDone), 5);
}

#[test]
fn tasks_keep_their_progress() {
    let mut monitor = CollectMonitor::new();
    let mut task = monitor.start_task("Measure tree".to_string());
    assert_eq!(task, Task { name: "Measure tree".to_string(), done: 0 });
    task.increment(5);
    task.increment(7);
    assert_eq!(task.done, 12);
    task.increment(usize::MAX);
    assert_eq!(task.done, usize::MAX);
}

#[test]
fn error_messages() {
    assert_eq!(Error::ArchiveEmpty.message(), "Archive is empty");
    assert_eq!(
        Error::BlockMissing { hash: "abc".to_string() }.message(),
        "Block file missing: abc"
    );
    assert_eq!(
        Error::BandNotFound { id: conserve::BandId::new(&[3]) }.message(),
        "Band not found: b0003"
    );
    assert_eq!(
        Error::UnsupportedArchiveVersion { version: "0.5".to_string() }.message(),
        "Unsupported archive version: 0.5"
    );
}
