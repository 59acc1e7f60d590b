use bruteforce::keyspace::{digit_width, partition};
use bruteforce::predicate::try_password;
use bruteforce::search::{run_single_thread_bruteforce, search_outcome, SearchOutcome};
use bruteforce::worker::{bruteforce_password_range, mark_password_found, should_stop, WorkerOutcome, WorkerReport};
use std::io::Write;
use std::sync::atomic::AtomicBool;
use std::sync::Arc;
use std::time::Duration;
use zip::unstable::write::FileOptionsExt;

const CONTENT: &[u8] = b"the treasure is buried under the old oak tree";

fn archive_with(password: Option<&str>) -> Vec<u8> {
    let mut writer = zip::ZipWriter::new(std::io::Cursor::new(Vec::new()));
    let mut options = zip::write::SimpleFileOptions::default()
        .compression_method(zip::CompressionMethod::Stored);
    if let Some(p) = password {
        options = options.with_deprecated_encryption(p.as_bytes());
    }
    writer.start_file("secret.txt", options).unwrap();
    writer.write_all(CONTENT).unwrap();
    writer.finish().unwrap().into_inner()
}

fn report(thread_id: usize, outcome: WorkerOutcome) -> WorkerReport {
    WorkerReport { thread_id, outcome, attempts: 0, elapsed: Duration::ZERO }
}

/// Runs one worker per range of the partition, one after another, sharing
/// one stop signal: a serial schedule of the parallel run.
fn workers_in_turn(zip_data: Vec<u8>, upper_bound: u32, worker_count: u32) -> (Vec<WorkerReport>, SearchOutcome) {
    let zip_data = Arc::new(zip_data);
    let flag = Arc::new(AtomicBool::new(false));
    let width = digit_width(upper_bound);
    let reports: Vec<WorkerReport> = partition(upper_bound, worker_count)
        .into_iter()
        .enumerate()
        .map(|(id, range)| bruteforce_password_range(id, range.start, range.end, width, &zip_data, &flag))
        .collect();
    let outcome = search_outcome(&reports);
    (reports, outcome)
}

fn found(outcome: &SearchOutcome) -> Option<&str> {
    match outcome {
        SearchOutcome::Found(p) => Some(p.as_str()),
        SearchOutcome::NotFound => None,
    }
}

#[test]
fn predicate_accepts_only_the_true_password() {
    let data = archive_with(Some("0042"));
    assert!(try_password("0042", &data));
    assert!(!try_password("0043", &data));
    assert!(!try_password("042", &data));
    assert!(!try_password("", &data));
}

#[test]
fn predicate_rejects_what_is_no_archive() {
    assert!(!try_password("0042", &[]));
    assert!(!try_password("0042", b"PK\x03\x04 this is not really an archive"));
    let mut data = archive_with(Some("0042"));
    data.truncate(data.len() / 2);
    assert!(!try_password("0042", &data));
}

#[test]
fn predicate_opens_unencrypted_archive_with_any_password() {
    let data = archive_with(None);
    assert!(try_password("1234", &data));
    assert!(try_password("", &data));
}

#[test]
fn stop_signal_starts_clear_and_stays_set() {
    let flag = AtomicBool::new(false);
    assert!(!should_stop(&flag));
    mark_password_found(&flag);
    assert!(should_stop(&flag));
    mark_password_found(&flag);
    assert!(should_stop(&flag));
}

#[test]
fn worker_finds_password_and_sets_signal() {
    let data = archive_with(Some("0042"));
    let flag = AtomicBool::new(false);
    let r = bruteforce_password_range(3, 0, 100, 4, &data, &flag);
    assert_eq!(r.thread_id, 3);
    assert!(matches!(&r.outcome, WorkerOutcome::Found(p) if p == "0042"));
    assert_eq!(r.attempts, 43);
    assert!(should_stop(&flag));
}

#[test]
fn worker_completes_range_without_match() {
    let data = archive_with(Some("0042"));
    let flag = AtomicBool::new(false);
    let r = bruteforce_password_range(1, 100, 200, 4, &data, &flag);
    assert!(matches!(r.outcome, WorkerOutcome::RangeCompleted));
    assert_eq!(r.attempts, 100);
    assert!(!should_stop(&flag));
}

#[test]
fn worker_stops_at_once_when_signal_set() {
    let data = archive_with(Some("0042"));
    let flag = AtomicBool::new(true);
    let r = bruteforce_password_range(0, 0, 100, 4, &data, &flag);
    assert!(matches!(r.outcome, WorkerOutcome::StoppedEarly));
    assert_eq!(r.attempts, 0);
}

#[test]
fn worker_on_empty_range_completes_without_attempts() {
    let data = archive_with(Some("0042"));
    let flag = AtomicBool::new(false);
    let r = bruteforce_password_range(2, 50, 50, 4, &data, &flag);
    assert!(matches!(r.outcome, WorkerOutcome::RangeCompleted));
    assert_eq!(r.attempts, 0);
}

#[test]
fn outcome_is_first_found_report() {
    let reports = vec![
        report(0, WorkerOutcome::RangeCompleted),
        report(1, WorkerOutcome::Found("1111".to_string())),
        report(2, WorkerOutcome::StoppedEarly),
        report(3, WorkerOutcome::Found("2222".to_string())),
    ];
    assert_eq!(found(&search_outcome(&reports)), Some("1111"));
}

#[test]
fn outcome_without_found_report_is_not_found() {
    let reports = vec![
        report(0, WorkerOutcome::RangeCompleted),
        report(1, WorkerOutcome::StoppedEarly),
    ];
    assert_eq!(found(&search_outcome(&reports)), None);
    assert_eq!(found(&search_outcome(&Vec::new())), None);
}

#[test]
fn sequential_finds_0042_within_43_attempts() {
    let data = archive_with(Some("0042"));
    let r = run_single_thread_bruteforce(&data, 10000);
    assert_eq!(found(&r.outcome), Some("0042"));
    assert_eq!(r.attempts, 43);
}

#[test]
fn workers_find_0042() {
    let (reports, outcome) = workers_in_turn(archive_with(Some("0042")), 10000, 4);
    assert_eq!(found(&outcome), Some("0042"));
    assert_eq!(reports.len(), 4);
    assert!(matches!(&reports[0].outcome, WorkerOutcome::Found(p) if p == "0042"));
    assert_eq!(reports[0].attempts, 43);
    for (i, r) in reports.iter().enumerate().skip(1) {
        assert_eq!(r.thread_id, i);
        assert!(matches!(r.outcome, WorkerOutcome::StoppedEarly));
        assert_eq!(r.attempts, 0);
    }
}

#[test]
fn five_digit_password_is_not_found_by_either_search() {
    let data = archive_with(Some("12345"));
    let r = run_single_thread_bruteforce(&data, 10000);
    assert_eq!(found(&r.outcome), None);
    assert_eq!(r.attempts, 10000);
    let (reports, outcome) = workers_in_turn(data, 10000, 4);
    assert_eq!(found(&outcome), None);
    for r in &reports {
        assert!(matches!(r.outcome, WorkerOutcome::RangeCompleted));
        assert_eq!(r.attempts, 2500);
    }
}

#[test]
fn searches_agree_on_password_in_last_range() {
    let data = archive_with(Some("9876"));
    let r = run_single_thread_bruteforce(&data, 10000);
    assert_eq!(found(&r.outcome), Some("9876"));
    assert_eq!(r.attempts, 9877);
    let (_, outcome) = workers_in_turn(data, 10000, 3);
    assert_eq!(found(&outcome), Some("9876"));
}

#[test]
fn searches_agree_in_small_keyspace() {
    let data = archive_with(Some("7"));
    let r = run_single_thread_bruteforce(&data, 10);
    assert_eq!(found(&r.outcome), Some("7"));
    assert_eq!(r.attempts, 8);
    let (_, outcome) = workers_in_turn(data, 10, 4);
    assert_eq!(found(&outcome), Some("7"));
}

#[test]
fn empty_keyspace_is_not_found_without_attempts() {
    let data = archive_with(Some("0"));
    let r = run_single_thread_bruteforce(&data, 0);
    assert_eq!(found(&r.outcome), None);
    assert_eq!(r.attempts, 0);
    let (reports, outcome) = workers_in_turn(data, 0, 4);
    assert_eq!(found(&outcome), None);
    assert_eq!(reports.len(), 1);
    assert_eq!(reports[0].attempts, 0);
}

#[test]
fn single_candidate_keyspace_takes_one_attempt() {
    let data = archive_with(Some("0"));
    let r = run_single_thread_bruteforce(&data, 1);
    assert_eq!(found(&r.outcome), Some("0"));
    assert_eq!(r.attempts, 1);
    let r = run_single_thread_bruteforce(&archive_with(Some("5")), 1);
    assert_eq!(found(&r.outcome), None);
    assert_eq!(r.attempts, 1);
}
