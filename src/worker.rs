//! A worker: scans one range of candidates in order, polling a shared stop
//! signal before each attempt, and reports how its scan ended.
use vstd::prelude::*;
use std::sync::atomic::{AtomicBool, Ordering};
use std::time::Instant;
use core::time::Duration;
use crate::keyspace::{format_password, render};
use crate::predicate::{try_password, unlocks};

verus! {

#[verifier::external_type_specification]
#[verifier::external_body]
pub struct ExInstant(Instant);

/// Relies on `Instant::now`: the current instant, of which nothing is assumed.
pub assume_specification[ Instant::now ]() -> Instant;

/// Relies on `Instant::elapsed`: the time since an instant, of which nothing
/// is assumed.
pub assume_specification[ Instant::elapsed ](i: &Instant) -> Duration;

/// How a worker's scan ended.
#[derive(Debug)]
pub enum WorkerOutcome {
    /// The stop signal was seen set before the range was exhausted.
    StoppedEarly,
    /// This password opened the archive; the worker set the stop signal.
    Found(String),
    /// Every candidate of the range was tried without success.
    RangeCompleted,
}

/// The status event a worker hands back when it terminates.
#[derive(Debug)]
pub struct WorkerReport {
    pub thread_id: usize,
    pub outcome: WorkerOutcome,
    /// How many times the decryption predicate was invoked.
    pub attempts: u32,
    pub elapsed: Duration,
}

/// No candidate in `[lo, hi)` opens the archive.
pub open spec fn none_unlock(archive: Seq<u8>, width: nat, lo: nat, hi: nat) -> bool {
    forall|n: nat| lo <= n < hi ==> !#[trigger] unlocks(render(n, width), archive)
}

/// What a report of worker `thread_id` over `[start, end)` states: the
/// candidates were tried in increasing order, one predicate invocation each,
/// and the scan ended on the first success, on the stop signal, or at the end
/// of the range.
pub open spec fn report_holds(
    r: WorkerReport,
    thread_id: usize,
    start: nat,
    end: nat,
    width: nat,
    archive: Seq<u8>,
) -> bool {
    &&& r.thread_id == thread_id
    &&& start + r.attempts <= end
    &&& match r.outcome {
        WorkerOutcome::Found(p) => {
            &&& r.attempts >= 1
            &&& p@ == render((start + r.attempts - 1) as nat, width)
            &&& unlocks(p@, archive)
            &&& none_unlock(archive, width, start, (start + r.attempts - 1) as nat)
        },
        WorkerOutcome::StoppedEarly => {
            &&& start + r.attempts < end
            &&& none_unlock(archive, width, start, (start + r.attempts) as nat)
        },
        WorkerOutcome::RangeCompleted => {
            &&& start + r.attempts == end
            &&& none_unlock(archive, width, start, end)
        },
    }
}

/// Reads the stop signal (relaxed): whether some worker has found the password.
pub fn should_stop(password_found: &AtomicBool) -> bool {
    password_found.load(Ordering::Relaxed)
}

/// Sets the stop signal (relaxed). Nothing in this library ever clears it.
pub fn mark_password_found(password_found: &AtomicBool) {
    password_found.store(true, Ordering::Relaxed)
}

/// Scans `[range_start, range_end)` in increasing order. Before each attempt
/// the stop signal is read and the scan ends if it is set; each candidate is
/// rendered to `width` digits and handed to the decryption predicate; on the
/// first success the stop signal is set and the scan ends.
pub fn bruteforce_password_range(
    thread_id: usize,
    range_start: u32,
    range_end: u32,
    width: usize,
    zip_data: &[u8],
    password_found: &AtomicBool,
) -> (r: WorkerReport)
    requires
        range_start <= range_end,
    ensures
        report_holds(r, thread_id, range_start as nat, range_end as nat, width as nat, zip_data@),
{
    let start_time = Instant::now();
    let mut candidate: u32 = range_start;
    while candidate < range_end
        invariant
            range_start <= candidate <= range_end,
            none_unlock(zip_data@, width as nat, range_start as nat, candidate as nat),
        decreases range_end - candidate,
    {
        if should_stop(password_found) {
            return WorkerReport {
                thread_id,
                outcome: WorkerOutcome::StoppedEarly,
                attempts: candidate - range_start,
                elapsed: start_time.elapsed(),
            };
        }
        let password = format_password(candidate, width);
        if try_password(password.as_str(), zip_data) {
            mark_password_found(password_found);
            return WorkerReport {
                thread_id,
                outcome: WorkerOutcome::Found(password),
                attempts: candidate - range_start + 1,
                elapsed: start_time.elapsed(),
            };
        }
        candidate = candidate + 1;
    }
    WorkerReport {
        thread_id,
        outcome: WorkerOutcome::RangeCompleted,
        attempts: range_end - range_start,
        elapsed: start_time.elapsed(),
    }
}

} // verus!
