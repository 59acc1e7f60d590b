//! The outcome of a search over a whole keyspace: combining the reports of the
//! workers that scanned the ranges of its partition in parallel, and the
//! sequential reference scan.
use vstd::prelude::*;
use crate::keyspace::{
    covered, digit_width, format_password, lemma_partition_ranges, partition_ranges, range_count, render,
    width_for,
};
use crate::predicate::{try_password, unlocks};
use crate::worker::{report_holds, none_unlock, WorkerOutcome, WorkerReport};

verus! {

/// The result of a search over a whole keyspace.
#[derive(Debug)]
pub enum SearchOutcome {
    Found(String),
    NotFound,
}

/// What a parallel run hands back once every worker has joined.
#[derive(Debug)]
pub struct ParallelSearch {
    /// One report per range, in range order.
    pub reports: Vec<WorkerReport>,
    pub outcome: SearchOutcome,
}

/// What the sequential scan hands back.
#[derive(Debug)]
pub struct SequentialSearch {
    pub outcome: SearchOutcome,
    /// How many times the decryption predicate was invoked.
    pub attempts: u32,
}

/// Report `i` of `reports` is a success.
pub open spec fn found_at(reports: Seq<WorkerReport>, i: int) -> bool {
    reports[i].outcome is Found
}

/// `outcome` is the password of the first successful report, or `NotFound`
/// when no report is a success.
pub open spec fn outcome_of(reports: Seq<WorkerReport>, outcome: SearchOutcome) -> bool {
    match outcome {
        SearchOutcome::Found(p) => exists|i: int|
            0 <= i < reports.len() && #[trigger] found_at(reports, i) && reports[i].outcome->Found_0@ == p@
                && forall|k: int| 0 <= k < i ==> !#[trigger] found_at(reports, k),
        SearchOutcome::NotFound => forall|i: int| 0 <= i < reports.len() ==> !#[trigger] found_at(reports, i),
    }
}

/// What a parallel run over `[0, upper_bound)` with `worker_count` workers
/// states: one report per range of the partition, each true of its range, and
/// the overall outcome taken from them.
pub open spec fn parallel_holds(s: ParallelSearch, upper_bound: nat, worker_count: nat, archive: Seq<u8>) -> bool {
    &&& s.reports.len() == range_count(upper_bound, worker_count)
    &&& forall|i: int|
        0 <= i < s.reports.len() ==> #[trigger] report_holds(
            s.reports[i],
            i as usize,
            partition_ranges(upper_bound, worker_count)[i].start as nat,
            partition_ranges(upper_bound, worker_count)[i].end as nat,
            width_for(upper_bound),
            archive,
        )
    &&& outcome_of(s.reports@, s.outcome)
}

/// What the sequential scan of `[0, upper_bound)` states: candidates are tried
/// in increasing order, one predicate invocation each, up to the first that
/// opens the archive, or all of them.
pub open spec fn sequential_holds(s: SequentialSearch, upper_bound: nat, archive: Seq<u8>) -> bool {
    let w = width_for(upper_bound);
    &&& s.attempts <= upper_bound
    &&& match s.outcome {
        SearchOutcome::Found(p) => {
            &&& s.attempts >= 1
            &&& p@ == render((s.attempts - 1) as nat, w)
            &&& unlocks(p@, archive)
            &&& none_unlock(archive, w, 0, (s.attempts - 1) as nat)
        },
        SearchOutcome::NotFound => {
            &&& s.attempts == upper_bound
            &&& none_unlock(archive, w, 0, upper_bound)
        },
    }
}

/// The overall outcome of a set of worker reports: the password of the first
/// report that found one, else `NotFound`.
pub fn search_outcome(reports: &Vec<WorkerReport>) -> (r: SearchOutcome)
    ensures
        outcome_of(reports@, r),
{
    let mut i: usize = 0;
    while i < reports.len()
        invariant
            i <= reports.len(),
            forall|k: int| 0 <= k < i ==> !#[trigger] found_at(reports@, k),
        decreases reports.len() - i,
    {
        match &reports[i].outcome {
            WorkerOutcome::Found(p) => {
                let r = SearchOutcome::Found(p.clone());
                assert(found_at(reports@, i as int));
                return r;
            },
            _ => {},
        }
        i = i + 1;
    }
    SearchOutcome::NotFound
}

/// The sequential reference: tries every candidate of `[0, upper_bound)` in
/// increasing order, rendered as the parallel path renders it, and stops at
/// the first one that opens the archive.
pub fn run_single_thread_bruteforce(zip_data: &[u8], upper_bound: u32) -> (r: SequentialSearch)
    ensures
        sequential_holds(r, upper_bound as nat, zip_data@),
{
    let width = digit_width(upper_bound);
    let mut candidate: u32 = 0;
    while candidate < upper_bound
        invariant
            candidate <= upper_bound,
            width == width_for(upper_bound as nat),
            none_unlock(zip_data@, width as nat, 0, candidate as nat),
        decreases upper_bound - candidate,
    {
        let password = format_password(candidate, width);
        if try_password(password.as_str(), zip_data) {
            return SequentialSearch { outcome: SearchOutcome::Found(password), attempts: candidate + 1 };
        }
        candidate = candidate + 1;
    }
    SequentialSearch { outcome: SearchOutcome::NotFound, attempts: upper_bound }
}

/// `password` is the rendering of some candidate of `[0, upper_bound)`.
pub open spec fn in_keyspace(password: Seq<char>, upper_bound: nat) -> bool {
    exists|n: nat| n < upper_bound && #[trigger] render(n, width_for(upper_bound)) == password
}

/// The two searches agree. Suppose that a candidate opens the archive exactly
/// when it renders to `truth`. Whatever password the parallel run reports is
/// `truth`. If `truth` is a candidate of the keyspace, the sequential search
/// reports `Found(truth)`, and so does the parallel run unless one of its
/// workers was stopped early by the signal; if it is not, both report
/// `NotFound`.
pub proof fn lemma_searches_agree(
    archive: Seq<u8>,
    upper_bound: nat,
    worker_count: nat,
    truth: Seq<char>,
    seq_run: SequentialSearch,
    par_run: ParallelSearch,
)
    requires
        worker_count >= 1,
        upper_bound <= u32::MAX,
        sequential_holds(seq_run, upper_bound, archive),
        parallel_holds(par_run, upper_bound, worker_count, archive),
        forall|n: nat|
            n < upper_bound ==> (#[trigger] unlocks(render(n, width_for(upper_bound)), archive) <==> render(
                n,
                width_for(upper_bound),
            ) == truth),
    ensures
        par_run.outcome is Found ==> par_run.outcome->Found_0@ == truth,
        in_keyspace(truth, upper_bound) ==> seq_run.outcome is Found && seq_run.outcome->Found_0@ == truth,
        in_keyspace(truth, upper_bound) && (forall|i: int|
            0 <= i < par_run.reports.len() ==> !(#[trigger] par_run.reports[i].outcome is StoppedEarly))
            ==> par_run.outcome is Found,
        !in_keyspace(truth, upper_bound) ==> seq_run.outcome is NotFound && par_run.outcome is NotFound,
{
    let w = width_for(upper_bound);
    let ranges = partition_ranges(upper_bound, worker_count);
    let reports = par_run.reports@;
    lemma_partition_ranges(upper_bound, worker_count);
    match seq_run.outcome {
        SearchOutcome::Found(p) => {
            assert(unlocks(render((seq_run.attempts - 1) as nat, w), archive));
        },
        SearchOutcome::NotFound => {
            if in_keyspace(truth, upper_bound) {
                let n = choose|n: nat| n < upper_bound && #[trigger] render(n, w) == truth;
                assert(unlocks(render(n, w), archive));
            }
        },
    }
    match par_run.outcome {
        SearchOutcome::Found(p) => {
            let i = choose|i: int|
                0 <= i < reports.len() && #[trigger] found_at(reports, i) && reports[i].outcome->Found_0@ == p@
                    && forall|k: int| 0 <= k < i ==> !#[trigger] found_at(reports, k);
            assert(report_holds(reports[i], i as usize, ranges[i].start as nat, ranges[i].end as nat, w, archive));
            assert(ranges[i].end <= upper_bound);
            let n = (ranges[i].start + reports[i].attempts - 1) as nat;
            assert(unlocks(render(n, w), archive));
        },
        SearchOutcome::NotFound => {
            if in_keyspace(truth, upper_bound) && (forall|i: int|
                0 <= i < par_run.reports.len() ==> !(#[trigger] par_run.reports[i].outcome is StoppedEarly)) {
                let n = choose|n: nat| n < upper_bound && #[trigger] render(n, w) == truth;
                assert(covered(ranges, n));
                let i = choose|i: int| 0 <= i < ranges.len() && #[trigger] ranges[i].start <= n < ranges[i].end;
                assert(report_holds(reports[i], i as usize, ranges[i].start as nat, ranges[i].end as nat, w, archive));
                assert(!found_at(reports, i));
                assert(!(reports[i].outcome is StoppedEarly));
                assert(unlocks(render(n, w), archive));
            }
        },
    }
}

/// The boundary keyspaces: with no candidate, both searches report
/// `NotFound` without invoking the predicate (the parallel run having a single
/// empty range); with one candidate, the sequential search invokes it exactly
/// once.
pub proof fn lemma_boundary_keyspaces(
    archive: Seq<u8>,
    worker_count: nat,
    empty_seq: SequentialSearch,
    empty_par: ParallelSearch,
    single_seq: SequentialSearch,
)
    requires
        worker_count >= 1,
        sequential_holds(empty_seq, 0, archive),
        parallel_holds(empty_par, 0, worker_count, archive),
        sequential_holds(single_seq, 1, archive),
    ensures
        empty_seq.attempts == 0,
        empty_seq.outcome is NotFound,
        empty_par.reports.len() == 1,
        empty_par.reports[0].attempts == 0,
        empty_par.outcome is NotFound,
        single_seq.attempts == 1,
{
    let ranges = partition_ranges(0, worker_count);
    lemma_partition_ranges(0, worker_count);
    assert(report_holds(empty_par.reports[0], 0int as usize, ranges[0].start as nat, ranges[0].end as nat, width_for(0), archive));
    if empty_par.outcome is Found {
        assert(found_at(empty_par.reports@, 0));
    }
}

} // verus!
