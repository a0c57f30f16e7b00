//! The partition of the covariance work: which worker computes which rows.
//!
//! The rows `0..n` are cut into `workers` consecutive ranges of
//! `ceil(n / workers)` rows each; the last ranges are shorter, or empty,
//! where the rows run out. No row belongs to two workers and none to no
//! worker, so the workers never write to the same cell.

use vstd::prelude::*;
use crate::error::EmbeddingError;

verus! {

/// The number of rows that a full range holds: `n / workers`, rounded up.
/// Without workers it is zero.
pub open spec fn range_length(n: nat, workers: nat) -> nat {
    if workers == 0 {
        0
    } else {
        (n + workers - 1) as nat / workers
    }
}

/// The smaller of two numbers.
pub open spec fn least(a: nat, b: nat) -> nat {
    if a <= b {
        a
    } else {
        b
    }
}

/// The first row of the range of `worker`.
pub open spec fn range_start(worker: nat, n: nat, workers: nat) -> nat {
    least(worker * range_length(n, workers), n)
}

/// The row after the last row of the range of `worker`.
pub open spec fn range_end(worker: nat, n: nat, workers: nat) -> nat {
    least((worker + 1) * range_length(n, workers), n)
}

/// Whether `row` belongs to the range of `worker`.
pub open spec fn owns(worker: nat, row: nat, n: nat, workers: nat) -> bool {
    range_start(worker, n, workers) <= row < range_end(worker, n, workers)
}

/// The worker that computes `row`.
pub open spec fn owner(row: nat, n: nat, workers: nat) -> nat {
    row / range_length(n, workers)
}

/// A range of rows: `start` is its first row, `end` the row after its last.
#[derive(Clone, Copy, Debug, PartialEq, Eq, Structural)]
pub struct RowRange {
    pub start: usize,
    pub end: usize,
}

impl RowRange {
    /// Whether the range is the one of `worker` among `workers` over `n` rows.
    pub open spec fn is_range_of(&self, worker: nat, n: nat, workers: nat) -> bool {
        &&& self.start == range_start(worker, n, workers)
        &&& self.end == range_end(worker, n, workers)
    }
}

/// The length of a full range is the least number of rows per worker with
/// which `workers` workers cover `n` rows.
pub proof fn lemma_range_length_is_ceiling(n: nat, workers: nat)
    requires
        workers >= 1,
    ensures
        range_length(n, workers) * workers >= n,
        n >= 1 ==> range_length(n, workers) >= 1 && (range_length(n, workers) - 1) * workers < n,
        n == 0 ==> range_length(n, workers) == 0,
        range_length(n, workers) <= n,
{
    let c = range_length(n, workers);
    let x = (n + workers - 1) as int;
    let w = workers as int;
    assert(x == w * (x / w) + x % w && 0 <= x % w < w) by (nonlinear_arith)
        requires
            w >= 1,
            x >= 0,
    ;
    assert(c * workers >= n) by (nonlinear_arith)
        requires
            c == x / w,
            x == w * (x / w) + x % w,
            x % w < w,
            x == n + w - 1,
            workers == w,
    ;
    if n >= 1 {
        assert(c >= 1 && (c - 1) * workers < n) by (nonlinear_arith)
            requires
                c == x / w,
                x == w * (x / w) + x % w,
                0 <= x % w,
                x == n + w - 1,
                workers == w,
                w >= 1,
                n >= 1,
        ;
        assert(c <= n) by (nonlinear_arith)
            requires
                (c - 1) * workers < n,
                workers >= 1,
                c >= 1,
        ;
    } else {
        assert(c == 0) by (nonlinear_arith)
            requires
                c == x / w,
                x == w * (x / w) + x % w,
                0 <= x % w,
                x == w - 1,
                w >= 1,
                c >= 0,
        ;
    }
}

/// The ranges follow one another from row 0 to row `n`: the first starts
/// at 0, each ends where the next starts, and the last ends at `n`.
pub proof fn lemma_ranges_are_consecutive(worker: nat, n: nat, workers: nat)
    requires
        workers >= 1,
        worker < workers,
    ensures
        range_start(0, n, workers) == 0,
        range_start(worker, n, workers) <= range_end(worker, n, workers) <= n,
        range_end(worker, n, workers) == range_start(worker + 1, n, workers),
        range_end((workers - 1) as nat, n, workers) == n,
{
    let c = range_length(n, workers);
    lemma_range_length_is_ceiling(n, workers);
    assert(worker * c <= (worker + 1) * c) by (nonlinear_arith);
    assert(0 * c == 0) by (nonlinear_arith);
    assert((workers - 1 + 1) * c == c * workers) by (nonlinear_arith);
}

/// Every row has exactly one worker: `owner` names a worker whose range
/// holds the row, and no other worker's range does.
pub proof fn lemma_every_row_has_one_owner(row: nat, n: nat, workers: nat)
    requires
        workers >= 1,
        row < n,
    ensures
        owner(row, n, workers) < workers,
        owns(owner(row, n, workers), row, n, workers),
        forall|worker: nat| #[trigger]
            owns(worker, row, n, workers) ==> worker == owner(row, n, workers),
{
    let c = range_length(n, workers);
    lemma_range_length_is_ceiling(n, workers);
    let k = owner(row, n, workers);
    let ci = c as int;
    let ri = row as int;
    assert(ri == ci * (ri / ci) + ri % ci && 0 <= ri % ci < ci) by (nonlinear_arith)
        requires
            ci >= 1,
            ri >= 0,
    ;
    assert(k * c <= row < (k + 1) * c) by (nonlinear_arith)
        requires
            k == ri / ci,
            ri == ci * (ri / ci) + ri % ci,
            0 <= ri % ci < ci,
            row == ri,
            c == ci,
    ;
    if k >= workers {
        assert(k * c >= workers * c) by (nonlinear_arith)
            requires
                k >= workers,
                c >= 0,
        ;
        assert(workers * c == c * workers) by (nonlinear_arith);
    }
    assert forall|worker: nat| #[trigger] owns(worker, row, n, workers) implies worker == k by {
        assert(worker * c <= row < (worker + 1) * c);
        if worker < k {
            assert((worker + 1) * c <= k * c) by (nonlinear_arith)
                requires
                    worker + 1 <= k,
                    c >= 0,
            ;
        }
        if worker > k {
            assert((k + 1) * c <= worker * c) by (nonlinear_arith)
                requires
                    k + 1 <= worker,
                    c >= 0,
            ;
        }
    }
}

/// The number of rows in the range of `worker`.
pub open spec fn range_rows(worker: nat, n: nat, workers: nat) -> nat {
    (range_end(worker, n, workers) - range_start(worker, n, workers)) as nat
}

/// Whether every worker has reported, each with as many rows as its range
/// holds, and the workers were enough to hold all rows. A worker that
/// failed reports `None`.
pub open spec fn all_rows_delivered(reports: Seq<Option<usize>>, n: nat, workers: nat) -> bool {
    &&& reports.len() == workers
    &&& workers == 0 ==> n == 0
    &&& forall|k: int|
        0 <= k < workers ==> #[trigger] reports[k] == Some(range_rows(k as nat, n, workers) as usize)
}

/// The number of rows that the first `k` workers report; a failed worker
/// counts for none.
pub open spec fn rows_reported(reports: Seq<Option<usize>>, k: nat) -> nat
    decreases k,
{
    if k == 0 {
        0
    } else {
        rows_reported(reports, (k - 1) as nat) + match reports[k - 1] {
            Some(rows) => rows as nat,
            None => 0,
        }
    }
}

/// Workers that all deliver their ranges have delivered the rows up to the
/// start of the next range.
proof fn lemma_rows_reported_reach_start(
    reports: Seq<Option<usize>>,
    n: nat,
    workers: nat,
    k: nat,
)
    requires
        all_rows_delivered(reports, n, workers),
        n <= usize::MAX,
        k <= workers,
    ensures
        rows_reported(reports, k) == range_start(k, n, workers),
    decreases k,
{
    if k == 0 {
        assert(0 * range_length(n, workers) == 0) by (nonlinear_arith);
    } else {
        lemma_rows_reported_reach_start(reports, n, workers, (k - 1) as nat);
        lemma_ranges_are_consecutive((k - 1) as nat, n, workers);
        assert(reports[k - 1] == Some(range_rows((k - 1) as nat, n, workers) as usize));
    }
}

/// Where all rows were delivered, the workers' reports add up to `n` rows:
/// no part of the matrix is missing.
pub proof fn lemma_delivered_rows_are_all_rows(reports: Seq<Option<usize>>, n: nat, workers: nat)
    requires
        all_rows_delivered(reports, n, workers),
        n <= usize::MAX,
    ensures
        rows_reported(reports, workers) == n,
{
    lemma_rows_reported_reach_start(reports, n, workers, workers);
    if workers >= 1 {
        lemma_ranges_are_consecutive((workers - 1) as nat, n, workers);
    }
}

/// The number of rows in a full range: `n / workers`, rounded up.
pub fn rows_per_worker(n: usize, workers: usize) -> (rows: usize)
    ensures
        rows == range_length(n as nat, workers as nat),
{
    if workers == 0 {
        return 0;
    }
    let quotient: usize = n / workers;
    let rest: usize = n % workers;
    proof {
        let x = (n + workers - 1) as int;
        let w = workers as int;
        let q = quotient as int;
        let r = rest as int;
        assert(n == w * q + r && 0 <= r < w) by (nonlinear_arith)
            requires
                q == (n as int) / w,
                r == (n as int) % w,
                w >= 1,
                n >= 0,
        ;
        if r == 0 {
            assert(x / w == q) by (nonlinear_arith)
                requires
                    x == w * q + (w - 1),
                    w >= 1,
            ;
        } else {
            assert(w * (q + 1) == w * q + w) by (nonlinear_arith);
            assert(x / w == q + 1) by (nonlinear_arith)
                requires
                    x == w * (q + 1) + (r - 1),
                    0 <= r - 1 < w,
                    w >= 1,
            ;
            assert(q + 1 <= n) by (nonlinear_arith)
                requires
                    n == w * q + r,
                    r >= 1,
                    w >= 1,
                    q >= 0,
            ;
        }
    }
    if rest == 0 {
        quotient
    } else {
        quotient + 1
    }
}

/// `factor * length`, or `n` where that is smaller.
fn capped_multiple(factor: usize, length: usize, n: usize) -> (bound: usize)
    ensures
        bound == least(factor as nat * length as nat, n as nat),
{
    if length == 0 {
        assert(factor as nat * 0 == 0) by (nonlinear_arith);
        return 0;
    }
    let whole: usize = n / length;
    proof {
        let l = length as int;
        let m = n as int;
        assert(m == l * (m / l) + m % l && 0 <= m % l < l) by (nonlinear_arith)
            requires
                l >= 1,
                m >= 0,
        ;
    }
    if factor <= whole {
        assert(factor * length <= n) by (nonlinear_arith)
            requires
                factor <= whole,
                n == length * whole + n % length,
                0 <= n % length,
                length >= 1,
        ;
        factor * length
    } else {
        assert(factor * length > n) by (nonlinear_arith)
            requires
                factor >= whole + 1,
                n == length * whole + n % length,
                n % length < length,
                length >= 1,
        ;
        n
    }
}

/// The range of rows that `worker` computes.
pub fn worker_rows(worker: usize, n: usize, workers: usize) -> (range: RowRange)
    requires
        worker < workers,
    ensures
        range.is_range_of(worker as nat, n as nat, workers as nat),
        range.start <= range.end <= n,
{
    let length: usize = rows_per_worker(n, workers);
    let start: usize = capped_multiple(worker, length, n);
    let end: usize = capped_multiple(worker + 1, length, n);
    proof {
        lemma_ranges_are_consecutive(worker as nat, n as nat, workers as nat);
    }
    RowRange { start, end }
}

/// The ranges of all workers, in order. Without workers there is none.
pub fn partition_rows(n: usize, workers: usize) -> (ranges: Vec<RowRange>)
    ensures
        ranges@.len() == workers,
        forall|k: int|
            0 <= k < workers ==> (#[trigger] ranges@[k]).is_range_of(
                k as nat,
                n as nat,
                workers as nat,
            ),
        forall|row: nat|
            row < n && workers >= 1 ==> #[trigger] owner(row, n as nat, workers as nat) < workers
                && ranges@[owner(row, n as nat, workers as nat) as int].start <= row
                < ranges@[owner(row, n as nat, workers as nat) as int].end,
{
    let mut ranges: Vec<RowRange> = Vec::new();
    let mut k: usize = 0;
    while k < workers
        invariant
            k <= workers,
            ranges@.len() == k,
            forall|a: int|
                0 <= a < k ==> (#[trigger] ranges@[a]).is_range_of(
                    a as nat,
                    n as nat,
                    workers as nat,
                ),
        decreases workers - k,
    {
        let range: RowRange = worker_rows(k, n, workers);
        ranges.push(range);
        k = k + 1;
    }
    proof {
        assert forall|row: nat| row < n && workers >= 1 implies #[trigger] owner(
            row,
            n as nat,
            workers as nat,
        ) < workers && ranges@[owner(row, n as nat, workers as nat) as int].start <= row
            < ranges@[owner(row, n as nat, workers as nat) as int].end by {
            lemma_every_row_has_one_owner(row, n as nat, workers as nat);
        }
    }
    ranges
}


/// Decides, once all workers have ended, whether their rows make up the
/// whole matrix. `reports[k]` is the number of rows that worker `k`
/// delivered, or `None` where it failed. A worker that failed, or that
/// delivered another number of rows than its range holds, fails the whole
/// computation, and so do rows without any worker.
pub fn join_workers(reports: &Vec<Option<usize>>, n: usize, workers: usize) -> (result: Result<
    (),
    EmbeddingError,
>)
    ensures
        result is Ok <==> all_rows_delivered(reports@, n as nat, workers as nat),
        result is Err ==> result == Err::<(), EmbeddingError>(EmbeddingError::ConcurrencyFailure),
{
    if reports.len() != workers || (workers == 0 && n != 0) {
        return Err(EmbeddingError::ConcurrencyFailure);
    }
    let mut k: usize = 0;
    while k < workers
        invariant
            k <= workers,
            reports@.len() == workers,
            forall|a: int|
                0 <= a < k ==> #[trigger] reports@[a] == Some(
                    range_rows(a as nat, n as nat, workers as nat) as usize,
                ),
        decreases workers - k,
    {
        let range: RowRange = worker_rows(k, n, workers);
        let expected: usize = range.end - range.start;
        match reports[k] {
            Some(rows) => {
                if rows != expected {
                    return Err(EmbeddingError::ConcurrencyFailure);
                }
            },
            None => {
                return Err(EmbeddingError::ConcurrencyFailure);
            },
        }
        k = k + 1;
    }
    Ok(())
}

} // verus!
