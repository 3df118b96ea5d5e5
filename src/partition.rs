//! Static division of an image's rows among a fixed number of workers.
use vstd::arithmetic::div_mod::lemma_fundamental_div_mod;
use vstd::prelude::*;

verus! {

/// First row of worker `i` when `total` rows are split among `n` workers.
pub open spec fn rows_start(total: int, n: int, i: int) -> int {
    i * (total / n)
}

/// One past the last row of worker `i`; the last worker takes the remainder.
pub open spec fn rows_end(total: int, n: int, i: int) -> int {
    if i == n - 1 {
        total
    } else {
        (i + 1) * (total / n)
    }
}

/// Rows below this are finished once the first `i` workers have written.
pub open spec fn rows_done(total: int, n: int, i: int) -> int {
    if i < n {
        rows_start(total, n, i)
    } else {
        total
    }
}

/// The ranges of consecutive workers are adjacent, ordered, and together
/// cover `[0, total)`.
pub proof fn lemma_partition_covers(total: int, n: int, i: int)
    requires
        0 <= total,
        1 <= n,
        0 <= i < n,
    ensures
        rows_start(total, n, 0) == 0,
        rows_end(total, n, n - 1) == total,
        0 <= rows_start(total, n, i) <= rows_end(total, n, i) <= total,
        i + 1 < n ==> rows_start(total, n, i + 1) == rows_end(total, n, i),
{
    let q = total / n;
    lemma_fundamental_div_mod(total, n);
    assert(0 <= total % n);
    assert(q >= 0) by (nonlinear_arith)
        requires total >= 0, n >= 1, q == total / n;
    assert(n * q <= total);
    assert(i * q <= (i + 1) * q <= n * q) by (nonlinear_arith)
        requires q >= 0, 0 <= i < n;
    assert(0 <= i * q) by (nonlinear_arith)
        requires q >= 0, 0 <= i;
}

/// The rows `[start, end)` assigned to `worker` out of `num_workers`.
pub fn row_range(total_rows: usize, num_workers: usize, worker: usize) -> (r: (usize, usize))
    requires
        1 <= num_workers,
        worker < num_workers,
    ensures
        r.0 == rows_start(total_rows as int, num_workers as int, worker as int),
        r.1 == rows_end(total_rows as int, num_workers as int, worker as int),
        r.0 <= r.1 <= total_rows,
{
    proof {
        lemma_partition_covers(total_rows as int, num_workers as int, worker as int);
    }
    let per_worker = total_rows / num_workers;
    let start = worker * per_worker;
    let end = if worker == num_workers - 1 {
        total_rows
    } else {
        (worker + 1) * per_worker
    };
    (start, end)
}

} // verus!
