//! Sharing the runs of a benchmark out among workers.

use vstd::prelude::*;

verus! {

/// The number of workers for `benchmark` runs when `threads` are asked for:
/// at least one, and where more are asked for than there are runs, one for
/// each run, up to 256.
pub open spec fn workers_for(benchmark: u32, threads: u32) -> u32 {
    let wanted = if threads < 1 {
        1u32
    } else {
        threads
    };
    if wanted <= benchmark {
        wanted
    } else if benchmark < 256 {
        benchmark
    } else {
        256u32
    }
}

/// The largest number of runs that one worker gets: the runs divided by the
/// workers, rounded up.
pub open spec fn share(benchmark: nat, workers: nat) -> nat {
    ((benchmark + workers - 1) / workers as int) as nat
}

/// The runs that the workers before worker `w` take together.
pub open spec fn runs_before(benchmark: nat, workers: nat, w: nat) -> nat {
    if w * share(benchmark, workers) < benchmark {
        w * share(benchmark, workers)
    } else {
        benchmark
    }
}

/// The runs of worker `w`: a full share while runs are left, what is left
/// where that is less, and for the last worker all that is left.
pub open spec fn runs_of(benchmark: nat, workers: nat, w: nat) -> nat {
    if w + 1 < workers {
        (runs_before(benchmark, workers, w + 1) - runs_before(benchmark, workers, w)) as nat
    } else {
        (benchmark - runs_before(benchmark, workers, w)) as nat
    }
}

/// The runs of the first `n` workers together.
pub open spec fn runs_of_first(benchmark: nat, workers: nat, n: nat) -> nat
    decreases n,
{
    if n == 0 {
        0
    } else {
        runs_of_first(benchmark, workers, (n - 1) as nat) + runs_of(
            benchmark,
            workers,
            (n - 1) as nat,
        )
    }
}

/// The workers share out all the runs: what they get adds up to `benchmark`.
pub proof fn runs_add_up(benchmark: nat, workers: nat)
    requires
        workers >= 1,
    ensures
        runs_of_first(benchmark, workers, workers) == benchmark,
{
    lemma_runs_of_first(benchmark, workers, (workers - 1) as nat);
}

/// The first `n` workers, the last not among them, take what stands before
/// worker `n`.
pub proof fn lemma_runs_of_first(benchmark: nat, workers: nat, n: nat)
    requires
        n < workers,
    ensures
        runs_of_first(benchmark, workers, n) == runs_before(benchmark, workers, n),
    decreases n,
{
    let per = share(benchmark, workers);
    if n > 0 {
        lemma_runs_of_first(benchmark, workers, (n - 1) as nat);
        assert((n - 1) * per <= n * per) by (nonlinear_arith)
            requires
                n >= 1,
                per >= 0,
        ;
    } else {
        assert(0 * per == 0);
    }
}

/// Settles the number of workers for `benchmark` runs when `threads` are
/// asked for.
pub fn worker_count(benchmark: u32, threads: u32) -> (workers: u32)
    ensures
        workers == workers_for(benchmark, threads),
{
    let wanted: u32 = if threads < 1 {
        1
    } else {
        threads
    };
    if wanted <= benchmark {
        wanted
    } else if benchmark < 256 {
        benchmark
    } else {
        256
    }
}

/// Computes the runs of worker `w` of `workers`.
pub fn runs_for_worker(benchmark: u32, workers: u32, w: u32) -> (runs: u32)
    requires
        w < workers,
    ensures
        runs == runs_of(benchmark as nat, workers as nat, w as nat),
{
    let per: u64 = (benchmark as u64 + workers as u64 - 1) / workers as u64;
    assert(per == share(benchmark as nat, workers as nat));
    assert(per <= benchmark) by (nonlinear_arith)
        requires
            per == (benchmark + workers - 1) / workers as int,
            workers >= 1,
            benchmark >= 0,
    ;
    assert(w * per <= 0xffff_ffff * 0xffff_ffff) by (nonlinear_arith)
        requires
            0 <= w <= 0xffff_ffff,
            0 <= per <= 0xffff_ffff,
    ;
    let taken: u64 = w as u64 * per;
    let before: u64 = if taken < benchmark as u64 {
        taken
    } else {
        benchmark as u64
    };
    let left: u64 = benchmark as u64 - before;
    if w < workers - 1 && per < left {
        assert((w + 1) * per == w * per + per) by (nonlinear_arith);
        per as u32
    } else {
        assert((w + 1) * per == w * per + per) by (nonlinear_arith);
        left as u32
    }
}

} // verus!
