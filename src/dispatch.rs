use vstd::prelude::*;

verus! {

/// Elements below which a recurrence filter runs as one sequential pass.
pub const FILTER_SEQUENTIAL_THRESHOLD: usize = 2048;

/// Samples per task of a parallel recurrence filter.
pub const FILTER_CHUNK: usize = 65536;

/// Samples re-run before a chunk to rebuild a recurrence filter's state.
pub const FILTER_WARMUP: usize = 128;

/// Elements below which deconvolution runs sequentially.
pub const DECONVOLUTION_SEQUENTIAL_THRESHOLD: usize = 2048;

/// Smallest share of a deconvolution pass handed to one task.
pub const DECONVOLUTION_MIN_CHUNK: usize = 8192;

/// Stage width below which FFT butterflies run as one sequential pass.
pub const FFT_SEQUENTIAL_THRESHOLD: usize = 2048;

/// Elements below which an elementwise or reduction kernel runs sequentially.
pub const ELEMENTWISE_SEQUENTIAL_THRESHOLD: usize = 4096;

/// Smallest share of an elementwise or reduction kernel handed to one task.
pub const ELEMENTWISE_MIN_CHUNK: usize = 4096;

/// How one kernel invocation is executed.
#[derive(Clone, Copy, Debug, PartialEq, Eq, Structural)]
pub enum Dispatch {
    /// One pass over the whole range on the calling thread.
    Sequential,
    /// Tasks of `chunk_size` consecutive elements each (the last may be shorter).
    Parallel { chunk_size: usize },
}

/// The tuning pair of one kernel: below `sequential_threshold` elements the
/// kernel runs sequentially; above it no task gets fewer than `min_chunk`
/// elements.
#[derive(Clone, Copy, Debug, PartialEq, Eq, Structural)]
pub struct Policy {
    pub sequential_threshold: usize,
    pub min_chunk: usize,
}

impl Policy {
    /// A policy is usable when a task has at least one element to do.
    pub open spec fn wf(self) -> bool {
        self.min_chunk >= 1
    }

    pub fn new(sequential_threshold: usize, min_chunk: usize) -> (r: Policy)
        requires
            min_chunk >= 1,
        ensures
            r.sequential_threshold == sequential_threshold,
            r.min_chunk == min_chunk,
            r.wf(),
    {
        Policy { sequential_threshold, min_chunk }
    }

    /// The policy of recurrence filters, whose tasks are chunks of `FILTER_CHUNK` samples.
    pub fn filter() -> (r: Policy)
        ensures
            r.sequential_threshold == FILTER_SEQUENTIAL_THRESHOLD,
            r.min_chunk == FILTER_CHUNK,
            r.wf(),
    {
        Policy::new(FILTER_SEQUENTIAL_THRESHOLD, FILTER_CHUNK)
    }

    pub fn deconvolution() -> (r: Policy)
        ensures
            r.sequential_threshold == DECONVOLUTION_SEQUENTIAL_THRESHOLD,
            r.min_chunk == DECONVOLUTION_MIN_CHUNK,
            r.wf(),
    {
        Policy::new(DECONVOLUTION_SEQUENTIAL_THRESHOLD, DECONVOLUTION_MIN_CHUNK)
    }

    /// The policy of radix-2 transforms, decided on the transform length.
    pub fn transform() -> (r: Policy)
        ensures
            r.sequential_threshold == FFT_SEQUENTIAL_THRESHOLD,
            r.min_chunk == 1,
            r.wf(),
    {
        Policy::new(FFT_SEQUENTIAL_THRESHOLD, 1)
    }

    pub fn elementwise() -> (r: Policy)
        ensures
            r.sequential_threshold == ELEMENTWISE_SEQUENTIAL_THRESHOLD,
            r.min_chunk == ELEMENTWISE_MIN_CHUNK,
            r.wf(),
    {
        Policy::new(ELEMENTWISE_SEQUENTIAL_THRESHOLD, ELEMENTWISE_MIN_CHUNK)
    }
}

/// The decision for `n` elements under `policy` with `workers` workers.
pub open spec fn decision(n: nat, policy: Policy, workers: nat) -> Dispatch
    recommends
        workers >= 1,
{
    if n < policy.sequential_threshold {
        Dispatch::Sequential
    } else {
        let share = n / workers;
        Dispatch::Parallel {
            chunk_size: if share < policy.min_chunk { policy.min_chunk } else { share as usize },
        }
    }
}

/// Chooses between sequential and parallel execution for `n` elements on a
/// pool of `workers` workers.
pub fn decide(n: usize, policy: Policy, workers: usize) -> (r: Dispatch)
    requires
        workers >= 1,
    ensures
        r == decision(n as nat, policy, workers as nat),
        policy.wf() ==> (r matches Dispatch::Parallel { chunk_size } ==> chunk_size >= 1),
{
    if n < policy.sequential_threshold {
        Dispatch::Sequential
    } else {
        let share = n / workers;
        let chunk_size = if share < policy.min_chunk { policy.min_chunk } else { share };
        Dispatch::Parallel { chunk_size }
    }
}

/// Relies on rayon::current_num_threads: the size of the current worker pool,
/// which rayon builds with at least one thread.
#[verifier::external_body]
fn pool_size() -> (r: usize)
    ensures
        r >= 1,
{
    rayon::current_num_threads()
}

/// The decision for `n` elements on the current worker pool, whatever its size.
pub fn plan(n: usize, policy: Policy) -> (r: Dispatch)
    ensures
        exists|w: nat| w >= 1 && r == decision(n as nat, policy, w),
        n < policy.sequential_threshold <==> r == Dispatch::Sequential,
        policy.wf() ==> (r matches Dispatch::Parallel { chunk_size } ==> chunk_size >= policy.min_chunk),
{
    let workers = pool_size();
    decide(n, policy, workers)
}

} // verus!
