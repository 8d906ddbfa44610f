use vstd::prelude::*;
use crate::partition::{chunk_count, chunk_start, chunk_end, lemma_chunk_arith};

verus! {

/// One task of a chunked recurrence filter: run the recurrence over
/// `[warm_start, start)` and discard the outputs, then produce the outputs of
/// `[start, end)`.
#[derive(Clone, Copy, Debug, PartialEq, Eq, Structural)]
pub struct FilterChunk {
    pub warm_start: usize,
    pub start: usize,
    pub end: usize,
}

/// The start of the warm-up window before a chunk at `start`: at most
/// `warmup` samples back, and never before the first sample.
pub open spec fn warm_start_of(start: nat, warmup: nat) -> nat {
    if start > warmup {
        (start - warmup) as nat
    } else {
        0
    }
}

pub open spec fn filter_chunk_of(n: nat, chunk: nat, warmup: nat, k: nat) -> FilterChunk {
    FilterChunk {
        warm_start: warm_start_of(chunk_start(chunk, k), warmup) as usize,
        start: chunk_start(chunk, k) as usize,
        end: chunk_end(n, chunk, k) as usize,
    }
}

/// The tasks of a chunked recurrence filter over `n` samples: consecutive
/// chunks of `chunk` samples, each preceded by a warm-up window of
/// `min(start, warmup)` samples.
pub fn filter_chunks(n: usize, chunk: usize, warmup: usize) -> (r: Vec<FilterChunk>)
    requires
        chunk >= 1,
    ensures
        r@.len() == chunk_count(n as nat, chunk as nat),
        forall|k: int|
            0 <= k < r@.len() ==> #[trigger] r@[k] == filter_chunk_of(
                n as nat,
                chunk as nat,
                warmup as nat,
                k as nat,
            ),
        forall|k: int|
            0 <= k < r@.len() ==> {
                let c = #[trigger] r@[k];
                &&& c.warm_start <= c.start < c.end <= n
                &&& c.start - c.warm_start == if c.start < warmup { c.start as int } else { warmup as int }
            },
{
    proof {
        lemma_chunk_arith(n as nat, chunk as nat);
    }
    let ghost count = chunk_count(n as nat, chunk as nat);
    let mut r: Vec<FilterChunk> = Vec::new();
    let mut start: usize = 0;
    let ghost mut k: nat = 0;
    while start < n
        invariant
            chunk >= 1,
            k <= count,
            k < count ==> start == k * chunk && start < n,
            k == count ==> start == n,
            r@.len() == k,
            forall|j: int|
                0 <= j < k ==> #[trigger] r@[j] == filter_chunk_of(
                    n as nat,
                    chunk as nat,
                    warmup as nat,
                    j as nat,
                ),
            forall|j: int|
                0 <= j < k ==> {
                    let c = #[trigger] r@[j];
                    &&& c.warm_start <= c.start < c.end <= n
                    &&& c.start - c.warm_start == if c.start < warmup { c.start as int } else { warmup as int }
                },
            forall|j: nat| j < count ==> #[trigger] chunk_start(chunk as nat, j) < n,
            count * chunk >= n,
            count == chunk_count(n as nat, chunk as nat),
        decreases n - start,
    {
        let end = if n - start > chunk { start + chunk } else { n };
        proof {
            if k + 1 < count {
                assert(chunk_start(chunk as nat, (k + 1) as nat) < n);
            }
            assert((k + 1) * chunk == start + chunk) by (nonlinear_arith)
                requires
                    start == k * chunk,
            ;
            if k + 1 >= count {
                assert((k + 1) * chunk >= n) by (nonlinear_arith)
                    requires
                        k + 1 == count,
                        count * chunk >= n,
                ;
            }
            assert(end == chunk_end(n as nat, chunk as nat, k));
        }
        let warm_start = if start > warmup { start - warmup } else { 0 };
        r.push(FilterChunk { warm_start, start, end });
        start = end;
        proof {
            k = k + 1;
        }
    }
    r
}

} // verus!
