use vstd::prelude::*;
use vstd::arithmetic::div_mod::lemma_fundamental_div_mod;
use crate::dispatch::Dispatch;

verus! {

/// The half-open index range `[start, end)` given to one task.
#[derive(Clone, Copy, Debug, PartialEq, Eq, Structural)]
pub struct Span {
    pub start: usize,
    pub end: usize,
}

/// How many chunks of `chunk` elements cover `[0, n)`.
pub open spec fn chunk_count(n: nat, chunk: nat) -> nat
    recommends
        chunk >= 1,
{
    ((n + chunk - 1) / chunk as int) as nat
}

/// The first index of chunk `k`.
pub open spec fn chunk_start(chunk: nat, k: nat) -> nat {
    k * chunk
}

/// One past the last index of chunk `k`: the next chunk's start, or `n`.
pub open spec fn chunk_end(n: nat, chunk: nat, k: nat) -> nat {
    if (k + 1) * chunk < n {
        (k + 1) * chunk
    } else {
        n
    }
}

/// The chunk that index `i` falls in.
pub open spec fn chunk_of_index(chunk: nat, i: nat) -> nat
    recommends
        chunk >= 1,
{
    i / chunk
}

/// Index `i` lies in chunk `k`.
pub open spec fn in_chunk(n: nat, chunk: nat, k: nat, i: nat) -> bool {
    chunk_start(chunk, k) <= i < chunk_end(n, chunk, k)
}

/// Index `i` lies in some chunk of the division of `[0, n)`.
pub open spec fn covered(n: nat, chunk: nat, i: nat) -> bool {
    exists|k: nat| k < chunk_count(n, chunk) && #[trigger] in_chunk(n, chunk, k, i)
}

/// The span of chunk `k`.
pub open spec fn span_of(n: nat, chunk: nat, k: nat) -> Span {
    Span { start: chunk_start(chunk, k) as usize, end: chunk_end(n, chunk, k) as usize }
}

/// Index `i` lies in span `s`.
pub open spec fn in_span(s: Span, i: int) -> bool {
    s.start <= i < s.end
}

/// The spans divide `[0, n)`: each is non-empty and inside the range, they
/// come in order without overlap, and every index lies in one of them.
pub open spec fn tiles(spans: Seq<Span>, n: nat) -> bool {
    &&& forall|k: int| 0 <= k < spans.len() ==> #[trigger] spans[k].start < spans[k].end <= n
    &&& forall|k1: int, k2: int|
        0 <= k1 < k2 < spans.len() ==> #[trigger] spans[k1].end <= #[trigger] spans[k2].start
    &&& forall|i: int| 0 <= i < n ==> #[trigger] spans_cover(spans, i)
}

/// Index `i` lies in one of the spans.
pub open spec fn spans_cover(spans: Seq<Span>, i: int) -> bool {
    exists|k: int| 0 <= k < spans.len() && #[trigger] in_span(spans[k], i)
}

/// The chunk length that a dispatch decision implies for `n` elements: the
/// whole range when sequential.
pub open spec fn chunk_len_of(n: nat, d: Dispatch) -> nat {
    match d {
        Dispatch::Sequential => if n == 0 { 1 } else { n },
        Dispatch::Parallel { chunk_size } => chunk_size as nat,
    }
}

pub open spec fn dispatch_ok(d: Dispatch) -> bool {
    d matches Dispatch::Parallel { chunk_size } ==> chunk_size >= 1
}

/// The arithmetic facts behind chunking: a chunk before the last starts inside
/// the range, the chunks reach `n`, and each index lies in the chunk `i / chunk`.
pub proof fn lemma_chunk_arith(n: nat, chunk: nat)
    requires
        chunk >= 1,
    ensures
        chunk_count(n, chunk) * chunk >= n,
        n > 0 ==> chunk_count(n, chunk) >= 1,
        n == 0 ==> chunk_count(n, chunk) == 0,
        forall|k: nat| k < chunk_count(n, chunk) ==> #[trigger] chunk_start(chunk, k) < n,
        forall|i: nat|
            i < n ==> {
                let k = #[trigger] chunk_of_index(chunk, i);
                &&& k < chunk_count(n, chunk)
                &&& chunk_start(chunk, k) <= i < chunk_end(n, chunk, k)
            },
{
    let c = chunk as int;
    let x = n + c - 1;
    lemma_fundamental_div_mod(x, c);
    let q = x / c;
    assert(q * c >= n) by (nonlinear_arith)
        requires
            x == c * q + x % c,
            0 <= x % c < c,
            x == n + c - 1,
    ;
    assert forall|k: nat| k < chunk_count(n, chunk) implies #[trigger] chunk_start(chunk, k) < n by {
        assert(k * c < n) by (nonlinear_arith)
            requires
                k + 1 <= q,
                x == c * q + x % c,
                0 <= x % c,
                x == n + c - 1,
                c >= 1,
        ;
    }
    assert forall|i: nat| i < n implies {
        let k = #[trigger] chunk_of_index(chunk, i);
        &&& k < chunk_count(n, chunk)
        &&& chunk_start(chunk, k) <= i < chunk_end(n, chunk, k)
    } by {
        let ii = i as int;
        lemma_fundamental_div_mod(ii, c);
        let k = ii / c;
        assert(k * c <= ii < (k + 1) * c) by (nonlinear_arith)
            requires
                ii == c * k + ii % c,
                0 <= ii % c < c,
        ;
        assert(k < q) by (nonlinear_arith)
            requires
                k * c <= ii,
                ii < n,
                q * c >= n,
                c >= 1,
        ;
    }
    if n > 0 {
        assert(q >= 1) by (nonlinear_arith)
            requires
                q * c >= n,
                n > 0,
                c >= 1,
        ;
    } else {
        assert(q == 0) by (nonlinear_arith)
            requires
                x == c * q + x % c,
                0 <= x % c < c,
                x == c - 1,
        ;
    }
}

/// Every index of `[0, n)` lies in exactly one chunk of the division into
/// chunks of `chunk` elements, and the chunks are non-empty and in order.
pub proof fn lemma_partition_exact(n: nat, chunk: nat)
    requires
        chunk >= 1,
    ensures
        forall|k: nat|
            k < chunk_count(n, chunk) ==> chunk_start(chunk, k) < #[trigger] chunk_end(n, chunk, k)
                <= n,
        forall|i: nat| i < n ==> #[trigger] covered(n, chunk, i),
        forall|k1: nat, k2: nat|
            k1 < k2 < chunk_count(n, chunk) ==> #[trigger] chunk_end(n, chunk, k1) <= #[trigger] chunk_start(
                chunk,
                k2,
            ),
        n > 0 ==> chunk_start(chunk, 0) == 0 && chunk_end(n, chunk, (chunk_count(n, chunk) - 1) as nat)
            == n,
{
    lemma_chunk_arith(n, chunk);
    assert forall|k: nat| k < chunk_count(n, chunk) implies chunk_start(chunk, k) < #[trigger] chunk_end(
        n,
        chunk,
        k,
    ) <= n by {
        assert(chunk_start(chunk, k) < n);
        assert(k * chunk < (k + 1) * chunk) by (nonlinear_arith)
            requires
                chunk >= 1,
        ;
    }
    assert forall|i: nat| i < n implies #[trigger] covered(n, chunk, i) by {
        let k = chunk_of_index(chunk, i);
        assert(in_chunk(n, chunk, k, i));
    }
    assert forall|k1: nat, k2: nat| k1 < k2 < chunk_count(n, chunk) implies #[trigger] chunk_end(
        n,
        chunk,
        k1,
    ) <= #[trigger] chunk_start(chunk, k2) by {
        assert((k1 + 1) * chunk <= k2 * chunk) by (nonlinear_arith)
            requires
                k1 + 1 <= k2,
        ;
    }
    if n > 0 {
        let last = (chunk_count(n, chunk) - 1) as nat;
        assert(chunk_count(n, chunk) * chunk >= n);
        assert((last + 1) * chunk == chunk_count(n, chunk) * chunk);
    }
}

/// Divides `[0, n)` into consecutive spans of `chunk` elements; the last span
/// takes what remains.
pub fn chunk_spans(n: usize, chunk: usize) -> (r: Vec<Span>)
    requires
        chunk >= 1,
    ensures
        r@.len() == chunk_count(n as nat, chunk as nat),
        forall|k: int| 0 <= k < r@.len() ==> #[trigger] r@[k] == span_of(n as nat, chunk as nat, k as nat),
        tiles(r@, n as nat),
{
    proof {
        lemma_chunk_arith(n as nat, chunk as nat);
        lemma_partition_exact(n as nat, chunk as nat);
    }
    let mut r: Vec<Span> = Vec::new();
    let mut start: usize = 0;
    let ghost mut k: nat = 0;
    let ghost count = chunk_count(n as nat, chunk as nat);
    while start < n
        invariant
            chunk >= 1,
            k <= count,
            k < count ==> start == k * chunk && start < n,
            k == count ==> start == n,
            r@.len() == k,
            forall|j: int| 0 <= j < k ==> #[trigger] r@[j] == span_of(n as nat, chunk as nat, j as nat),
            forall|j: nat| j < count ==> #[trigger] chunk_start(chunk as nat, j) < n,
            count * chunk >= n,
            count == chunk_count(n as nat, chunk as nat),
        decreases n - start,
    {
        let end = if n - start > chunk { start + chunk } else { n };
        proof {
            if k + 1 < count {
                assert(chunk_start(chunk as nat, (k + 1) as nat) < n);
                assert((k + 1) * chunk == start + chunk) by (nonlinear_arith)
                    requires
                        start == k * chunk,
                ;
            } else {
                assert((k + 1) * chunk >= n) by (nonlinear_arith)
                    requires
                        k + 1 == count,
                        count * chunk >= n,
                ;
                assert((k + 1) * chunk == start + chunk) by (nonlinear_arith)
                    requires
                        start == k * chunk,
                ;
            }
            assert(end == chunk_end(n as nat, chunk as nat, k));
        }
        r.push(Span { start, end });
        start = end;
        proof {
            k = k + 1;
        }
    }
    proof {
        let c = chunk as nat;
        assert forall|i: int| 0 <= i < n implies #[trigger] spans_cover(r@, i) by {
            assert(covered(n as nat, c, i as nat));
            let k = choose|k: nat| k < chunk_count(n as nat, c) && #[trigger] in_chunk(n as nat, c, k, i as nat);
            assert(in_span(r@[k as int], i));
        }
        assert forall|k: int| 0 <= k < r@.len() implies #[trigger] r@[k].start < r@[k].end <= n by {
            assert(chunk_start(c, k as nat) < chunk_end(n as nat, c, k as nat) <= n);
        }
        assert forall|k1: int, k2: int| 0 <= k1 < k2 < r@.len() implies #[trigger] r@[k1].end <= #[trigger] r@[k2].start by {
            assert(chunk_end(n as nat, c, k1 as nat) <= chunk_start(c, k2 as nat));
        }
    }
    r
}

/// The spans that a dispatch decision gives to its tasks over `[0, n)`: one
/// span for the whole range when sequential.
pub fn partition(n: usize, d: Dispatch) -> (r: Vec<Span>)
    requires
        dispatch_ok(d),
    ensures
        r@.len() == chunk_count(n as nat, chunk_len_of(n as nat, d)),
        forall|k: int|
            0 <= k < r@.len() ==> #[trigger] r@[k] == span_of(n as nat, chunk_len_of(n as nat, d), k as nat),
        tiles(r@, n as nat),
{
    let chunk = match d {
        Dispatch::Sequential => if n == 0 { 1 } else { n },
        Dispatch::Parallel { chunk_size } => chunk_size,
    };
    chunk_spans(n, chunk)
}

} // verus!
