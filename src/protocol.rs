use vstd::prelude::*;
use crate::partition::{chunk_count, chunk_start, chunk_end, lemma_chunk_arith};

verus! {

/// The part of a buffer handed to one task: the elements of `[start, start + data.len())`.
/// A task owns its chunk outright, so no other task can read or write it
/// while it runs.
#[derive(Debug)]
pub struct Chunk<T> {
    pub start: usize,
    pub data: Vec<T>,
}

/// The parts joined in order.
pub open spec fn concat<T>(parts: Seq<Seq<T>>) -> Seq<T>
    decreases parts.len(),
{
    if parts.len() == 0 {
        Seq::empty()
    } else {
        concat(parts.drop_last()) + parts.last()
    }
}

/// The division of `s` into consecutive pieces of `chunk` elements.
pub open spec fn pieces<T>(s: Seq<T>, chunk: nat) -> Seq<Seq<T>> {
    Seq::new(
        chunk_count(s.len(), chunk),
        |k: int| s.subrange(chunk_start(chunk, k as nat) as int, chunk_end(s.len(), chunk, k as nat) as int),
    )
}

/// What a list of chunks holds, chunk by chunk.
pub open spec fn contents<T>(chunks: Seq<Chunk<T>>) -> Seq<Seq<T>> {
    Seq::new(chunks.len(), |k: int| chunks[k].data@)
}

/// The end of the first `k` pieces.
pub open spec fn prefix_end(n: nat, chunk: nat, k: nat) -> nat {
    if k * chunk < n {
        k * chunk
    } else {
        n
    }
}

proof fn lemma_concat_prefix<T>(s: Seq<T>, chunk: nat, k: nat)
    requires
        chunk >= 1,
        k <= chunk_count(s.len(), chunk),
    ensures
        concat(pieces(s, chunk).take(k as int)) =~= s.subrange(0, prefix_end(s.len(), chunk, k) as int),
    decreases k,
{
    let n = s.len();
    lemma_chunk_arith(n, chunk);
    if k == 0 {
        assert(concat(pieces(s, chunk).take(0)) =~= Seq::<T>::empty());
        assert(s.subrange(0, 0) =~= Seq::<T>::empty());
        assert(0 * chunk == 0);
        assert(prefix_end(n, chunk, 0) == 0);
    } else {
        let km = (k - 1) as nat;
        lemma_concat_prefix(s, chunk, km);
        let p = pieces(s, chunk).take(k as int);
        assert(p.drop_last() =~= pieces(s, chunk).take(km as int));
        assert(chunk_start(chunk, km) < n);
        assert(prefix_end(n, chunk, km) == km * chunk);
        assert(km * chunk + chunk == k * chunk) by (nonlinear_arith)
            requires
                km + 1 == k,
        ;
        assert(prefix_end(n, chunk, k) == chunk_end(n, chunk, km));
        assert(km * chunk <= chunk_end(n, chunk, km)) by (nonlinear_arith)
            requires
                chunk_end(n, chunk, km) == (if (km + 1) * chunk < n { (km + 1) * chunk } else { n }),
                km * chunk < n,
        ;
        assert(p.last() == s.subrange((km * chunk) as int, chunk_end(n, chunk, km) as int));
        assert(concat(p) == concat(p.drop_last()) + p.last());
        assert(s.subrange(0, (km * chunk) as int) + s.subrange((km * chunk) as int, chunk_end(n, chunk, km) as int)
            =~= s.subrange(0, chunk_end(n, chunk, km) as int));
        assert(concat(p) =~= s.subrange(0, prefix_end(n, chunk, k) as int));
    }
}

/// Cutting a buffer into chunks and joining them again gives the buffer back,
/// whatever the chunk length.
pub proof fn lemma_pieces_rejoin<T>(s: Seq<T>, chunk: nat)
    requires
        chunk >= 1,
    ensures
        concat(pieces(s, chunk)) == s,
{
    let n = s.len();
    lemma_chunk_arith(n, chunk);
    let count = chunk_count(n, chunk);
    lemma_concat_prefix(s, chunk, count);
    assert(pieces(s, chunk).take(count as int) =~= pieces(s, chunk));
    assert(s.subrange(0, n as int) =~= s);
}

/// A result computed index by index from read-only inputs is the same whether
/// the range is done in one pass or in chunks of any length: the chunks'
/// results, joined in order, are the one-pass result.
pub proof fn lemma_chunked_map_matches_single_pass<T>(n: nat, f: spec_fn(int) -> T, chunk: nat)
    requires
        chunk >= 1,
    ensures
        concat(
            Seq::new(
                chunk_count(n, chunk),
                |k: int|
                    Seq::new(
                        (chunk_end(n, chunk, k as nat) - chunk_start(chunk, k as nat)) as nat,
                        |j: int| f(chunk_start(chunk, k as nat) + j),
                    ),
            ),
        ) == Seq::new(n, f),
{
    let whole = Seq::new(n, f);
    lemma_chunk_arith(n, chunk);
    lemma_pieces_rejoin(whole, chunk);
    let lhs = Seq::new(
        chunk_count(n, chunk),
        |k: int|
            Seq::new(
                (chunk_end(n, chunk, k as nat) - chunk_start(chunk, k as nat)) as nat,
                |j: int| f(chunk_start(chunk, k as nat) + j),
            ),
    );
    assert forall|k: int| 0 <= k < lhs.len() implies #[trigger] lhs[k] =~= pieces(whole, chunk)[k] by {
        assert(chunk_start(chunk, k as nat) < n);
        assert(chunk_start(chunk, k as nat) <= chunk_end(n, chunk, k as nat)) by (nonlinear_arith)
            requires
                chunk_end(n, chunk, k as nat) == (if (k + 1) * chunk < n { (k + 1) * chunk } else { n as int }),
                chunk_start(chunk, k as nat) == k * chunk,
                k * chunk < n,
        ;
    }
    assert(lhs =~= pieces(whole, chunk));
}

/// Hands out `buf` as consecutive chunks of `chunk` elements, each tagged with
/// the index where it starts.
pub fn scatter<T: Copy>(buf: &Vec<T>, chunk: usize) -> (r: Vec<Chunk<T>>)
    requires
        chunk >= 1,
    ensures
        r@.len() == chunk_count(buf@.len(), chunk as nat),
        contents(r@) == pieces(buf@, chunk as nat),
        forall|k: int| 0 <= k < r@.len() ==> #[trigger] r@[k].start == chunk_start(chunk as nat, k as nat),
{
    let n = buf.len();
    proof {
        lemma_chunk_arith(n as nat, chunk as nat);
    }
    let ghost count = chunk_count(n as nat, chunk as nat);
    let mut r: Vec<Chunk<T>> = Vec::new();
    let mut start: usize = 0;
    let ghost mut k: nat = 0;
    while start < n
        invariant
            chunk >= 1,
            n == buf@.len(),
            k <= count,
            k < count ==> start == k * chunk && start < n,
            k == count ==> start == n,
            r@.len() == k,
            forall|j: int| 0 <= j < k ==> #[trigger] r@[j].start == chunk_start(chunk as nat, j as nat),
            forall|j: int| 0 <= j < k ==> #[trigger] r@[j].data@ == pieces(buf@, chunk as nat)[j],
            forall|j: nat| j < count ==> #[trigger] chunk_start(chunk as nat, j) < n,
            count * chunk >= n,
            count == chunk_count(n as nat, chunk as nat),
        decreases n - start,
    {
        let end = if n - start > chunk { start + chunk } else { n };
        proof {
            if k + 1 < count {
                assert(chunk_start(chunk as nat, (k + 1) as nat) < n);
            }
            assert((k + 1) * chunk == start + chunk) by (nonlinear_arith)
                requires
                    start == k * chunk,
            ;
            if k + 1 >= count {
                assert((k + 1) * chunk >= n) by (nonlinear_arith)
                    requires
                        k + 1 == count,
                        count * chunk >= n,
                ;
            }
            assert(end == chunk_end(n as nat, chunk as nat, k));
        }
        let mut data: Vec<T> = Vec::new();
        let mut i: usize = start;
        while i < end
            invariant
                start <= i <= end <= n,
                n == buf@.len(),
                data@ == buf@.subrange(start as int, i as int),
            decreases end - i,
        {
            data.push(buf[i]);
            proof {
                assert(data@ =~= buf@.subrange(start as int, i + 1));
            }
            i = i + 1;
        }
        r.push(Chunk { start, data });
        start = end;
        proof {
            k = k + 1;
        }
    }
    proof {
        assert(contents(r@) =~= pieces(buf@, chunk as nat));
    }
    r
}

/// Joins the chunks' contents in order into one buffer.
pub fn gather<T: Copy>(chunks: &Vec<Chunk<T>>) -> (r: Vec<T>)
    ensures
        r@ == concat(contents(chunks@)),
{
    let ghost parts = contents(chunks@);
    let mut r: Vec<T> = Vec::new();
    let mut k: usize = 0;
    while k < chunks.len()
        invariant
            k <= chunks@.len(),
            parts == contents(chunks@),
            r@ == concat(parts.take(k as int)),
        decreases chunks@.len() - k,
    {
        let data = &chunks[k].data;
        let ghost before = r@;
        let mut i: usize = 0;
        while i < data.len()
            invariant
                i <= data@.len(),
                data@ == parts[k as int],
                r@ == before + data@.take(i as int),
            decreases data@.len() - i,
        {
            r.push(data[i]);
            proof {
                assert(data@.take(i + 1) =~= data@.take(i as int).push(data@[i as int]));
                assert(r@ =~= before + data@.take(i + 1));
            }
            i = i + 1;
        }
        proof {
            assert(parts.take(k + 1).drop_last() =~= parts.take(k as int));
            assert(data@.take(i as int) =~= data@);
        }
        k = k + 1;
    }
    proof {
        assert(parts.take(k as int) =~= parts);
    }
    r
}

} // verus!
