use sci_engine::dispatch::{decide, plan, Dispatch, Policy, FILTER_SEQUENTIAL_THRESHOLD};
use sci_engine::error::EngineError;
use sci_engine::partition::{chunk_spans, partition, Span};
use sci_engine::protocol::{gather, scatter};
use sci_engine::registry::EngineState;

#[test]
fn decide_below_threshold_is_sequential() {
    let p = Policy::new(2048, 64);
    assert_eq!(decide(2047, p, 8), Dispatch::Sequential);
    assert_eq!(decide(0, p, 8), Dispatch::Sequential);
}

#[test]
fn decide_at_threshold_is_parallel() {
    let p = Policy::new(2048, 64);
    // 2048 / 8 = 256 elements per worker, above the minimum chunk.
    assert_eq!(decide(2048, p, 8), Dispatch::Parallel { chunk_size: 256 });
}

#[test]
fn decide_uses_min_chunk_when_share_is_small() {
    let p = Policy::new(100, 500);
    assert_eq!(decide(1000, p, 8), Dispatch::Parallel { chunk_size: 500 });
    assert_eq!(decide(100, p, 1), Dispatch::Parallel { chunk_size: 500 });
}

#[test]
fn plan_follows_threshold() {
    let p = Policy::filter();
    assert_eq!(plan(FILTER_SEQUENTIAL_THRESHOLD - 1, p), Dispatch::Sequential);
    match plan(200_000, p) {
        Dispatch::Parallel { chunk_size } => assert!(chunk_size >= p.min_chunk),
        Dispatch::Sequential => panic!("expected a parallel plan"),
    }
}

#[test]
fn chunk_spans_cover_range_exactly() {
    let spans = chunk_spans(10, 4);
    assert_eq!(
        spans,
        vec![
            Span { start: 0, end: 4 },
            Span { start: 4, end: 8 },
            Span { start: 8, end: 10 }
        ]
    );
    assert!(chunk_spans(0, 3).is_empty());
    assert_eq!(chunk_spans(6, 3), vec![Span { start: 0, end: 3 }, Span { start: 3, end: 6 }]);
}

#[test]
fn chunk_spans_disjoint_and_exhaustive_over_many_sizes() {
    for n in 0..200usize {
        for c in 1..20usize {
            let spans = chunk_spans(n, c);
            let mut hits = vec![0u32; n];
            for s in &spans {
                assert!(s.start < s.end);
                for i in s.start..s.end {
                    hits[i] += 1;
                }
            }
            assert!(hits.iter().all(|&h| h == 1));
        }
    }
}

#[test]
fn partition_sequential_is_one_span() {
    assert_eq!(partition(7, Dispatch::Sequential), vec![Span { start: 0, end: 7 }]);
    assert!(partition(0, Dispatch::Sequential).is_empty());
    assert_eq!(partition(5, Dispatch::Parallel { chunk_size: 2 }).len(), 3);
}

#[test]
fn scatter_then_gather_round_trip() {
    let buf: Vec<u32> = (0..23).collect();
    for c in 1..30usize {
        let chunks = scatter(&buf, c);
        for (k, ch) in chunks.iter().enumerate() {
            assert_eq!(ch.start, k * c);
            assert_eq!(ch.data[0], (k * c) as u32);
        }
        assert_eq!(gather(&chunks), buf);
    }
}

#[test]
fn chunked_map_equals_single_pass() {
    let buf: Vec<i64> = (0..1000).map(|x| x * 3 - 7).collect();
    let whole: Vec<i64> = buf.iter().enumerate().map(|(i, v)| v * v + i as i64).collect();
    let mut chunks = scatter(&buf, 64);
    for ch in chunks.iter_mut() {
        let start = ch.start;
        for (j, v) in ch.data.iter_mut().enumerate() {
            *v = *v * *v + (start + j) as i64;
        }
    }
    assert_eq!(gather(&chunks), whole);
}

#[test]
fn engine_state_handles_are_sequential_and_zeroed() {
    let mut r: EngineState<f64, f32> = EngineState::new();
    assert_eq!(r.create_vector(4, 0.0), 0);
    assert_eq!(r.create_vector(2, 0.0), 1);
    assert_eq!(r.count(), 2);
    assert_eq!(r.get(0).unwrap(), &vec![0.0; 4]);
    assert_eq!(r.len_of(1), Ok(2));
    let ids = r.create_batch(3, 5, 0.0);
    assert_eq!(ids, vec![2, 3, 4]);
    assert_eq!(r.len_of(4), Ok(5));
}

#[test]
fn engine_state_unknown_handle() {
    let mut r: EngineState<f64, f32> = EngineState::new();
    r.create_vector(3, 0.0);
    assert_eq!(r.len_of(7), Err(EngineError::UnknownHandle));
    assert!(r.get(1).is_err());
    assert!(!r.contains(1));
    assert!(r.contains(0));
    assert_eq!(r.write(9, 0, &[1.0]), Err(EngineError::UnknownHandle));
    assert_eq!(r.store(9, vec![]), Err(EngineError::UnknownHandle));
}

#[test]
fn engine_state_write_and_store() {
    let mut r: EngineState<i32, i16> = EngineState::new();
    let a = r.create_vector(5, 0);
    assert_eq!(r.write(a, 1, &[7, 8]), Ok(()));
    assert_eq!(r.get(a).unwrap(), &vec![0, 7, 8, 0, 0]);
    assert_eq!(r.write(a, 4, &[1, 2]), Err(EngineError::InvalidLength));
    assert_eq!(r.write(a, 6, &[]), Err(EngineError::InvalidLength));
    assert_eq!(r.get(a).unwrap(), &vec![0, 7, 8, 0, 0]);
    assert_eq!(r.store(a, vec![1, 2, 3]), Err(EngineError::InvalidLength));
    assert_eq!(r.store(a, vec![1, 2, 3, 4, 5]), Ok(()));
    assert_eq!(r.get(a).unwrap(), &vec![1, 2, 3, 4, 5]);
}

#[test]
fn engine_state_handle_isolation_fuzz() {
    let mut r: EngineState<u64, u32> = EngineState::new();
    let mut shadow: Vec<Vec<u64>> = Vec::new();
    for k in 0..8usize {
        r.create_vector(k + 3, 0);
        shadow.push(vec![0; k + 3]);
    }
    // A small linear congruential generator drives the writes.
    let mut seed: u64 = 12345;
    for _ in 0..500 {
        seed = seed.wrapping_mul(6364136223846793005).wrapping_add(1442695040888963407);
        let h = (seed >> 33) as usize % 8;
        let len = shadow[h].len();
        let off = (seed >> 13) as usize % len;
        let val = seed >> 40;
        assert_eq!(r.write(h as u32, off, &[val]), Ok(()));
        shadow[h][off] = val;
        for g in 0..8usize {
            assert_eq!(r.get(g as u32).unwrap(), &shadow[g]);
        }
    }
}

#[test]
fn engine_state_adopt_and_matching_len() {
    let mut r: EngineState<u8, u8> = EngineState::new();
    let a = r.create_vector(3, 0);
    let b = r.adopt(vec![1, 2, 3]);
    let c = r.adopt(vec![1]);
    assert_eq!((a, b, c), (0, 1, 2));
    assert_eq!(r.matching_len(a, b), Ok(3));
    assert_eq!(r.matching_len(a, c), Err(EngineError::InvalidLength));
    assert_eq!(r.matching_len(5, a), Err(EngineError::UnknownHandle));
    assert_eq!(r.matching_len(a, 5), Err(EngineError::UnknownHandle));
    assert!(r.can_create());
}

#[test]
fn error_reasons_are_distinct() {
    assert_eq!(EngineError::UnknownHandle.reason(), "unknown handle");
    assert_eq!(EngineError::InvalidLength.reason(), "invalid length");
    assert_eq!(EngineError::SingularSystem.reason(), "singular system");
}

#[test]
fn engine_state_one_counter_for_both_precisions() {
    let mut r: EngineState<f64, f32> = EngineState::new();
    assert_eq!(r.create_vector(3, 0.0), 0);
    assert_eq!(r.create_vector(5, 0.0), 1);
    assert_eq!(r.create_vector_f32(2, 0.0), 2);
    assert_eq!(r.create_vector(1, 0.0), 3);
    assert_eq!(r.count(), 4);
    assert_eq!(r.get_f32(2).unwrap(), &vec![0.0f32; 2]);
    assert_eq!(r.get(0).unwrap(), &vec![0.0; 3]);
    // A handle names one buffer, of one precision only.
    assert_eq!(r.get(2), Err(EngineError::UnknownHandle));
    assert_eq!(r.get_f32(0), Err(EngineError::UnknownHandle));
    assert_eq!(r.len_of(2), Err(EngineError::UnknownHandle));
    assert_eq!(r.write(2, 0, &[1.0]), Err(EngineError::UnknownHandle));
    assert_eq!(r.store(2, vec![1.0, 2.0]), Err(EngineError::UnknownHandle));
    assert_eq!(r.matching_len(0, 2), Err(EngineError::UnknownHandle));
    assert!(r.contains(2));
    assert_eq!(r.create_batch(2, 4, 0.0), vec![4, 5]);
}

#[test]
fn engine_state_write_leaves_narrow_buffers_alone() {
    let mut r: EngineState<i64, i32> = EngineState::new();
    let a = r.create_vector(4, 0);
    let b = r.create_vector_f32(4, 7);
    assert_eq!(r.write(a, 0, &[1, 2, 3, 4]), Ok(()));
    assert_eq!(r.store(a, vec![5, 6, 7, 8]), Ok(()));
    assert_eq!(r.get_f32(b).unwrap(), &vec![7, 7, 7, 7]);
    assert_eq!(r.get(a).unwrap(), &vec![5, 6, 7, 8]);
}
