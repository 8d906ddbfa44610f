use sci_engine::error::EngineError;
use sci_engine::fft_plan::{
    bit_reversal_table, bit_reverse_in_place, butterfly_groups, check_transform_lengths, deinterleave,
    interleave, is_power_of_two, log2_exact, reverse_bits, stage_steps,
};
use sci_engine::layout::transpose;
use sci_engine::partition::Span;
use sci_engine::dispatch::{FILTER_CHUNK, FILTER_WARMUP};
use sci_engine::warmup::{filter_chunks, FilterChunk};
use sci_engine::window::{flipped, kernel_window};

#[test]
fn power_of_two_detection() {
    assert!(!is_power_of_two(0));
    assert!(is_power_of_two(1));
    assert!(is_power_of_two(2));
    assert!(!is_power_of_two(3));
    assert!(is_power_of_two(1024));
    assert!(!is_power_of_two(1023));
    assert!(!is_power_of_two(usize::MAX));
    assert!(is_power_of_two(1usize << 63));
    assert!(!is_power_of_two((1usize << 63) + 1));
}

#[test]
fn log2_of_powers() {
    assert_eq!(log2_exact(1), 0);
    assert_eq!(log2_exact(8), 3);
    assert_eq!(log2_exact(1 << 20), 20);
}

#[test]
fn transform_lengths() {
    assert_eq!(check_transform_lengths(8, 8), Ok(()));
    assert_eq!(check_transform_lengths(8, 4), Err(EngineError::InvalidLength));
    assert_eq!(check_transform_lengths(6, 6), Err(EngineError::InvalidLength));
    assert_eq!(check_transform_lengths(0, 0), Err(EngineError::InvalidLength));
}

#[test]
fn bit_reversal_of_eight() {
    assert_eq!(bit_reversal_table(8), vec![0, 4, 2, 6, 1, 5, 3, 7]);
    assert_eq!(reverse_bits(1, 3), 4);
    assert_eq!(reverse_bits(6, 3), 3);
    assert_eq!(reverse_bits(1, 10), 512);
    assert_eq!(bit_reversal_table(1), vec![0]);
}

#[test]
fn bit_reversal_is_an_involution() {
    let t = bit_reversal_table(1024);
    for i in 0..1024 {
        assert_eq!(t[t[i]], i);
    }
}

#[test]
fn bit_reverse_in_place_of_buffer() {
    let mut v = vec![10, 11, 12, 13];
    assert_eq!(bit_reverse_in_place(&mut v), Ok(()));
    assert_eq!(v, vec![10, 12, 11, 13]);
    let mut w: Vec<usize> = (0..16).collect();
    assert_eq!(bit_reverse_in_place(&mut w), Ok(()));
    assert_eq!(w, vec![0, 8, 4, 12, 2, 10, 6, 14, 1, 9, 5, 13, 3, 11, 7, 15]);
    let mut bad = vec![1, 2, 3];
    assert_eq!(bit_reverse_in_place(&mut bad), Err(EngineError::InvalidLength));
    assert_eq!(bad, vec![1, 2, 3]);
}

#[test]
fn stages_and_groups() {
    assert_eq!(stage_steps(16), vec![1, 2, 4, 8]);
    assert!(stage_steps(1).is_empty());
    assert_eq!(
        butterfly_groups(8, 2),
        vec![Span { start: 0, end: 4 }, Span { start: 4, end: 8 }]
    );
    assert_eq!(butterfly_groups(8, 4), vec![Span { start: 0, end: 8 }]);
}

#[test]
fn real_transform_packing() {
    let data = vec![1.0, 0.0, 1.0, 0.0, 1.0, 0.0, 1.0, 0.0];
    let (re, im) = deinterleave(&data).unwrap();
    assert_eq!(re, vec![1.0; 4]);
    assert_eq!(im, vec![0.0; 4]);
    assert_eq!(deinterleave(&vec![1.0]), Err(EngineError::InvalidLength));
    assert_eq!(deinterleave(&vec![1.0, 2.0, 3.0]), Err(EngineError::InvalidLength));
    assert_eq!(interleave(&vec![1, 2], &vec![3, 4]), vec![1, 3, 2, 4]);
}

#[test]
fn kernel_window_clips_at_edges() {
    // Nine taps, half width four, over ten samples.
    assert_eq!(kernel_window(0, 10, 9), (4, 9));
    assert_eq!(kernel_window(5, 10, 9), (0, 9));
    assert_eq!(kernel_window(9, 10, 9), (0, 5));
    assert_eq!(kernel_window(1, 3, 9), (3, 6));
    assert_eq!(kernel_window(0, 1, 0), (0, 0));
}

#[test]
fn kernel_window_matches_bounds_check() {
    for n in 1..20usize {
        for kn in 0..12usize {
            for i in 0..n {
                let (lo, hi) = kernel_window(i, n, kn);
                for j in 0..kn {
                    let idx = i as isize + j as isize - (kn / 2) as isize;
                    let inside = idx >= 0 && (idx as usize) < n;
                    assert_eq!(inside, lo <= j && j < hi);
                }
            }
        }
    }
}

#[test]
fn flipped_kernel() {
    assert_eq!(flipped(&vec![1, 2, 3]), vec![3, 2, 1]);
    assert!(flipped::<u8>(&vec![]).is_empty());
}

#[test]
fn filter_chunks_over_many_boundaries() {
    let chunks = filter_chunks(200_000, FILTER_CHUNK, FILTER_WARMUP);
    assert_eq!(
        chunks,
        vec![
            FilterChunk { warm_start: 0, start: 0, end: 65536 },
            FilterChunk { warm_start: 65408, start: 65536, end: 131072 },
            FilterChunk { warm_start: 130944, start: 131072, end: 196608 },
            FilterChunk { warm_start: 196480, start: 196608, end: 200_000 },
        ]
    );
}

#[test]
fn filter_chunks_short_warmup_window() {
    let chunks = filter_chunks(10, 3, 5);
    assert_eq!(chunks[1], FilterChunk { warm_start: 0, start: 3, end: 6 });
    assert_eq!(chunks[2], FilterChunk { warm_start: 1, start: 6, end: 9 });
    assert_eq!(chunks[3], FilterChunk { warm_start: 4, start: 9, end: 10 });
}

#[test]
fn transpose_rectangular() {
    let m = vec![1, 2, 3, 4, 5, 6];
    assert_eq!(transpose(&m, 2, 3), vec![1, 4, 2, 5, 3, 6]);
    assert_eq!(transpose(&transpose(&m, 2, 3), 3, 2), m);
    assert!(transpose::<i32>(&vec![], 0, 5).is_empty());
    // Elements past rows * cols are not read.
    assert_eq!(transpose(&vec![1, 2, 3, 4, 99], 2, 2), vec![1, 3, 2, 4]);
}
