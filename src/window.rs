use vstd::prelude::*;

verus! {

/// Tap `j` of a kernel of `kn` taps, centred on tap `kn / 2`, reads sample
/// `i + j - kn / 2` of a signal of `n` samples; the tap counts for output `i`
/// only when that sample exists.
pub open spec fn tap_in_range(i: int, n: int, kn: int, j: int) -> bool {
    &&& 0 <= j < kn
    &&& 0 <= i + j - kn / 2 < n
}

/// The taps `[lo, hi)` of a kernel of `kn` taps that reach inside a signal of
/// `n` samples from output position `i`: the kernel clipped at the signal's
/// edges.
pub fn kernel_window(i: usize, n: usize, kn: usize) -> (r: (usize, usize))
    requires
        i < n,
    ensures
        r.0 <= r.1 <= kn,
        forall|j: int| r.0 <= j < r.1 <==> #[trigger] tap_in_range(i as int, n as int, kn as int, j),
{
    let kh = kn / 2;
    let lo = if i >= kh { 0 } else { kh - i };
    let hi = if kh < n - i { kn } else { n - i + kh };
    (lo, hi)
}

/// A kernel read back to front, for correlating with it.
pub fn flipped<T: Copy>(kernel: &Vec<T>) -> (r: Vec<T>)
    ensures
        r@.len() == kernel@.len(),
        forall|j: int| 0 <= j < kernel@.len() ==> #[trigger] r@[j] == kernel@[kernel@.len() - 1 - j],
{
    let n = kernel.len();
    let mut r: Vec<T> = Vec::new();
    let mut j: usize = 0;
    while j < n
        invariant
            j <= n,
            n == kernel@.len(),
            r@.len() == j,
            forall|t: int| 0 <= t < j ==> #[trigger] r@[t] == kernel@[n - 1 - t],
        decreases n - j,
    {
        r.push(kernel[n - 1 - j]);
        j = j + 1;
    }
    r
}

} // verus!
