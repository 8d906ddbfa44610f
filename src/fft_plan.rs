use vstd::prelude::*;
use vstd::arithmetic::power2::{pow2, lemma2_to64, lemma_pow2_pos, lemma_pow2_unfold, lemma_pow2_strictly_increases};
use vstd::arithmetic::div_mod::{lemma_fundamental_div_mod, lemma_fundamental_div_mod_converse};
use vstd::arithmetic::power2::lemma_pow2_adds;
use crate::error::EngineError;
use crate::partition::{Span, chunk_spans, chunk_count, chunk_start, chunk_end, span_of, tiles, lemma_chunk_arith};

verus! {

/// `n` is a power of two.
pub open spec fn is_pow2(n: nat) -> bool {
    exists|k: nat| pow2(k) == n
}

/// The exponent of a power of two.
pub open spec fn log2_of(n: nat) -> nat
    recommends
        is_pow2(n),
{
    choose|k: nat| pow2(k) == n
}

/// The low `bits` bits of `i` in reverse order: bit `t` of `i` becomes bit
/// `bits - 1 - t` of the result.
pub open spec fn rev_bits(i: nat, bits: nat) -> nat
    decreases bits,
{
    if bits == 0 {
        0
    } else {
        2 * rev_bits(i, (bits - 1) as nat) + bit(i, (bits - 1) as nat)
    }
}

proof fn lemma_pow2_injective(a: nat, b: nat)
    requires
        pow2(a) == pow2(b),
    ensures
        a == b,
{
    if a < b {
        lemma_pow2_strictly_increases(a, b);
    } else if b < a {
        lemma_pow2_strictly_increases(b, a);
    }
}

proof fn lemma_rev_bits_bound(i: nat, bits: nat)
    ensures
        rev_bits(i, bits) < pow2(bits),
    decreases bits,
{
    if bits == 0 {
        lemma_pow2_pos(0);
    } else {
        lemma_rev_bits_bound(i, (bits - 1) as nat);
        lemma_pow2_unfold(bits);
    }
}

/// Bit `t` of `x`.
pub open spec fn bit(x: nat, t: nat) -> nat {
    (x / pow2(t)) % 2
}

proof fn lemma_bit_of_half(x: nat, t: nat)
    ensures
        bit(x / 2, t) == bit(x, t + 1),
{
    lemma_pow2_pos(t);
    lemma_pow2_unfold(t + 1);
    vstd::arithmetic::div_mod::lemma_div_denominator(x as int, 2, pow2(t) as int);
}

proof fn lemma_bit_of_double(r: nat, c: nat, t: nat)
    requires
        c < 2,
    ensures
        t == 0 ==> bit(2 * r + c, t) == c,
        t > 0 ==> bit(2 * r + c, t) == bit(r, (t - 1) as nat),
{
    lemma2_to64();
    if t > 0 {
        lemma_bit_of_half(2 * r + c, (t - 1) as nat);
        assert((2 * r + c) / 2 == r);
    }
}

/// Bit `t` of the reversal is bit `bits - 1 - t` of the input.
proof fn lemma_rev_bits_bit(i: nat, bits: nat, t: nat)
    requires
        t < bits,
    ensures
        bit(rev_bits(i, bits), t) == bit(i, (bits - 1 - t) as nat),
    decreases bits,
{
    let r = rev_bits(i, (bits - 1) as nat);
    let c = bit(i, (bits - 1) as nat);
    assert(rev_bits(i, bits) == 2 * r + c);
    lemma_bit_of_double(r, c, t);
    if t > 0 {
        lemma_rev_bits_bit(i, (bits - 1) as nat, (t - 1) as nat);
    }
}

/// Two numbers below `pow2(bits)` with the same low `bits` bits are equal.
proof fn lemma_bits_determine(x: nat, y: nat, bits: nat)
    requires
        x < pow2(bits),
        y < pow2(bits),
        forall|t: nat| t < bits ==> #[trigger] bit(x, t) == bit(y, t),
    ensures
        x == y,
    decreases bits,
{
    lemma2_to64();
    if bits > 0 {
        lemma_pow2_unfold(bits);
        assert forall|t: nat| t < (bits - 1) as nat implies #[trigger] bit(x / 2, t) == bit(y / 2, t) by {
            lemma_bit_of_half(x, t);
            lemma_bit_of_half(y, t);
            assert(bit(x, t + 1) == bit(y, t + 1));
        }
        lemma_bits_determine(x / 2, y / 2, (bits - 1) as nat);
        assert(bit(x, 0) == bit(y, 0));
    }
}

/// Reversing the low `bits` bits twice gives the number back: the
/// bit-reversal table is a permutation that is its own inverse, so it can be
/// applied in place by swapping each pair once.
pub proof fn lemma_rev_bits_involution(i: nat, bits: nat)
    requires
        i < pow2(bits),
    ensures
        rev_bits(rev_bits(i, bits), bits) == i,
{
    let r = rev_bits(i, bits);
    lemma_rev_bits_bound(r, bits);
    assert forall|t: nat| t < bits implies #[trigger] bit(rev_bits(r, bits), t) == bit(i, t) by {
        lemma_rev_bits_bit(r, bits, t);
        lemma_rev_bits_bit(i, bits, (bits - 1 - t) as nat);
    }
    lemma_bits_determine(rev_bits(r, bits), i, bits);
}

/// Whether `n` is a power of two (zero is not).
pub fn is_power_of_two(n: usize) -> (r: bool)
    ensures
        r == is_pow2(n as nat),
{
    let mut p: usize = 1;
    let ghost mut k: nat = 0;
    proof {
        lemma2_to64();
    }
    while p < n
        invariant
            p == pow2(k),
            p > 0,
            forall|j: nat| j < k ==> #[trigger] pow2(j) < n,
        decreases n - p,
    {
        proof {
            lemma_pow2_unfold(k + 1);
        }
        if p > n / 2 {
            proof {
                assert forall|j: nat| pow2(j) != n by {
                    if j <= k {
                        if j < k {
                            lemma_pow2_strictly_increases(j, k);
                        }
                    } else {
                        if j > k + 1 {
                            lemma_pow2_strictly_increases(k + 1, j);
                        }
                    }
                }
            }
            return false;
        }
        p = p * 2;
        proof {
            k = k + 1;
        }
    }
    proof {
        if p != n {
            assert forall|j: nat| pow2(j) != n by {
                if j > k {
                    lemma_pow2_strictly_increases(k, j);
                }
            }
        }
    }
    p == n
}

/// The exponent `k` with `pow2(k) == n`.
pub fn log2_exact(n: usize) -> (r: u32)
    requires
        is_pow2(n as nat),
    ensures
        pow2(r as nat) == n,
        r as nat == log2_of(n as nat),
{
    let mut p: usize = 1;
    let mut k: u32 = 0;
    let ghost e = log2_of(n as nat);
    proof {
        lemma2_to64();
        lemma_pow2_pos(e);
        if e > 64 {
            lemma_pow2_strictly_increases(64, e);
        }
    }
    while p < n
        invariant
            p == pow2(k as nat),
            p > 0,
            pow2(e) == n,
            k <= e,
            e < 64,
        decreases n - p,
    {
        proof {
            lemma_pow2_unfold((k + 1) as nat);
            if k + 1 < e {
                lemma_pow2_strictly_increases((k + 1) as nat, e);
            }
        }
        p = p * 2;
        k = k + 1;
    }
    proof {
        if k < e {
            lemma_pow2_strictly_increases(k as nat, e);
        }
        lemma_pow2_injective(k as nat, e);
    }
    k
}

/// The lengths of a complex transform's two buffers are accepted when they
/// are equal and a power of two.
pub fn check_transform_lengths(re_len: usize, im_len: usize) -> (r: Result<(), EngineError>)
    ensures
        r is Ok <==> re_len == im_len && is_pow2(re_len as nat),
        r is Err ==> r == Err::<(), EngineError>(EngineError::InvalidLength),
{
    if re_len != im_len || !is_power_of_two(re_len) {
        Err(EngineError::InvalidLength)
    } else {
        Ok(())
    }
}

/// `i` with its low `bits` bits reversed.
pub fn reverse_bits(i: usize, bits: u32) -> (r: usize)
    requires
        pow2(bits as nat) <= usize::MAX + 1,
    ensures
        r as nat == rev_bits(i as nat, bits as nat),
        (r as nat) < pow2(bits as nat),
{
    let mut x: usize = i;
    let mut r: usize = 0;
    let mut t: u32 = 0;
    proof {
        lemma2_to64();
    }
    while t < bits
        invariant
            t <= bits,
            pow2(bits as nat) <= usize::MAX + 1,
            r as nat == rev_bits(i as nat, t as nat),
            x as nat == i as nat / pow2(t as nat),
        decreases bits - t,
    {
        proof {
            lemma_rev_bits_bound(i as nat, t as nat);
            lemma_pow2_unfold((t + 1) as nat);
            if t + 1 < bits {
                lemma_pow2_strictly_increases((t + 1) as nat, bits as nat);
            }
            lemma_pow2_pos(t as nat);
            vstd::arithmetic::div_mod::lemma_div_denominator(i as int, pow2(t as nat) as int, 2);
        }
        r = 2 * r + x % 2;
        x = x / 2;
        t = t + 1;
    }
    proof {
        lemma_rev_bits_bound(i as nat, bits as nat);
    }
    r
}

/// The bit-reversal permutation of `[0, n)` for a power of two `n`: entry `i`
/// is `i` with its `log2(n)` bits reversed.
pub fn bit_reversal_table(n: usize) -> (r: Vec<usize>)
    requires
        is_pow2(n as nat),
    ensures
        r@.len() == n,
        forall|i: int| 0 <= i < n ==> #[trigger] r@[i] as nat == rev_bits(i as nat, log2_of(n as nat)),
        forall|i: int| 0 <= i < n ==> #[trigger] r@[i] < n,
{
    let bits = log2_exact(n);
    let mut r: Vec<usize> = Vec::new();
    let mut i: usize = 0;
    while i < n
        invariant
            i <= n,
            pow2(bits as nat) == n,
            bits as nat == log2_of(n as nat),
            r@.len() == i,
            forall|j: int| 0 <= j < i ==> #[trigger] r@[j] as nat == rev_bits(j as nat, bits as nat),
            forall|j: int| 0 <= j < i ==> #[trigger] r@[j] < n,
        decreases n - i,
    {
        let v = reverse_bits(i, bits);
        r.push(v);
        i = i + 1;
    }
    r
}

/// Where position `p` of a buffer stands after the in-place reversal has
/// handled positions `[0, k)`: a pair `(p, rev(p))` is swapped once its
/// smaller position has been reached.
pub open spec fn partly_reversed<T>(v: Seq<T>, bits: nat, k: nat, p: int) -> T {
    let q = rev_bits(p as nat, bits) as int;
    if p < k || q < k {
        v[q]
    } else {
        v[p]
    }
}

/// The first step of a radix-2 transform: puts `v` in bit-reversed order in
/// place, position `i` taking the element at `i` with its `log2(n)` bits
/// reversed. A length that is not a power of two is refused and nothing is
/// moved.
pub fn bit_reverse_in_place<T: Copy>(v: &mut Vec<T>) -> (r: Result<(), EngineError>)
    ensures
        !is_pow2(old(v)@.len()) ==> r == Err::<(), EngineError>(EngineError::InvalidLength) && final(v)@
            == old(v)@,
        is_pow2(old(v)@.len()) ==> r is Ok && final(v)@.len() == old(v)@.len() && forall|i: int|
            0 <= i < old(v)@.len() ==> #[trigger] final(v)@[i] == old(v)@[rev_bits(
                i as nat,
                log2_of(old(v)@.len()),
            ) as int],
{
    let n = v.len();
    if !is_power_of_two(n) {
        return Err(EngineError::InvalidLength);
    }
    let table = bit_reversal_table(n);
    let ghost bits = log2_of(n as nat);
    let ghost orig = v@;
    proof {
        assert(pow2(bits) == n);
    }
    let mut k: usize = 0;
    while k < n
        invariant
            k <= n,
            n == orig.len(),
            v@.len() == n,
            pow2(bits) == n,
            table@.len() == n,
            forall|i: int| 0 <= i < n ==> #[trigger] table@[i] as nat == rev_bits(i as nat, bits),
            forall|i: int| 0 <= i < n ==> #[trigger] table@[i] < n,
            forall|p: int| 0 <= p < n ==> #[trigger] v@[p] == partly_reversed(orig, bits, k as nat, p),
        decreases n - k,
    {
        let j = table[k];
        proof {
            lemma_rev_bits_involution(k as nat, bits);
        }
        if k < j {
            let a = v[k];
            let b = v[j];
            v.set(k, b);
            v.set(j, a);
        }
        proof {
            assert forall|p: int| 0 <= p < n implies #[trigger] v@[p] == partly_reversed(
                orig,
                bits,
                (k + 1) as nat,
                p,
            ) by {
                lemma_rev_bits_involution(p as nat, bits);
                lemma_rev_bits_bound(p as nat, bits);
            }
        }
        k = k + 1;
    }
    proof {
        assert forall|i: int| 0 <= i < n implies #[trigger] v@[i] == orig[rev_bits(i as nat, bits) as int] by {
            assert(v@[i] == partly_reversed(orig, bits, n as nat, i));
        }
    }
    Ok(())
}

/// The element that index `j` is combined with in a butterfly stage of half
/// width `step`: groups of `2 * step` elements pair their two halves
/// position by position.
pub open spec fn partner(j: nat, step: nat) -> nat {
    if j % (2 * step) < step {
        j + step
    } else {
        (j - step) as nat
    }
}

/// In a butterfly stage every index of `[0, n)` is paired with exactly one
/// other index of the same group, and with no index outside `[0, n)`: the
/// pairs divide the range, so the groups can go to different tasks.
pub proof fn lemma_butterfly_pairs(n: nat, step: nat)
    requires
        is_pow2(n),
        is_pow2(step),
        step < n,
    ensures
        forall|j: nat|
            j < n ==> {
                let p = #[trigger] partner(j, step);
                &&& p < n
                &&& p != j
                &&& partner(p, step) == j
                &&& p / (2 * step) == j / (2 * step)
            },
{
    let e = log2_of(n);
    let s = log2_of(step);
    if s >= e {
        if s > e {
            lemma_pow2_strictly_increases(e, s);
        }
    }
    assert(s < e);
    lemma_pow2_unfold(s + 1);
    lemma_pow2_adds(s + 1, (e - s - 1) as nat);
    let d = 2 * step;
    let m = pow2((e - s - 1) as nat);
    assert(n == d * m);
    assert forall|j: nat| j < n implies {
        let p = #[trigger] partner(j, step);
        &&& p < n
        &&& p != j
        &&& partner(p, step) == j
        &&& p / (2 * step) == j / (2 * step)
    } by {
        let ji = j as int;
        let di = d as int;
        lemma_fundamental_div_mod(ji, di);
        let q = ji / di;
        let r = ji % di;
        assert(q < m) by (nonlinear_arith)
            requires
                ji == di * q + r,
                0 <= r,
                ji < n,
                n == di * m,
                di > 0,
        ;
        assert((q + 1) * di <= n) by (nonlinear_arith)
            requires
                q + 1 <= m,
                n == di * m,
                di > 0,
        ;
        assert(j % (2 * step) == r);
        assert(j / (2 * step) == q);
        if r < step {
            let p = ji + step;
            assert(p == q * di + (r + step)) by (nonlinear_arith)
                requires
                    ji == di * q + r,
                    p == ji + step,
            ;
            lemma_fundamental_div_mod_converse(p, di, q, r + step);
            assert(partner(j, step) == p);
            assert(p < n) by (nonlinear_arith)
                requires
                    p == q * di + (r + step),
                    r + step < di,
                    (q + 1) * di <= n,
            ;
            assert(partner(p as nat, step) == j);
        } else {
            let p = ji - step;
            assert(p == q * di + (r - step)) by (nonlinear_arith)
                requires
                    ji == di * q + r,
                    p == ji - step,
            ;
            lemma_fundamental_div_mod_converse(p, di, q, r - step);
            assert(partner(j, step) == p);
            assert(partner(p as nat, step) == j);
        }
    }
}

/// A power of two below another one fits into it at least twice.
proof fn lemma_double_step_fits(n: nat, step: nat)
    requires
        is_pow2(n),
        is_pow2(step),
        step < n,
    ensures
        1 <= step,
        2 * step <= n,
{
    let e = log2_of(n);
    let s = log2_of(step);
    if s >= e {
        if s > e {
            lemma_pow2_strictly_increases(e, s);
        }
    }
    lemma_pow2_pos(s);
    lemma_pow2_unfold(s + 1);
    if s + 1 < e {
        lemma_pow2_strictly_increases(s + 1, e);
    }
}

/// The half widths of the stages of a radix-2 transform of `n` elements:
/// `1, 2, 4, ..., n / 2`.
pub fn stage_steps(n: usize) -> (r: Vec<usize>)
    requires
        is_pow2(n as nat),
    ensures
        r@.len() == log2_of(n as nat),
        forall|t: int| 0 <= t < r@.len() ==> #[trigger] r@[t] as nat == pow2(t as nat),
        forall|t: int| 0 <= t < r@.len() ==> #[trigger] r@[t] < n,
{
    let bits = log2_exact(n);
    let mut r: Vec<usize> = Vec::new();
    let mut step: usize = 1;
    let mut t: u32 = 0;
    proof {
        lemma2_to64();
    }
    while t < bits
        invariant
            t <= bits,
            pow2(bits as nat) == n,
            bits as nat == log2_of(n as nat),
            t < bits ==> step as nat == pow2(t as nat),
            r@.len() == t,
            forall|u: int| 0 <= u < t ==> #[trigger] r@[u] as nat == pow2(u as nat),
            forall|u: int| 0 <= u < t ==> #[trigger] r@[u] < n,
        decreases bits - t,
    {
        proof {
            lemma_pow2_strictly_increases(t as nat, bits as nat);
            lemma_pow2_unfold((t + 1) as nat);
            if t + 1 < bits {
                lemma_pow2_strictly_increases((t + 1) as nat, bits as nat);
            }
        }
        r.push(step);
        if t + 1 < bits {
            step = step * 2;
        }
        t = t + 1;
    }
    r
}

/// The groups of one butterfly stage of half width `step` over `[0, n)`:
/// consecutive spans of `2 * step` elements, independent of each other.
pub fn butterfly_groups(n: usize, step: usize) -> (r: Vec<Span>)
    requires
        is_pow2(n as nat),
        is_pow2(step as nat),
        step < n,
    ensures
        r@.len() == chunk_count(n as nat, 2 * step as nat),
        forall|k: int| 0 <= k < r@.len() ==> #[trigger] r@[k] == span_of(n as nat, 2 * step as nat, k as nat),
        forall|k: int| 0 <= k < r@.len() ==> #[trigger] r@[k].end - r@[k].start == 2 * step,
        tiles(r@, n as nat),
{
    proof {
        lemma_double_step_fits(n as nat, step as nat);
        lemma_groups_full(n as nat, step as nat);
    }
    let r = chunk_spans(n, 2 * step);
    proof {
        let d = 2 * step as nat;
        assert forall|k: int| 0 <= k < r@.len() implies #[trigger] r@[k].end - r@[k].start == 2 * step by {
            assert(chunk_end(n as nat, d, k as nat) == (k + 1) * d);
            assert((k + 1) * d == k * d + d) by (nonlinear_arith);
            assert(chunk_start(d, k as nat) == k * d);
        }
    }
    r
}

/// The groups of a butterfly stage are all full: `2 * step` divides `n`.
proof fn lemma_groups_full(n: nat, step: nat)
    requires
        is_pow2(n),
        is_pow2(step),
        step < n,
    ensures
        forall|k: nat|
            k < chunk_count(n, 2 * step) ==> #[trigger] chunk_end(n, 2 * step, k) == (k + 1) * (2 * step),
{
    let e = log2_of(n);
    let s = log2_of(step);
    if s >= e {
        if s > e {
            lemma_pow2_strictly_increases(e, s);
        }
    }
    lemma_pow2_unfold(s + 1);
    lemma_pow2_adds(s + 1, (e - s - 1) as nat);
    let d = 2 * step;
    let m = pow2((e - s - 1) as nat);
    assert(n == d * m);
    lemma_chunk_arith(n, d);
    assert forall|k: nat| k < chunk_count(n, d) implies #[trigger] chunk_end(n, d, k) == (k + 1) * d by {
        assert(chunk_start(d, k) < n);
        assert(k < m) by (nonlinear_arith)
            requires
                k * d < d * m,
                d > 0,
        ;
        assert((k + 1) * d <= n) by (nonlinear_arith)
            requires
                k + 1 <= m,
                n == d * m,
                d > 0,
        ;
    }
}

/// Splits the samples of a real transform into the two halves of a complex
/// transform of half the length: even positions become the real parts and odd
/// positions the imaginary parts. The length must be a power of two of at
/// least two.
pub fn deinterleave<T: Copy>(data: &Vec<T>) -> (r: Result<(Vec<T>, Vec<T>), EngineError>)
    ensures
        !(is_pow2(data@.len()) && data@.len() >= 2) ==> r == Err::<(Vec<T>, Vec<T>), EngineError>(
            EngineError::InvalidLength,
        ),
        is_pow2(data@.len()) && data@.len() >= 2 ==> (r matches Ok((evens, odds)) && evens@.len()
            == data@.len() / 2 && odds@.len() == data@.len() / 2 && (forall|i: int|
            0 <= i < data@.len() / 2 ==> #[trigger] evens@[i] == data@[2 * i]) && (forall|i: int|
            0 <= i < data@.len() / 2 ==> #[trigger] odds@[i] == data@[2 * i + 1])),
{
    let n = data.len();
    if n < 2 || !is_power_of_two(n) {
        return Err(EngineError::InvalidLength);
    }
    proof {
        let e = log2_of(n as nat);
        if e == 0 {
            lemma2_to64();
        } else {
            lemma_pow2_unfold(e);
        }
    }
    let half = n / 2;
    let mut evens: Vec<T> = Vec::new();
    let mut odds: Vec<T> = Vec::new();
    let mut i: usize = 0;
    while i < half
        invariant
            i <= half,
            half == n / 2,
            n == data@.len(),
            n == 2 * half,
            evens@.len() == i,
            odds@.len() == i,
            forall|j: int| 0 <= j < i ==> #[trigger] evens@[j] == data@[2 * j],
            forall|j: int| 0 <= j < i ==> #[trigger] odds@[j] == data@[2 * j + 1],
        decreases half - i,
    {
        evens.push(data[2 * i]);
        odds.push(data[2 * i + 1]);
        i = i + 1;
    }
    Ok((evens, odds))
}

/// The two parts of a complex result laid side by side: real part, then
/// imaginary part, element by element.
pub fn interleave<T: Copy>(re: &Vec<T>, im: &Vec<T>) -> (r: Vec<T>)
    requires
        re@.len() == im@.len(),
        2 * re@.len() <= usize::MAX,
    ensures
        r@.len() == 2 * re@.len(),
        forall|i: int| 0 <= i < re@.len() ==> #[trigger] r@[2 * i] == re@[i],
        forall|i: int| 0 <= i < re@.len() ==> #[trigger] r@[2 * i + 1] == im@[i],
{
    let mut r: Vec<T> = Vec::new();
    let mut i: usize = 0;
    while i < re.len()
        invariant
            i <= re@.len(),
            re@.len() == im@.len(),
            r@.len() == 2 * i,
            forall|j: int| 0 <= j < i ==> #[trigger] r@[2 * j] == re@[j],
            forall|j: int| 0 <= j < i ==> #[trigger] r@[2 * j + 1] == im@[j],
        decreases re@.len() - i,
    {
        let ghost before = r@;
        r.push(re[i]);
        r.push(im[i]);
        proof {
            assert forall|j: int| 0 <= j < i + 1 implies #[trigger] r@[2 * j] == re@[j] by {
                if j < i {
                    assert(r@[2 * j] == before[2 * j]);
                }
            }
            assert forall|j: int| 0 <= j < i + 1 implies #[trigger] r@[2 * j + 1] == im@[j] by {
                if j < i {
                    assert(r@[2 * j + 1] == before[2 * j + 1]);
                }
            }
        }
        i = i + 1;
    }
    r
}

} // verus!
