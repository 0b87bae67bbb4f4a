//! Exact energy comparisons on windows of samples.
//!
//! A window's root-mean-square level is compared with a linear amplitude
//! threshold by comparing the sum of squares with `thresh² · len`, which is the
//! same comparison without a square root or a division.

use vstd::prelude::*;

verus! {

/// The square of one sample.
pub open spec fn square(x: i32) -> nat {
    (x as int * x as int) as nat
}

/// The sum of the squares of all samples in `window`.
pub open spec fn sum_squares(window: Seq<i32>) -> nat
    decreases window.len(),
{
    if window.len() == 0 {
        0
    } else {
        sum_squares(window.drop_last()) + square(window.last())
    }
}

/// The root-mean-square level of `window` is strictly above `thresh`.
/// An empty window is never loud.
pub open spec fn is_loud(window: Seq<i32>, thresh: u32) -> bool {
    sum_squares(window) > thresh * thresh * window.len()
}

/// `window` is not empty and its root-mean-square level is at most `thresh`.
pub open spec fn is_quiet(window: Seq<i32>, thresh: u32) -> bool {
    window.len() > 0 && sum_squares(window) <= thresh * thresh * window.len()
}

/// The part of `samples` that starts at `start` and is `width` long, cut off
/// at the end of the buffer.
pub open spec fn window(samples: Seq<i32>, start: int, width: int) -> Seq<i32>
    recommends
        0 <= start <= samples.len(),
        0 <= width,
{
    samples.subrange(
        start,
        if start + width <= samples.len() {
            start + width
        } else {
            samples.len() as int
        },
    )
}

/// Every sample of `samples` has magnitude at most `thresh`.
pub open spec fn all_within(samples: Seq<i32>, thresh: u32) -> bool {
    forall|i: int| 0 <= i < samples.len() ==> -thresh <= #[trigger] samples[i] <= thresh
}

/// A square is at most 2^62.
pub proof fn lemma_square_bound(x: i32)
    ensures
        square(x) <= 0x4000_0000_0000_0000,
{
    let v = x as int;
    assert(0 <= v * v <= 0x4000_0000_0000_0000) by (nonlinear_arith)
        requires
            -0x8000_0000 <= v <= 0x8000_0000,
    ;
}

/// The sum of squares grows at most by 2^62 per sample.
pub proof fn lemma_sum_squares_bound(window: Seq<i32>)
    ensures
        sum_squares(window) <= window.len() * 0x4000_0000_0000_0000,
    decreases window.len(),
{
    if window.len() > 0 {
        lemma_sum_squares_bound(window.drop_last());
        lemma_square_bound(window.last());
    }
}

/// A window in which no sample exceeds `thresh` in magnitude is not loud.
pub proof fn lemma_within_is_not_loud(window: Seq<i32>, thresh: u32)
    requires
        all_within(window, thresh),
    ensures
        !is_loud(window, thresh),
    decreases window.len(),
{
    if window.len() > 0 {
        let rest = window.drop_last();
        let x = window.last() as int;
        let t = thresh as int;
        assert(all_within(rest, thresh)) by {
            assert forall|i: int| 0 <= i < rest.len() implies -thresh <= #[trigger] rest[i]
                <= thresh by {
                assert(rest[i] == window[i]);
            }
        }
        lemma_within_is_not_loud(rest, thresh);
        assert(-t <= window[window.len() - 1] <= t);
        assert(0 <= x * x <= t * t) by (nonlinear_arith)
            requires
                -t <= x <= t,
        ;
        let n = rest.len() as int;
        assert(t * t * (n + 1) == t * t * n + t * t) by (nonlinear_arith);
        assert(window.len() == n + 1);
        assert(square(window.last()) == x * x);
    }
}

/// Every sample of `samples` has magnitude above `thresh`.
pub open spec fn all_beyond(samples: Seq<i32>, thresh: u32) -> bool {
    forall|i: int|
        0 <= i < samples.len() ==> (#[trigger] samples[i]) < -thresh || samples[i] > thresh
}

/// A window that is not empty and in which every sample exceeds `thresh` in
/// magnitude is loud.
pub proof fn lemma_beyond_is_loud(window: Seq<i32>, thresh: u32)
    requires
        window.len() > 0,
        all_beyond(window, thresh),
    ensures
        is_loud(window, thresh),
    decreases window.len(),
{
    let rest = window.drop_last();
    let x = window.last() as int;
    let t = thresh as int;
    let n = rest.len() as int;
    assert(window[window.len() - 1] < -t || window[window.len() - 1] > t);
    assert(x * x > t * t) by (nonlinear_arith)
        requires
            x < -t || x > t,
            t >= 0,
    ;
    assert(t * t * (n + 1) == t * t * n + t * t) by (nonlinear_arith);
    assert(square(window.last()) == x * x);
    if n > 0 {
        assert(all_beyond(rest, thresh)) by {
            assert forall|i: int| 0 <= i < rest.len() implies (#[trigger] rest[i]) < -thresh
                || rest[i] > thresh by {
                assert(rest[i] == window[i]);
            }
        }
        lemma_beyond_is_loud(rest, thresh);
    } else {
        assert(sum_squares(rest) == 0);
        assert(t * t * n == 0) by (nonlinear_arith)
            requires
                n == 0,
        ;
    }
}

/// No window of `width` samples that lies whole in `samples` is loud.
pub open spec fn no_loud_window(samples: Seq<i32>, width: nat, thresh: u32) -> bool {
    forall|start: int|
        0 <= start && start + width <= samples.len() ==> !is_loud(
            #[trigger] samples.subrange(start, start + width),
            thresh,
        )
}

/// Where no sample exceeds `thresh` in magnitude, no window is loud.
pub proof fn lemma_within_has_no_loud_window(samples: Seq<i32>, width: nat, thresh: u32)
    requires
        all_within(samples, thresh),
    ensures
        no_loud_window(samples, width, thresh),
{
    assert forall|start: int| 0 <= start && start + width <= samples.len() implies !is_loud(
        #[trigger] samples.subrange(start, start + width),
        thresh,
    ) by {
        let w = samples.subrange(start, start + width);
        assert forall|i: int| 0 <= i < w.len() implies -thresh <= #[trigger] w[i] <= thresh by {
            assert(w[i] == samples[start + i]);
        }
        lemma_within_is_not_loud(w, thresh);
    }
}

/// Whether `root` is the root-mean-square level of `window`, rounded down: the
/// largest number whose square is at most the mean of the squares. The level
/// of an empty window is 0.
pub open spec fn is_rms(window: Seq<i32>, root: nat) -> bool {
    if window.len() == 0 {
        root == 0
    } else {
        root * root * window.len() <= sum_squares(window) < (root + 1) * (root + 1) * window.len()
    }
}

/// A window whose level, rounded down, is above `thresh` is loud, and the
/// level of a loud window, rounded down, is at least `thresh`.
pub proof fn lemma_rms_and_loudness(window: Seq<i32>, root: nat, thresh: u32)
    requires
        is_rms(window, root),
    ensures
        root > thresh ==> is_loud(window, thresh),
        is_loud(window, thresh) ==> root >= thresh,
{
    let n = window.len() as int;
    let t = thresh as int;
    let r = root as int;
    if n > 0 {
        if r > t {
            assert(t * t * n <= (t + 1) * (t + 1) * n - 1) by (nonlinear_arith)
                requires
                    n > 0,
                    t >= 0,
            ;
            assert((t + 1) * (t + 1) * n <= r * r * n) by (nonlinear_arith)
                requires
                    n > 0,
                    0 <= t + 1 <= r,
            ;
        }
        if r < t {
            assert((r + 1) * (r + 1) * n <= t * t * n) by (nonlinear_arith)
                requires
                    n > 0,
                    0 <= r + 1 <= t,
            ;
        }
    } else {
        assert(t * t * n == 0) by (nonlinear_arith)
            requires
                n == 0,
        ;
    }
}

/// The largest number whose square is at most `n`, for `n` up to 2^62.
pub fn floor_sqrt(n: u128) -> (root: u32)
    requires
        n <= 0x4000_0000_0000_0000,
    ensures
        root * root <= n < (root + 1) * (root + 1),
{
    let mut low: u64 = 0;
    let mut high: u64 = 0x8000_0001;
    assert(0x8000_0001u64 * 0x8000_0001u64 > 0x4000_0000_0000_0000u128) by (nonlinear_arith);
    while high - low > 1
        invariant
            low < high <= 0x8000_0001,
            low * low <= n < high * high,
        decreases high - low,
    {
        let mid: u64 = low + (high - low) / 2;
        assert(mid * mid <= 0x8000_0001 * 0x8000_0001) by (nonlinear_arith)
            requires
                0 <= mid <= 0x8000_0001,
        ;
        if (mid as u128) * (mid as u128) <= n {
            low = mid;
        } else {
            high = mid;
        }
    }
    low as u32
}

/// The root-mean-square level of `samples`, rounded down; 0 for an empty
/// window.
pub fn rms(samples: &[i32]) -> (root: u32)
    ensures
        is_rms(samples@, root as nat),
{
    let len = samples.len();
    if len == 0 {
        return 0;
    }
    let total = energy(samples, 0, len);
    assert(samples@.subrange(0, len as int) =~= samples@);
    let mean: u128 = total / (len as u128);
    proof {
        lemma_sum_squares_bound(samples@);
        let n = len as int;
        vstd::arithmetic::div_mod::lemma_fundamental_div_mod(total as int, n);
        vstd::arithmetic::div_mod::lemma_mod_bound(total as int, n);
        assert(mean <= 0x4000_0000_0000_0000) by (nonlinear_arith)
            requires
                total <= n * 0x4000_0000_0000_0000,
                total == n * mean + total as int % n,
                total as int % n >= 0,
                n > 0,
        ;
    }
    let root = floor_sqrt(mean);
    proof {
        let n = len as int;
        let r = root as int;
        let m = mean as int;
        assert(r * r * n <= m * n) by (nonlinear_arith)
            requires
                r * r <= m,
                n > 0,
        ;
        assert((m + 1) * n <= (r + 1) * (r + 1) * n) by (nonlinear_arith)
            requires
                m + 1 <= (r + 1) * (r + 1),
                n > 0,
        ;
        assert(m * n == n * m && (m + 1) * n == n * m + n) by (nonlinear_arith);
    }
    root
}

/// Sum of the squares of `samples[start..end]`.
pub fn energy(samples: &[i32], start: usize, end: usize) -> (total: u128)
    requires
        start <= end <= samples@.len(),
    ensures
        total == sum_squares(samples@.subrange(start as int, end as int)),
{
    let mut total: u128 = 0;
    let mut i: usize = start;
    while i < end
        invariant
            start <= i <= end <= samples@.len(),
            total == sum_squares(samples@.subrange(start as int, i as int)),
        decreases end - i,
    {
        let x: i32 = samples[i];
        proof {
            let before = samples@.subrange(start as int, i as int);
            let after = samples@.subrange(start as int, i + 1);
            assert(after.drop_last() =~= before);
            assert(after.last() == x);
            lemma_sum_squares_bound(before);
            lemma_square_bound(x);
            assert(before.len() * 0x4000_0000_0000_0000 + 0x4000_0000_0000_0000 <= u128::MAX)
                by (nonlinear_arith)
                requires
                    before.len() <= 0xffff_ffff_ffff_ffff,
            ;
        }
        let wide: i64 = x as i64;
        assert(0 <= wide * wide <= 0x4000_0000_0000_0000) by (nonlinear_arith)
            requires
                -0x8000_0000 <= wide <= 0x8000_0000,
        ;
        let sq: i64 = wide * wide;
        assert(sq == square(x));
        total = total + sq as u128;
        i = i + 1;
    }
    total
}

/// `thresh² · len`, the sum of squares of `len` samples at exactly `thresh`.
pub fn energy_limit(thresh: u32, len: usize) -> (limit: u128)
    ensures
        limit == thresh * thresh * len,
{
    proof {
        assert(thresh * thresh * len <= u128::MAX) by (nonlinear_arith)
            requires
                0 <= thresh <= 0xffff_ffff,
                0 <= len <= 0xffff_ffff_ffff_ffff,
        ;
        assert(thresh * thresh <= 0xffff_ffff * 0xffff_ffff) by (nonlinear_arith)
            requires
                0 <= thresh <= 0xffff_ffff,
        ;
    }
    (thresh as u128) * (thresh as u128) * (len as u128)
}

/// Whether `samples[start..end]` is loud at `thresh`.
pub fn window_is_loud(samples: &[i32], start: usize, end: usize, thresh: u32) -> (loud: bool)
    requires
        start <= end <= samples@.len(),
    ensures
        loud == is_loud(samples@.subrange(start as int, end as int), thresh),
{
    energy(samples, start, end) > energy_limit(thresh, end - start)
}

/// Whether the window of `width` samples at `start`, cut off at the end of the
/// buffer, is quiet at `thresh`.
pub fn window_is_quiet(samples: &[i32], start: usize, width: usize, thresh: u32) -> (quiet: bool)
    requires
        start <= samples@.len(),
    ensures
        quiet == is_quiet(window(samples@, start as int, width as int), thresh),
{
    let end: usize = if width <= samples.len() - start {
        start + width
    } else {
        samples.len()
    };
    end > start && energy(samples, start, end) <= energy_limit(thresh, end - start)
}

} // verus!
