//! Conversions between sample counts and milliseconds.

use vstd::prelude::*;
use vstd::arithmetic::div_mod::{lemma_div_is_ordered, lemma_fundamental_div_mod};
use vstd::arithmetic::mul::lemma_mul_inequality;

verus! {

/// Whole samples spanned by `ms` milliseconds at `sample_rate` samples per
/// second, rounded down.
pub open spec fn ms_to_sample_spec(ms: nat, sample_rate: nat) -> nat {
    ms * sample_rate / 1000
}

/// Whole milliseconds spanned by `length` samples at `sample_rate` samples per
/// second, rounded down.
pub open spec fn sample_to_ms_spec(length: nat, sample_rate: nat) -> nat
    recommends
        sample_rate > 0,
{
    length * 1000 / sample_rate
}

/// No time spans no samples.
pub proof fn lemma_zero_ms(sample_rate: nat)
    ensures
        ms_to_sample_spec(0, sample_rate) == 0,
{
    assert(0 * sample_rate == 0) by (nonlinear_arith);
}

/// More milliseconds never span fewer samples.
pub proof fn lemma_ms_to_sample_monotonic(a: nat, b: nat, sample_rate: nat)
    requires
        a <= b,
    ensures
        ms_to_sample_spec(a, sample_rate) <= ms_to_sample_spec(b, sample_rate),
{
    lemma_mul_inequality(a as int, b as int, sample_rate as int);
    lemma_div_is_ordered((a * sample_rate) as int, (b * sample_rate) as int, 1000);
}

/// More samples never span fewer milliseconds.
pub proof fn lemma_sample_to_ms_monotonic(a: nat, b: nat, sample_rate: nat)
    requires
        a <= b,
        sample_rate > 0,
    ensures
        sample_to_ms_spec(a, sample_rate) <= sample_to_ms_spec(b, sample_rate),
{
    lemma_div_is_ordered((a * 1000) as int, (b * 1000) as int, sample_rate as int);
}

/// Converting a sample count to milliseconds and back never gains samples.
pub proof fn lemma_ms_round_trip(length: nat, sample_rate: nat)
    requires
        sample_rate > 0,
    ensures
        ms_to_sample_spec(sample_to_ms_spec(length, sample_rate), sample_rate) <= length,
{
    let ms = sample_to_ms_spec(length, sample_rate) as int;
    let scaled = (length * 1000) as int;
    let rate = sample_rate as int;
    lemma_fundamental_div_mod(scaled, rate);
    assert(ms * rate <= scaled) by (nonlinear_arith)
        requires
            scaled == rate * ms + scaled % rate,
            scaled % rate >= 0,
    ;
    lemma_div_is_ordered(ms * rate, scaled, 1000);
}

/// The product of two machine words fits in 128 bits.
pub proof fn lemma_word_product_fits(a: usize, b: usize)
    ensures
        a * b <= u128::MAX,
{
    assert(a * b <= 0xffff_ffff_ffff_ffff * 0xffff_ffff_ffff_ffff) by (nonlinear_arith)
        requires
            0 <= a <= 0xffff_ffff_ffff_ffff,
            0 <= b <= 0xffff_ffff_ffff_ffff,
    ;
}

/// `ms_to_sample_spec` computed without intermediate overflow.
pub fn ms_to_sample_wide(ms: usize, sample_rate: usize) -> (samples: u128)
    ensures
        samples == ms_to_sample_spec(ms as nat, sample_rate as nat),
{
    proof {
        lemma_word_product_fits(ms, sample_rate);
    }
    (ms as u128) * (sample_rate as u128) / 1000
}

/// `sample_to_ms_spec` computed without intermediate overflow.
pub fn sample_to_ms_wide(length: usize, sample_rate: usize) -> (ms: u128)
    requires
        sample_rate > 0,
    ensures
        ms == sample_to_ms_spec(length as nat, sample_rate as nat),
{
    (length as u128) * 1000 / (sample_rate as u128)
}

/// Converts a duration in milliseconds to a sample count.
pub fn ms_to_sample(ms: usize, sample_rate: usize) -> (samples: usize)
    requires
        ms_to_sample_spec(ms as nat, sample_rate as nat) <= usize::MAX,
    ensures
        samples == ms_to_sample_spec(ms as nat, sample_rate as nat),
{
    ms_to_sample_wide(ms, sample_rate) as usize
}

/// Converts a sample count to a duration in milliseconds.
pub fn sample_to_ms(length: usize, sample_rate: usize) -> (ms: usize)
    requires
        sample_rate > 0,
        sample_to_ms_spec(length as nat, sample_rate as nat) <= usize::MAX,
    ensures
        ms == sample_to_ms_spec(length as nat, sample_rate as nat),
{
    sample_to_ms_wide(length, sample_rate) as usize
}

} // verus!
