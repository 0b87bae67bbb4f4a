use rust_silence::energy::{
    energy, energy_limit, floor_sqrt, rms, window_is_loud, window_is_quiet,
};
use rust_silence::error::SilenceError;
use rust_silence::silence::{ms_to_sample, sample_to_ms};
use rust_silence::units::ms_to_sample_wide;

#[test]
fn ms_to_sample_rounds_down() {
    assert_eq!(ms_to_sample(10, 22050), 220);
    assert_eq!(ms_to_sample(1000, 44100), 44100);
    assert_eq!(ms_to_sample(1, 999), 0);
    assert_eq!(ms_to_sample(0, 48000), 0);
    assert_eq!(ms_to_sample(50, 11025), 551);
}

#[test]
fn sample_to_ms_rounds_down() {
    assert_eq!(sample_to_ms(220, 22050), 9);
    assert_eq!(sample_to_ms(44100, 44100), 1000);
    assert_eq!(sample_to_ms(16000, 8000), 2000);
    assert_eq!(sample_to_ms(0, 8000), 0);
    assert_eq!(sample_to_ms(1, 1500), 0);
}

#[test]
fn conversions_do_not_overflow_on_the_way() {
    // The product is beyond 64 bits; the quotient is not.
    assert_eq!(ms_to_sample(usize::MAX, 1000), usize::MAX);
    assert_eq!(sample_to_ms(usize::MAX, 1000), usize::MAX);
    assert_eq!(
        ms_to_sample_wide(usize::MAX, 2000),
        2 * (usize::MAX as u128)
    );
}

#[test]
fn round_trip_never_gains_samples() {
    for rate in [1usize, 7, 999, 1000, 8000, 22050, 44100] {
        for n in [0usize, 1, 219, 220, 221, 44099, 100_000] {
            assert!(ms_to_sample(sample_to_ms(n, rate), rate) <= n);
        }
    }
}

#[test]
fn energy_is_the_sum_of_squares() {
    let s = [3, -4, 0, 12, i32::MIN];
    assert_eq!(energy(&s, 0, 2), 25);
    assert_eq!(energy(&s, 1, 4), 160);
    assert_eq!(energy(&s, 2, 2), 0);
    assert_eq!(energy(&s, 4, 5), 1u128 << 62);
    assert_eq!(energy_limit(5, 2), 50);
    assert_eq!(energy_limit(u32::MAX, 1), (u32::MAX as u128) * (u32::MAX as u128));
}

#[test]
fn loudness_is_compared_exactly() {
    // Root mean square of [3, 4] is the square root of 12.5.
    let s = [3, 4];
    assert!(window_is_loud(&s, 0, 2, 3));
    assert!(!window_is_loud(&s, 0, 2, 4));
    assert!(!window_is_quiet(&s, 0, 2, 3));
    assert!(window_is_quiet(&s, 0, 2, 4));
    // Exactly at the threshold is quiet, not loud.
    let flat = [-5, 5, 5, -5];
    assert!(window_is_quiet(&flat, 0, 4, 5));
    assert!(!window_is_loud(&flat, 0, 4, 5));
    assert!(window_is_loud(&flat, 0, 4, 4));
}

#[test]
fn empty_window_is_neither_loud_nor_quiet() {
    let s = [100, 200];
    assert!(!window_is_loud(&s, 1, 1, 0));
    assert!(!window_is_quiet(&s, 1, 0, 1000));
    assert!(!window_is_quiet(&s, 2, 5, 1000));
}

#[test]
fn quiet_window_is_cut_off_at_the_end() {
    let s = [1000, 1, 1, 1];
    // The window of 10 samples at 1 holds the last three samples only.
    assert!(window_is_quiet(&s, 1, 10, 1));
    assert!(!window_is_quiet(&s, 0, 10, 1));
}

#[test]
fn invalid_parameter_has_a_message() {
    assert_eq!(
        SilenceError::InvalidParameter.message(),
        "chunk_size must be greater than 0"
    );
}

#[test]
fn floor_sqrt_is_the_largest_root() {
    assert_eq!(floor_sqrt(0), 0);
    assert_eq!(floor_sqrt(1), 1);
    assert_eq!(floor_sqrt(3), 1);
    assert_eq!(floor_sqrt(4), 2);
    assert_eq!(floor_sqrt(99), 9);
    assert_eq!(floor_sqrt(100), 10);
    assert_eq!(floor_sqrt((1u128 << 62) - 1), (1u32 << 31) - 1);
    assert_eq!(floor_sqrt(1u128 << 62), 1u32 << 31);
}

#[test]
fn rms_is_rounded_down() {
    // The mean of the squares is 12.5.
    assert_eq!(rms(&[3, 4]), 3);
    assert_eq!(rms(&[-5, 5, 5, -5]), 5);
    assert_eq!(rms(&[1, 0, 0, 0]), 0);
    assert_eq!(rms(&[2, 0, 0, 0]), 1);
    assert_eq!(rms(&[i32::MIN; 3]), 1u32 << 31);
    assert_eq!(rms(&[i32::MAX, i32::MIN]), (1u32 << 31) - 1);
}

#[test]
fn rms_of_nothing_is_zero() {
    assert_eq!(rms(&[]), 0);
}

#[test]
fn rms_agrees_with_loudness() {
    let windows: [&[i32]; 4] = [&[3, 4], &[-5, 5, 5, -5], &[7, 0, 0], &[100, -100, 99]];
    for w in windows {
        let level = rms(w);
        for t in 0..120u32 {
            if level > t {
                assert!(window_is_loud(w, 0, w.len(), t));
            }
            if window_is_loud(w, 0, w.len(), t) {
                assert!(level >= t);
            }
        }
    }
}

#[test]
fn window_of_samples_beyond_the_threshold_is_loud() {
    let s = [6, -6, 7, -9];
    assert!(window_is_loud(&s, 0, 4, 5));
    assert!(window_is_loud(&s, 1, 2, 5));
    assert!(!window_is_loud(&s, 0, 2, 6));
}
