use rust_silence::energy::{window_is_loud, window_is_quiet};
use rust_silence::scan::{find_anchors, window_starts};
use rust_silence::error::SilenceError;
use rust_silence::nonsilent::invert_ranges;
use rust_silence::leading::whole_chunks_fit;
use rust_silence::silence::{
    detect_leading_silence, detect_nonsilent, detect_silence, is_scannable, merge_anchors,
};

/// The linear amplitude, at a full scale of 2^31, of a level in decibels.
fn amplitude(db: f64) -> u32 {
    (10.0_f64.powf(db / 20.0) * 2147483648.0) as u32
}

/// A buffer made of loud (`'L'`) and quiet (`'Q'`) stretches. Every loud sample
/// has a value of its own, so that a slice shows where it came from.
fn buffer(parts: &[(char, usize)]) -> Vec<i32> {
    let mut s = Vec::new();
    for &(kind, n) in parts {
        for _ in 0..n {
            let i = s.len() as i32;
            s.push(if kind == 'L' { 600_000_000 + i } else { 1000 + i % 7 });
        }
    }
    s
}

fn two_second_buffer() -> Vec<i32> {
    let quiet = amplitude(-60.0) as i32;
    let loud = amplitude(-10.0) as i32;
    let mut s = vec![quiet; 4000];
    s.extend(vec![loud; 8000]);
    s.extend(vec![quiet; 4000]);
    s
}

#[test]
fn silence_at_both_ends_is_found() {
    let s = two_second_buffer();
    let found = detect_silence(&s, 8000, 400, amplitude(-50.0), 10);
    assert_eq!(found, vec![[0, 500], [1500, 2000]]);
}

#[test]
fn sound_between_silences_is_found() {
    let s = two_second_buffer();
    let found = detect_nonsilent(&s, 8000, 400, amplitude(-50.0), 10);
    assert_eq!(found, vec![[500, 1500]]);
}

#[test]
fn buffer_shorter_than_the_window_has_no_silence() {
    let s = vec![0; 3199];
    assert_eq!(detect_silence(&s, 8000, 400, 1000, 10), Vec::<[usize; 2]>::new());
    // Not even the stride is looked at.
    assert_eq!(detect_silence(&s, 8000, 400, 1000, 0), Vec::<[usize; 2]>::new());
    let empty: Vec<i32> = Vec::new();
    assert_eq!(detect_silence(&empty, 8000, 1, 1000, 10), Vec::<[usize; 2]>::new());
    // One sample more and the window fits.
    let s = vec![0; 3200];
    assert_eq!(detect_silence(&s, 8000, 400, 1000, 10), vec![[0, 400]]);
}

#[test]
fn buffer_without_silence_is_one_sound() {
    let s = buffer(&[('L', 3000)]);
    assert_eq!(detect_silence(&s, 1000, 400, amplitude(-50.0), 10), Vec::<[usize; 2]>::new());
    assert_eq!(detect_nonsilent(&s, 1000, 400, amplitude(-50.0), 10), vec![[0, 3000]]);
}

#[test]
fn buffer_that_is_all_silence_has_no_sound() {
    let s = vec![5; 2000];
    assert_eq!(detect_silence(&s, 1000, 400, 5, 10), vec![[0, 2000]]);
    assert_eq!(detect_nonsilent(&s, 1000, 400, 5, 10), Vec::<[usize; 2]>::new());
}

#[test]
fn last_range_is_cut_off_at_the_duration() {
    // 1005 samples: the last window starts at 600, the rest is never looked at.
    let s = buffer(&[('Q', 1005)]);
    assert_eq!(detect_silence(&s, 1000, 400, amplitude(-50.0), 10), vec![[0, 1000]]);
    assert_eq!(detect_nonsilent(&s, 1000, 400, amplitude(-50.0), 10), vec![[1000, 1005]]);
}

#[test]
fn silences_in_the_middle_are_found() {
    let s = buffer(&[('L', 1000), ('Q', 500), ('L', 1500), ('Q', 1000), ('L', 700)]);
    let t = amplitude(-50.0);
    assert_eq!(detect_silence(&s, 1000, 300, t, 10), vec![[1000, 1500], [3000, 4000]]);
    assert_eq!(
        detect_nonsilent(&s, 1000, 300, t, 10),
        vec![[0, 1000], [1500, 3000], [4000, 4700]]
    );
}

#[test]
fn leading_silence_drops_the_empty_range_at_zero() {
    let s = buffer(&[('Q', 1234), ('L', 2000), ('Q', 777)]);
    let t = amplitude(-50.0);
    assert_eq!(detect_silence(&s, 1000, 500, t, 10), vec![[0, 1230], [3240, 4010]]);
    assert_eq!(detect_nonsilent(&s, 1000, 500, t, 10), vec![[1230, 3240], [4010, 4011]]);
}

#[test]
fn silent_and_sound_ranges_cover_the_buffer() {
    let t = amplitude(-50.0);
    let buffers = [
        buffer(&[('L', 1000), ('Q', 500), ('L', 1500), ('Q', 1000), ('L', 700)]),
        buffer(&[('Q', 1234), ('L', 2000), ('Q', 777)]),
        buffer(&[('Q', 1005)]),
        buffer(&[('L', 3000)]),
        buffer(&[('Q', 600), ('L', 1), ('Q', 600)]),
    ];
    for s in buffers.iter() {
        for min_len in [100usize, 300, 500] {
            let silent = detect_silence(s, 1000, min_len, t, 10);
            let sound = detect_nonsilent(s, 1000, min_len, t, 10);
            let mut all: Vec<[usize; 2]> = Vec::new();
            let silent_first = !silent.is_empty() && silent[0][0] == 0;
            let (a, b) = if silent_first { (&silent, &sound) } else { (&sound, &silent) };
            for i in 0..a.len().max(b.len()) {
                if i < a.len() {
                    all.push(a[i]);
                }
                if i < b.len() {
                    all.push(b[i]);
                }
            }
            assert_eq!(all.len(), silent.len() + sound.len());
            let length = |r: &[usize; 2]| r[1] - r[0];
            let silent_ms: usize = silent.iter().map(length).sum();
            let sound_ms: usize = sound.iter().map(length).sum();
            assert_eq!(silent_ms + sound_ms, s.len());
            for a in silent.iter() {
                for b in sound.iter() {
                    assert!(a[1] <= b[0] || b[1] <= a[0]);
                }
            }
            assert_eq!(all[0][0], 0);
            assert_eq!(all[all.len() - 1][1], s.len());
            for i in 0..all.len() {
                assert!(all[i][0] <= all[i][1]);
                if i + 1 < all.len() {
                    assert_eq!(all[i][1], all[i + 1][0]);
                }
            }
        }
    }
}

#[test]
fn candidate_starts_lie_on_the_stride() {
    assert_eq!(window_starts(0, 3), vec![0]);
    assert_eq!(window_starts(2, 3), vec![0]);
    assert_eq!(window_starts(3, 3), vec![0, 3]);
    assert_eq!(window_starts(10, 4), vec![0, 4, 8]);
    assert_eq!(window_starts(5, usize::MAX), vec![0]);
}

#[test]
fn anchors_are_the_quiet_candidates_in_order() {
    // Quiet at 0..4, loud at 4..6, quiet at 6..12.
    let s = [1, 1, 1, 1, 900, 900, 1, 1, 1, 1, 1, 1];
    assert_eq!(find_anchors(&s, 2, 2, 1, 10), vec![0, 2, 6, 8, 10]);
    assert_eq!(find_anchors(&s, 2, 1, 1, 10), vec![0, 1, 2, 6, 7, 8, 9, 10]);
    assert_eq!(find_anchors(&s, 4, 3, 1, 8), vec![0, 6]);
    assert_eq!(find_anchors(&s, 2, 2, 0, 10), Vec::<usize>::new());
}

#[test]
fn many_windows_keep_their_order() {
    // Enough windows for the scan to be shared out among threads.
    let mut s = vec![0i32; 200_000];
    for i in 0..s.len() {
        if (i / 1000) % 2 == 1 {
            s[i] = 1_000_000;
        }
    }
    let found = find_anchors(&s, 10, 10, 5, s.len() - 10);
    let mut expected = Vec::new();
    let mut start = 0;
    while start + 10 <= s.len() {
        if (start / 1000) % 2 == 0 {
            expected.push(start);
        }
        start += 10;
    }
    assert_eq!(found, expected);
}

#[test]
fn anchors_merge_into_runs() {
    // Stride 10, window 25, rate 1000.
    // 0, 10, 20 follow each other; 40 is neither next on the stride nor beyond
    // the window of 20, so it stays in the run; 100 opens a new run.
    let anchors = vec![0, 10, 20, 40, 100, 110];
    assert_eq!(merge_anchors(&anchors, 25, 10, 1000, 140), vec![[0, 65], [100, 135]]);
    // The last range is cut off at the duration.
    assert_eq!(merge_anchors(&anchors, 25, 10, 2000, 135), vec![[0, 32], [50, 67]]);
    assert_eq!(merge_anchors(&vec![7], 3, 1, 1000, 10), vec![[7, 10]]);
    assert_eq!(merge_anchors(&Vec::new(), 3, 1, 1000, 10), Vec::<[usize; 2]>::new());
}

#[test]
fn adjacent_anchors_stay_in_one_run_whatever_the_window() {
    // The stride is wider than the window: anchors next to each other on the
    // stride are one run all the same.
    let anchors = vec![0, 50, 100, 250];
    assert_eq!(merge_anchors(&anchors, 10, 50, 1000, 300), vec![[0, 110], [250, 260]]);
}

#[test]
fn ranges_are_inverted() {
    assert_eq!(invert_ranges(&Vec::new(), 90), vec![[0, 90]]);
    assert_eq!(invert_ranges(&Vec::new(), 0), vec![[0, 0]]);
    assert_eq!(invert_ranges(&vec![[0, 90]], 90), Vec::<[usize; 2]>::new());
    assert_eq!(invert_ranges(&vec![[0, 30]], 90), vec![[30, 90]]);
    assert_eq!(invert_ranges(&vec![[10, 30]], 90), vec![[0, 10], [30, 90]]);
    assert_eq!(invert_ranges(&vec![[10, 90]], 90), vec![[0, 10]]);
    // A gap of no length between two ranges is kept.
    assert_eq!(
        invert_ranges(&vec![[0, 30], [30, 50], [70, 80]], 90),
        vec![[30, 30], [50, 70], [80, 90]]
    );
}

#[test]
fn zero_chunk_size_is_refused() {
    let s = vec![0; 100];
    assert_eq!(
        detect_leading_silence(&s, 8000, 1000, 0),
        Err(SilenceError::InvalidParameter)
    );
    let empty: Vec<i32> = Vec::new();
    assert_eq!(
        detect_leading_silence(&empty, 8000, 1000, 0),
        Err(SilenceError::InvalidParameter)
    );
}

#[test]
fn chunk_without_a_sample_is_refused() {
    // 10 ms at 50 samples per second is half a sample.
    let s = vec![0; 100];
    assert_eq!(
        detect_leading_silence(&s, 50, 1000, 10),
        Err(SilenceError::InvalidParameter)
    );
    assert_eq!(detect_leading_silence(&s, 100, 1000, 10), Ok(1000));
}

#[test]
fn quiet_buffer_is_silent_for_all_its_whole_chunks() {
    let s = buffer(&[('Q', 1005)]);
    assert_eq!(detect_leading_silence(&s, 1000, amplitude(-50.0), 10), Ok(1000));
    assert_eq!(detect_leading_silence(&s, 1000, amplitude(-50.0), 300), Ok(900));
    // 220 samples to the chunk: four whole chunks in 1005 samples.
    assert_eq!(detect_leading_silence(&s, 22050, amplitude(-50.0), 10), Ok(40));
    // A chunk longer than the buffer: nothing is scanned.
    assert_eq!(detect_leading_silence(&s, 1000, amplitude(-50.0), 2000), Ok(0));
    assert_eq!(detect_leading_silence(&s, usize::MAX, amplitude(-50.0), usize::MAX), Ok(0));
}

#[test]
fn leading_silence_ends_at_the_first_loud_chunk() {
    let s = buffer(&[('Q', 1234), ('L', 2000), ('Q', 777)]);
    let t = amplitude(-50.0);
    assert_eq!(detect_leading_silence(&s, 1000, t, 10), Ok(1230));
    assert_eq!(detect_leading_silence(&s, 1000, t, 100), Ok(1200));
    assert_eq!(detect_leading_silence(&s, 1000, t, 1), Ok(1234));
    let loud = buffer(&[('L', 500)]);
    assert_eq!(detect_leading_silence(&loud, 1000, t, 10), Ok(0));
    let two = two_second_buffer();
    assert_eq!(detect_leading_silence(&two, 8000, amplitude(-50.0), 10), Ok(500));
}

#[test]
fn threshold_is_strict_for_loudness() {
    // A chunk exactly at the threshold is still silence.
    let s = vec![7; 30];
    assert_eq!(detect_leading_silence(&s, 1000, 7, 10), Ok(30));
    assert_eq!(detect_leading_silence(&s, 1000, 6, 10), Ok(0));
    // All zero: silent even at a threshold of zero.
    let z = vec![0; 30];
    assert_eq!(detect_leading_silence(&z, 1000, 0, 10), Ok(30));
}

#[test]
fn scannable_buffers_are_told_apart() {
    assert!(is_scannable(16000, 8000, 400, 10));
    assert!(is_scannable(0, 8000, 0, 10));
    // No sample rate.
    assert!(!is_scannable(16000, 0, 400, 10));
    // A stride of less than a sample, on a buffer that holds a window.
    assert!(!is_scannable(16000, 50, 400, 10));
    assert!(!is_scannable(16000, 8000, 400, 0));
    // The same stride on a buffer that is shorter than the window.
    assert!(is_scannable(10, 50, 400, 10));
    assert!(is_scannable(3199, 8000, 400, 0));
    // A length in milliseconds beyond the machine word.
    assert!(!is_scannable(usize::MAX, 1, 0, 1000));
    assert!(is_scannable(usize::MAX, 1000, 0, 1000));
    // A stride in samples beyond the machine word is a stride like any other.
    assert!(is_scannable(100, 2000, 0, usize::MAX));
}

#[test]
fn whole_chunks_that_do_not_fit_are_told_apart() {
    assert!(whole_chunks_fit(1000, 1000, 10));
    assert!(whole_chunks_fit(1000, 1000, 0));
    assert!(whole_chunks_fit(usize::MAX, 1000, 10));
    assert!(whole_chunks_fit(10, usize::MAX, usize::MAX));
    // Chunks of one sample that stand for 1999 ms each.
    assert!(!whole_chunks_fit(usize::MAX, 1, 1999));
    assert!(whole_chunks_fit(usize::MAX / 1999, 1, 1999));
}

#[test]
fn window_of_no_length_is_never_silent() {
    // A shortest silence of 0 ms makes windows without a sample.
    let s = vec![0; 500];
    assert_eq!(detect_silence(&s, 1000, 0, 1000, 10), Vec::<[usize; 2]>::new());
    assert_eq!(detect_nonsilent(&s, 1000, 0, 1000, 10), vec![[0, 500]]);
}

#[test]
fn stride_decides_how_closely_silence_is_found() {
    // Quiet at 2000..3000 only. A range starts and ends with a window on the
    // stride; a stride that steps over the silence finds none.
    let s = buffer(&[('L', 2000), ('Q', 1000), ('L', 2000)]);
    let t = amplitude(-50.0);
    assert_eq!(detect_silence(&s, 1000, 500, t, 1), vec![[2000, 3000]]);
    assert_eq!(detect_silence(&s, 1000, 500, t, 10), vec![[2000, 3000]]);
    assert_eq!(detect_silence(&s, 1000, 500, t, 300), vec![[2100, 2900]]);
    assert_eq!(detect_silence(&s, 1000, 500, t, 700), vec![[2100, 2600]]);
    assert_eq!(detect_silence(&s, 1000, 500, t, 5000), Vec::<[usize; 2]>::new());
}

#[test]
fn every_quiet_window_lies_in_a_silent_range() {
    let t = amplitude(-50.0);
    let buffers = [
        buffer(&[('L', 1000), ('Q', 500), ('L', 1500), ('Q', 1000), ('L', 700)]),
        buffer(&[('Q', 1234), ('L', 2000), ('Q', 777)]),
        buffer(&[('Q', 600), ('L', 1), ('Q', 600)]),
    ];
    for s in buffers.iter() {
        for (width, step) in [(300usize, 10usize), (100, 70), (500, 1)] {
            let silent = detect_silence(s, 1000, width, t, step);
            let mut start = 0;
            let mut quiet_windows = 0;
            while start + width <= s.len() {
                if window_is_quiet(s, start, width, t) {
                    quiet_windows += 1;
                    assert!(silent
                        .iter()
                        .any(|r| r[0] <= start && start + width <= r[1]));
                }
                start += step;
            }
            assert!(quiet_windows > 0);
            // Each range starts with a quiet window and ends with one.
            for r in silent.iter() {
                assert!(window_is_quiet(s, r[0], width, t));
                assert!(window_is_quiet(s, r[1] - width, width, t));
            }
        }
    }
}

#[test]
fn leading_silence_is_made_of_chunks_that_are_not_loud() {
    let t = amplitude(-50.0);
    let s = buffer(&[('Q', 1234), ('L', 2000), ('Q', 777)]);
    for chunk in [1usize, 7, 10, 100, 617, 1234, 1235] {
        let ms = detect_leading_silence(&s, 1000, t, chunk).unwrap();
        assert_eq!(ms % chunk, 0);
        let chunks = ms / chunk;
        for j in 0..chunks {
            assert!(!window_is_loud(&s, j * chunk, (j + 1) * chunk, t));
        }
        assert!(window_is_loud(&s, chunks * chunk, (chunks + 1) * chunk, t));
    }
}

#[test]
fn stride_beyond_the_buffer_tries_the_first_window_only() {
    let quiet = buffer(&[('Q', 700), ('L', 300)]);
    let t = amplitude(-50.0);
    assert_eq!(detect_silence(&quiet, 1000, 500, t, 501), vec![[0, 500]]);
    assert_eq!(detect_silence(&quiet, 1000, 500, t, usize::MAX), vec![[0, 500]]);
    assert_eq!(detect_nonsilent(&quiet, 2000, 250, t, usize::MAX), vec![[250, 500]]);
    let loud = buffer(&[('L', 300), ('Q', 700)]);
    assert_eq!(detect_silence(&loud, 1000, 500, t, usize::MAX), Vec::<[usize; 2]>::new());
}

#[test]
fn short_buffer_has_no_silence_whatever_the_stride() {
    let s = vec![0; 100];
    assert_eq!(detect_silence(&s, 1000, 101, 5, 0), Vec::<[usize; 2]>::new());
    assert_eq!(detect_silence(&s, 1000, 101, 5, usize::MAX), Vec::<[usize; 2]>::new());
    assert_eq!(detect_silence(&s, 1, usize::MAX, 5, 1), Vec::<[usize; 2]>::new());
}
