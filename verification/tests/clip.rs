use rust_silence::error::SilenceError;
use rust_silence::preprocess_f5::{
    bound_clip, is_boundable, is_composable, preprocess_f5, remove_silence_edges,
    stitch_segments, LENIENT_THRESH, STRICT_THRESH,
};

fn amplitude(db: f64) -> u32 {
    (10.0_f64.powf(db / 20.0) * 2147483648.0) as u32
}

fn buffer(parts: &[(char, usize)]) -> Vec<i32> {
    let mut s = Vec::new();
    for &(kind, n) in parts {
        for _ in 0..n {
            let i = s.len() as i32;
            s.push(if kind == 'L' { 600_000_000 + i } else { 1000 + i % 7 });
        }
    }
    s
}

fn join(s: &[i32], ranges: &[(usize, usize)]) -> Vec<i32> {
    let mut out = Vec::new();
    for &(a, b) in ranges {
        out.extend_from_slice(&s[a..b]);
    }
    out
}

#[test]
fn thresholds_are_fifty_and_forty_decibels_below_full_scale() {
    assert_eq!(LENIENT_THRESH, amplitude(-50.0));
    assert_eq!(STRICT_THRESH, amplitude(-40.0));
}

#[test]
fn stitching_stops_before_the_segment_that_overshoots() {
    let segs = vec![vec![1; 4], vec![2; 3], vec![3; 5], vec![4; 1]];
    // Longer than 6 after two segments; the third would make it 12.
    assert_eq!(stitch_segments(&segs, 6, 11), [vec![1; 4], vec![2; 3]].concat());
    // The third fits just so; the rule then stops at the fourth.
    assert_eq!(
        stitch_segments(&segs, 6, 12),
        [vec![1; 4], vec![2; 3], vec![3; 5]].concat()
    );
    // Not yet longer than the lower bound: taken whatever its length.
    assert_eq!(stitch_segments(&segs, 7, 8), [vec![1; 4], vec![2; 3], vec![3; 5]].concat());
    assert_eq!(stitch_segments(&segs, 100, 0), segs.concat());
    assert_eq!(stitch_segments(&segs, 0, 0), vec![1; 4]);
    assert_eq!(stitch_segments(&Vec::new(), 6, 11), Vec::<i32>::new());
}

#[test]
fn stitching_does_not_skip_to_a_later_segment() {
    // The segment of one sample would fit, but the rule has stopped.
    let segs = vec![vec![1; 7], vec![2; 9], vec![3; 1]];
    assert_eq!(stitch_segments(&segs, 6, 10), vec![1; 7]);
}

#[test]
fn without_clipping_the_edges_are_trimmed_and_silence_appended() {
    let t = amplitude(-42.0);
    let buffers = [
        buffer(&[('Q', 300), ('L', 2000), ('Q', 200)]),
        buffer(&[('L', 2500), ('Q', 500), ('L', 2500), ('Q', 500)]),
        buffer(&[('Q', 1005)]),
        Vec::new(),
    ];
    for s in buffers.iter() {
        for rate in [1000usize, 8000, 22050] {
            let mut expected = remove_silence_edges(s, rate, t, 10).unwrap();
            expected.extend(vec![0; 50 * (rate / 2) / 1000]);
            assert_eq!(preprocess_f5(s, rate, 10, t, false), Ok(expected));
        }
    }
}

#[test]
fn without_clipping_a_long_recording_stays_long() {
    let s = buffer(&[('L', 2500), ('Q', 500)].repeat(10));
    let clip = preprocess_f5(&s, 1000, 10, amplitude(-42.0), false).unwrap();
    // The last loud window ends at 29500; 25 samples of silence follow.
    assert_eq!(clip.len(), 29525);
    assert_eq!(clip[..29500], s[..29500]);
    assert_eq!(clip[29500..], vec![0; 25]);
}

#[test]
fn trailing_silence_is_counted_at_half_the_rate() {
    let s = buffer(&[('L', 100)]);
    let t = amplitude(-42.0);
    assert_eq!(preprocess_f5(&s, 1000, 10, t, false).unwrap().len(), 100 + 25);
    assert_eq!(preprocess_f5(&s, 44100, 10, t, false).unwrap().len(), 100 + 1102);
    assert_eq!(preprocess_f5(&s, 22051, 10, t, false).unwrap().len(), 100 + 551);
}

#[test]
fn short_recording_is_not_cut() {
    let s = buffer(&[('Q', 300), ('L', 2000), ('Q', 200)]);
    let t = amplitude(-42.0);
    let clip = preprocess_f5(&s, 1000, 10, t, true).unwrap();
    let mut expected = s[300..2300].to_vec();
    expected.extend(vec![0; 25]);
    assert_eq!(clip, expected);
    assert_eq!(preprocess_f5(&s, 1000, 10, t, false).unwrap(), clip);
}

#[test]
fn lenient_pass_is_enough_where_its_clip_fits() {
    let s = buffer(&[
        ('L', 3000),
        ('Q', 2000),
        ('L', 4000),
        ('Q', 2000),
        ('L', 5000),
        ('Q', 1500),
        ('L', 3000),
    ]);
    // Pieces of 4000, 6000, 6750 and 3750 samples: two are taken.
    assert_eq!(bound_clip(&s, 1000), s[0..10000].to_vec());
    let clip = preprocess_f5(&s, 1000, 10, amplitude(-42.0), true).unwrap();
    let mut expected = s[0..9000].to_vec();
    expected.extend(vec![0; 25]);
    assert_eq!(clip, expected);
}

#[test]
fn strict_pass_takes_over_where_the_lenient_clip_is_too_long() {
    // Silences of half a second: the lenient pass sees none of them and takes
    // the whole recording, which is too long.
    let s = buffer(&[('L', 2500), ('Q', 500)].repeat(10));
    assert_eq!(bound_clip(&s, 1000), s[0..11750].to_vec());
    let clip = preprocess_f5(&s, 1000, 10, amplitude(-42.0), true).unwrap();
    let mut expected = join(&s, &[(0, 11500)]);
    expected.extend(vec![0; 25]);
    assert_eq!(clip, expected);
}

#[test]
fn clip_is_cut_off_at_the_upper_bound() {
    let s = buffer(&[('L', 30000)]);
    assert_eq!(bound_clip(&s, 1000), s[0..12000].to_vec());
    let clip = preprocess_f5(&s, 1000, 10, amplitude(-42.0), true).unwrap();
    let mut expected = s[0..12000].to_vec();
    expected.extend(vec![0; 25]);
    assert_eq!(clip, expected);
}

#[test]
fn silent_recording_gives_the_trailing_silence_only() {
    let s = vec![0; 20000];
    assert_eq!(bound_clip(&s, 1000), Vec::<i32>::new());
    assert_eq!(preprocess_f5(&s, 1000, 10, amplitude(-42.0), true), Ok(vec![0; 25]));
    assert_eq!(preprocess_f5(&s, 1000, 10, amplitude(-42.0), false), Ok(vec![0; 25]));
}

#[test]
fn composing_refuses_a_zero_chunk_size() {
    let s = buffer(&[('L', 3000)]);
    assert_eq!(
        preprocess_f5(&s, 1000, 0, amplitude(-42.0), true),
        Err(SilenceError::InvalidParameter)
    );
    assert_eq!(
        preprocess_f5(&s, 1000, 0, amplitude(-42.0), false),
        Err(SilenceError::InvalidParameter)
    );
}

#[test]
fn composable_recordings_are_told_apart() {
    assert!(is_composable(48000, 8000, 10, true));
    assert!(is_composable(48000, 8000, 10, false));
    assert!(is_composable(0, 8000, 0, true));
    assert!(!is_composable(48000, 0, 10, true));
    // Without a sample rate no chunk holds a sample: composing is refused,
    // which is an outcome like any other.
    assert!(is_composable(48000, 0, 10, false));
    // 10 ms are less than a sample: no stride for the split.
    assert!(!is_composable(48000, 50, 10, true));
    assert!(is_composable(48000, 50, 10, false));
    assert!(is_boundable(48000, 100));
    assert!(!is_boundable(48000, 99));
    // Twelve seconds must fit a machine word.
    assert!(!is_boundable(48000, usize::MAX / 12 + 1));
    // The time of the whole chunks must fit a machine word.
    assert!(is_composable(usize::MAX, 1000, 10, false));
    assert!(!is_composable(usize::MAX, 1, 1999, false));
}

#[test]
fn composing_below_a_sample_per_chunk_is_refused() {
    let s = buffer(&[('L', 300)]);
    assert_eq!(
        preprocess_f5(&s, 0, 10, amplitude(-42.0), false),
        Err(SilenceError::InvalidParameter)
    );
    assert_eq!(
        preprocess_f5(&s, 50, 10, amplitude(-42.0), false),
        Err(SilenceError::InvalidParameter)
    );
}
