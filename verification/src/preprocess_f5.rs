//! Composing a clip of bounded length for speech-synthesis training: the
//! non-silent segments of a recording are stitched together until the clip is
//! long enough, its silent edges are trimmed, and a short silence is appended.

use vstd::prelude::*;

use crate::error::SilenceError;
use crate::leading::{whole_chunks_fit, whole_chunks_ms};
use crate::split::{contents, is_splittable, split_on_silence, split_segments, splittable};
pub use crate::trim::remove_silence_edges;

use crate::trim::{trim_outcome, without_silent_edges};
use crate::units::{
    lemma_ms_to_sample_monotonic, ms_to_sample, ms_to_sample_spec, ms_to_sample_wide,
};

verus! {

/// A clip is not cut short before it is longer than this, in milliseconds.
pub const LOWER_BOUND_MS: usize = 6000;

/// A clip is never longer than this, in milliseconds, before its edges are
/// trimmed.
pub const UPPER_BOUND_MS: usize = 12000;

/// The silence that is kept on either side of a segment, in milliseconds.
pub const KEEP_SILENCE_MS: usize = 1000;

/// The stride of the silence scan, in milliseconds.
pub const SEEK_STEP_MS: usize = 10;

/// The shortest silence at which the first pass splits, in milliseconds.
pub const LENIENT_MIN_SILENCE_MS: usize = 1000;

/// The level below which the first pass hears silence: 50 dB below the full
/// scale of 2^31, as a linear amplitude.
pub const LENIENT_THRESH: u32 = 6_790_939;

/// The shortest silence at which the second pass splits, in milliseconds.
pub const STRICT_MIN_SILENCE_MS: usize = 100;

/// The level below which the second pass hears silence: 40 dB below the full
/// scale of 2^31, as a linear amplitude.
pub const STRICT_THRESH: u32 = 21_474_836;

/// The length of the silence that is appended to a clip, in milliseconds. It is
/// converted to samples at half the sample rate.
pub const TRAILING_PAD_MS: usize = 50;

/// The number of zero samples that are appended to a clip.
pub open spec fn trailing_pad(sample_rate: nat) -> nat {
    ms_to_sample_spec(TRAILING_PAD_MS as nat, sample_rate / 2)
}

/// The segments from position `i` on that the greedy rule still takes, joined,
/// where `acc_len` samples have been taken so far. The rule stops before the
/// first segment that would make the clip longer than `upper`, once the clip is
/// longer than `lower`.
pub open spec fn stitched_from(
    segs: Seq<Seq<i32>>,
    lower: nat,
    upper: nat,
    i: nat,
    acc_len: nat,
) -> Seq<i32>
    decreases segs.len() - i,
{
    if i >= segs.len() || (acc_len > lower && acc_len + segs[i as int].len() > upper) {
        Seq::empty()
    } else {
        segs[i as int] + stitched_from(segs, lower, upper, i + 1, acc_len + segs[i as int].len())
    }
}

/// The clip that the greedy rule stitches from `segs`.
pub open spec fn stitched(segs: Seq<Seq<i32>>, lower: nat, upper: nat) -> Seq<i32> {
    stitched_from(segs, lower, upper, 0, 0)
}

/// One pass: split at silences of `min_silence_len_ms` at `thresh`, then
/// stitch.
pub open spec fn pass(samples: Seq<i32>, sample_rate: nat, min_silence_len_ms: nat, thresh: u32) -> Seq<
    i32,
> {
    stitched(
        split_segments(
            samples,
            sample_rate,
            min_silence_len_ms,
            thresh,
            KEEP_SILENCE_MS as nat,
            SEEK_STEP_MS as nat,
        ),
        ms_to_sample_spec(LOWER_BOUND_MS as nat, sample_rate),
        ms_to_sample_spec(UPPER_BOUND_MS as nat, sample_rate),
    )
}

/// The clip of bounded length: the lenient pass; the strict pass on the same
/// buffer where the lenient one came out too long; cut off at the upper bound
/// where it is still too long.
pub open spec fn bounded_clip(samples: Seq<i32>, sample_rate: nat) -> Seq<i32> {
    let upper = ms_to_sample_spec(UPPER_BOUND_MS as nat, sample_rate);
    let lenient = pass(samples, sample_rate, LENIENT_MIN_SILENCE_MS as nat, LENIENT_THRESH);
    let chosen = if lenient.len() > upper {
        pass(samples, sample_rate, STRICT_MIN_SILENCE_MS as nat, STRICT_THRESH)
    } else {
        lenient
    };
    if chosen.len() > upper {
        chosen.subrange(0, upper as int)
    } else {
        chosen
    }
}

/// What composing comes to: what trimming the clip comes to, with the trailing
/// silence appended where it is a buffer.
pub open spec fn compose_outcome(
    samples: Seq<i32>,
    sample_rate: nat,
    chunk_size_ms: nat,
    silence_thresh: u32,
    clip_short: bool,
) -> Result<Seq<i32>, SilenceError> {
    padded_outcome(
        trim_outcome(
            if clip_short {
                bounded_clip(samples, sample_rate)
            } else {
                samples
            },
            sample_rate,
            silence_thresh,
            chunk_size_ms,
        ),
        sample_rate,
    )
}

/// The outcome of trimming with the trailing silence appended: a refusal
/// stays what it is.
pub open spec fn padded_outcome(trimmed: Result<Seq<i32>, SilenceError>, sample_rate: nat) -> Result<
    Seq<i32>,
    SilenceError,
> {
    match trimmed {
        Ok(clip) => Ok(clip + Seq::new(trailing_pad(sample_rate), |i: int| 0i32)),
        Err(e) => Err(e),
    }
}

/// Without `clip_short`, composing comes to what trimming the whole buffer
/// comes to, with the trailing silence appended: nothing is split, stitched or
/// cut off, and a refusal of the one is a refusal of the other.
pub proof fn lemma_unclipped_is_trimmed_and_padded(
    samples: Seq<i32>,
    sample_rate: nat,
    chunk_size_ms: nat,
    silence_thresh: u32,
)
    ensures
        compose_outcome(samples, sample_rate, chunk_size_ms, silence_thresh, false)
            == padded_outcome(
            trim_outcome(samples, sample_rate, silence_thresh, chunk_size_ms),
            sample_rate,
        ),
{
}

/// The finished clip: the bounded clip, or the whole buffer where
/// `clip_short` is off, without its silent edges and with the trailing
/// silence appended.
pub open spec fn composed_clip(
    samples: Seq<i32>,
    sample_rate: nat,
    chunk_size_ms: nat,
    silence_thresh: u32,
    clip_short: bool,
) -> Seq<i32> {
    without_silent_edges(
        if clip_short {
            bounded_clip(samples, sample_rate)
        } else {
            samples
        },
        sample_rate,
        silence_thresh,
        chunk_size_ms,
    ) + Seq::new(trailing_pad(sample_rate), |i: int| 0i32)
}

/// The longest that a clip can be before its edges are trimmed.
pub open spec fn longest_clip(len: nat, sample_rate: nat, clip_short: bool) -> nat {
    if clip_short {
        ms_to_sample_spec(UPPER_BOUND_MS as nat, sample_rate)
    } else {
        len
    }
}

/// Whether a recording of `len` samples can be brought to a bounded length:
/// the upper bound in samples fits a machine word, and the recording can be
/// split as the strict pass splits it (the lenient pass is then no problem).
pub open spec fn boundable(len: nat, sample_rate: nat) -> bool {
    &&& ms_to_sample_spec(UPPER_BOUND_MS as nat, sample_rate) <= usize::MAX
    &&& splittable(
        len,
        sample_rate,
        STRICT_MIN_SILENCE_MS as nat,
        KEEP_SILENCE_MS as nat,
        SEEK_STEP_MS as nat,
    )
}

/// Whether a clip can be composed from a recording of `len` samples: with
/// `clip_short`, the recording can be brought to a bounded length; and the time
/// covered by the whole chunks of the longest clip that can come of it fits a
/// machine word.
pub open spec fn composable(len: nat, sample_rate: nat, chunk_size_ms: nat, clip_short: bool) -> bool {
    &&& clip_short ==> boundable(len, sample_rate)
    &&& whole_chunks_ms(longest_clip(len, sample_rate, clip_short), sample_rate, chunk_size_ms)
        <= usize::MAX
}

/// Decides whether a recording of `len` samples can be brought to a bounded
/// length.
pub fn is_boundable(len: usize, sample_rate: usize) -> (ok: bool)
    ensures
        ok == boundable(len as nat, sample_rate as nat),
{
    ms_to_sample_wide(UPPER_BOUND_MS, sample_rate) <= usize::MAX as u128 && is_splittable(
        len,
        sample_rate,
        STRICT_MIN_SILENCE_MS,
        KEEP_SILENCE_MS,
        SEEK_STEP_MS,
    )
}

/// Decides whether a clip can be composed from a recording of `len` samples.
pub fn is_composable(len: usize, sample_rate: usize, chunk_size_ms: usize, clip_short: bool) -> (ok:
    bool)
    ensures
        ok == composable(len as nat, sample_rate as nat, chunk_size_ms as nat, clip_short),
{
    if clip_short && !is_boundable(len, sample_rate) {
        return false;
    }
    let longest: usize = if clip_short {
        ms_to_sample(UPPER_BOUND_MS, sample_rate)
    } else {
        len
    };
    whole_chunks_fit(longest, sample_rate, chunk_size_ms)
}

/// A shorter buffer holds no more whole chunks.
pub proof fn lemma_whole_chunks_monotonic(a: nat, b: nat, sample_rate: nat, chunk_size_ms: nat)
    requires
        a <= b,
    ensures
        whole_chunks_ms(a, sample_rate, chunk_size_ms) <= whole_chunks_ms(
            b,
            sample_rate,
            chunk_size_ms,
        ),
{
    let chunk = ms_to_sample_spec(chunk_size_ms, sample_rate);
    if chunk > 0 {
        vstd::arithmetic::div_mod::lemma_div_is_ordered(a as int, b as int, chunk as int);
        let fewer = a / chunk;
        let more = b / chunk;
        assert(fewer * chunk_size_ms <= more * chunk_size_ms) by (nonlinear_arith)
            requires
                fewer <= more,
        ;
    }
}

/// Stitches segments into one clip, in order: each segment is taken unless the
/// clip is already longer than `lower` and the segment would make it longer
/// than `upper`; the first segment that is not taken ends the clip.
pub fn stitch_segments(segs: &Vec<Vec<i32>>, lower: usize, upper: usize) -> (clip: Vec<i32>)
    ensures
        clip@ == stitched(contents(segs@), lower as nat, upper as nat),
{
    let mut clip: Vec<i32> = Vec::new();
    let mut i: usize = 0;
    let ghost all = contents(segs@);
    let ghost goal = stitched(all, lower as nat, upper as nat);
    while i < segs.len()
        invariant_except_break
            goal == clip@ + stitched_from(all, lower as nat, upper as nat, i as nat, clip@.len()),
        invariant
            i <= segs@.len(),
            all == contents(segs@),
        ensures
            goal == clip@,
        decreases segs@.len() - i,
    {
        let seg = &segs[i];
        assert(seg@ == all[i as int]);
        if clip.len() > lower && clip.len() as u128 + seg.len() as u128 > upper as u128 {
            assert(goal =~= clip@);
            break;
        }
        let ghost before = clip@;
        clip.extend_from_slice(seg.as_slice());
        assert(clip@ =~= before + seg@);
        assert(goal =~= clip@ + stitched_from(
            all,
            lower as nat,
            upper as nat,
            (i + 1) as nat,
            clip@.len(),
        ));
        i = i + 1;
    }
    assert(goal =~= clip@);
    clip
}

/// Composes a clip from a recording.
///
/// With `clip_short`, the recording is first brought to a bounded length: its
/// non-silent segments are stitched until the clip is longer than 6 s and the
/// next segment would take it beyond 12 s, first with segments split at
/// silences of 1 s at the lenient threshold, then, where that clip is longer
/// than 12 s, with segments split at silences of 100 ms at the strict
/// threshold; a clip that is still longer than 12 s is cut off there. Without
/// `clip_short` the recording is taken whole.
///
/// Then the silent edges are trimmed, as `remove_silence_edges` does with
/// `silence_thresh` and `chunk_size_ms`, and the trailing silence is appended.
///
/// Fails where a chunk holds no sample at all.
pub fn preprocess_f5(
    samples: &[i32],
    sample_rate: usize,
    chunk_size_ms: usize,
    silence_thresh: u32,
    clip_short: bool,
) -> (outcome: Result<Vec<i32>, SilenceError>)
    requires
        composable(samples@.len(), sample_rate as nat, chunk_size_ms as nat, clip_short),
    ensures
        ms_to_sample_spec(chunk_size_ms as nat, sample_rate as nat) == 0 <==> outcome is Err,
        chunk_size_ms == 0 ==> outcome is Err,
        outcome matches Err(e) ==> e == SilenceError::InvalidParameter,
        outcome matches Ok(clip) ==> clip@ == composed_clip(
            samples@,
            sample_rate as nat,
            chunk_size_ms as nat,
            silence_thresh,
            clip_short,
        ),
        !clip_short ==> (outcome matches Ok(clip) ==> clip@ == without_silent_edges(
            samples@,
            sample_rate as nat,
            silence_thresh,
            chunk_size_ms as nat,
        ) + Seq::new(trailing_pad(sample_rate as nat), |i: int| 0i32)),
        compose_outcome(
            samples@,
            sample_rate as nat,
            chunk_size_ms as nat,
            silence_thresh,
            clip_short,
        ) == (match outcome {
            Ok(clip) => Ok::<Seq<i32>, SilenceError>(clip@),
            Err(e) => Err::<Seq<i32>, SilenceError>(e),
        }),
{
    let trimmed = if clip_short {
        let bounded = bound_clip(samples, sample_rate);
        proof {
            lemma_whole_chunks_monotonic(
                bounded@.len(),
                ms_to_sample_spec(UPPER_BOUND_MS as nat, sample_rate as nat),
                sample_rate as nat,
                chunk_size_ms as nat,
            );
        }
        remove_silence_edges(bounded.as_slice(), sample_rate, silence_thresh, chunk_size_ms)
    } else {
        remove_silence_edges(samples, sample_rate, silence_thresh, chunk_size_ms)
    };
    match trimmed {
        Ok(mut clip) => {
            proof {
                vstd::arithmetic::div_mod::lemma_div_is_ordered(
                    (TRAILING_PAD_MS * (sample_rate / 2)) as int,
                    (TRAILING_PAD_MS * sample_rate) as int,
                    1000,
                );
            }
            let pad = ms_to_sample(TRAILING_PAD_MS, sample_rate / 2);
            let ghost before = clip@;
            let mut silence: Vec<i32> = vec![0i32; pad];
            assert(silence@ =~= Seq::new(pad as nat, |i: int| 0i32));
            clip.append(&mut silence);
            assert(clip@ =~= before + Seq::new(pad as nat, |i: int| 0i32));
            Ok(clip)
        },
        Err(e) => Err(e),
    }
}

/// Brings a recording to a bounded length: the lenient pass, the strict pass
/// where the lenient one came out too long, and a cut at the upper bound where
/// the clip is still too long.
pub fn bound_clip(samples: &[i32], sample_rate: usize) -> (clip: Vec<i32>)
    requires
        boundable(samples@.len(), sample_rate as nat),
    ensures
        clip@ == bounded_clip(samples@, sample_rate as nat),
        clip@.len() <= ms_to_sample_spec(UPPER_BOUND_MS as nat, sample_rate as nat),
{
    proof {
        lemma_ms_to_sample_monotonic(
            LOWER_BOUND_MS as nat,
            UPPER_BOUND_MS as nat,
            sample_rate as nat,
        );
        lemma_ms_to_sample_monotonic(
            SEEK_STEP_MS as nat,
            UPPER_BOUND_MS as nat,
            sample_rate as nat,
        );
    }
    let lower = ms_to_sample(LOWER_BOUND_MS, sample_rate);
    let upper = ms_to_sample(UPPER_BOUND_MS, sample_rate);
    let lenient = split_on_silence(
        samples,
        sample_rate,
        LENIENT_MIN_SILENCE_MS,
        LENIENT_THRESH,
        KEEP_SILENCE_MS,
        SEEK_STEP_MS,
    );
    let mut clip = stitch_segments(&lenient, lower, upper);
    if clip.len() > upper {
        let strict = split_on_silence(
            samples,
            sample_rate,
            STRICT_MIN_SILENCE_MS,
            STRICT_THRESH,
            KEEP_SILENCE_MS,
            SEEK_STEP_MS,
        );
        clip = stitch_segments(&strict, lower, upper);
    }
    if clip.len() > upper {
        clip.truncate(upper);
    }
    clip
}

} // verus!
