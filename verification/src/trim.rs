//! Trimming the silence at both ends of a buffer.

use vstd::prelude::*;

use vstd::arithmetic::div_mod::{
    lemma_div_is_ordered, lemma_div_multiples_vanish, lemma_fundamental_div_mod, lemma_mod_bound,
};

use crate::energy::{
    all_within, is_loud, lemma_within_has_no_loud_window, no_loud_window, window_is_loud,
};
use crate::error::SilenceError;
use crate::leading::{
    detect_leading_silence, leading_silence_ms, lemma_leading_silence_without_loud_chunk,
    lemma_within_has_no_loud_chunk, no_loud_chunk, whole_chunks_ms,
};
use crate::split::{clamped_sample, sample_position};
use crate::units::ms_to_sample_spec;

verus! {

/// Scans `trimmed` backwards in windows of `per_ms` samples, the first of
/// which ends at `window_end`: the end of the first loud window that is met,
/// or the length of `trimmed` where no window is loud.
pub open spec fn loud_end_from(trimmed: Seq<i32>, per_ms: nat, thresh: u32, window_end: nat) -> nat
    decreases window_end,
{
    if per_ms == 0 || window_end < per_ms {
        trimmed.len()
    } else if is_loud(trimmed.subrange(window_end - per_ms, window_end as int), thresh) {
        window_end
    } else {
        loud_end_from(trimmed, per_ms, thresh, (window_end - per_ms) as nat)
    }
}

/// Where the sound of `trimmed` ends. The scan goes backwards from the end of
/// the buffer in windows of `per_ms` samples, so its first window is made of
/// the last `per_ms` samples.
pub open spec fn loud_end(trimmed: Seq<i32>, per_ms: nat, thresh: u32) -> nat {
    loud_end_from(trimmed, per_ms, thresh, trimmed.len())
}

/// Where the sound of `samples` starts: the end of its leading silence, but no
/// further than the end of the buffer.
pub open spec fn leading_cut(
    samples: Seq<i32>,
    sample_rate: nat,
    silence_thresh: u32,
    chunk_size_ms: nat,
) -> nat {
    clamped_sample(
        leading_silence_ms(samples, sample_rate, silence_thresh, chunk_size_ms),
        sample_rate,
        samples.len(),
    )
}

/// `samples` without the silence at its start and at its end.
pub open spec fn without_silent_edges(
    samples: Seq<i32>,
    sample_rate: nat,
    silence_thresh: u32,
    chunk_size_ms: nat,
) -> Seq<i32> {
    let rest = samples.subrange(
        leading_cut(samples, sample_rate, silence_thresh, chunk_size_ms) as int,
        samples.len() as int,
    );
    rest.subrange(0, loud_end(rest, sample_rate / 1000, silence_thresh) as int)
}

/// What trimming comes to: a refusal where a chunk holds no sample at all,
/// else the buffer without its silent edges.
pub open spec fn trim_outcome(
    samples: Seq<i32>,
    sample_rate: nat,
    silence_thresh: u32,
    chunk_size_ms: nat,
) -> Result<Seq<i32>, SilenceError> {
    if ms_to_sample_spec(chunk_size_ms, sample_rate) == 0 {
        Err(SilenceError::InvalidParameter)
    } else {
        Ok(without_silent_edges(samples, sample_rate, silence_thresh, chunk_size_ms))
    }
}

/// Where window number `j` counted from the end of the buffer is loud and no
/// window before it is, the scan ends at the end of window number `j`.
pub proof fn lemma_loud_end_is_first_loud_window(trimmed: Seq<i32>, per_ms: nat, thresh: u32, j: nat)
    requires
        per_ms > 0,
        (j + 1) * per_ms <= trimmed.len(),
        is_loud(window_from_end(trimmed, per_ms, j), thresh),
        forall|k: nat| k < j ==> !is_loud(#[trigger] window_from_end(trimmed, per_ms, k), thresh),
    ensures
        loud_end(trimmed, per_ms, thresh) == trimmed.len() - j * per_ms,
{
    lemma_scan_reaches_window(trimmed, per_ms, thresh, j, 0);
}

/// No window counted from the end of the buffer is loud.
pub open spec fn no_loud_window_from_end(trimmed: Seq<i32>, per_ms: nat, thresh: u32) -> bool {
    forall|k: nat|
        (k + 1) * per_ms <= trimmed.len() ==> !is_loud(
            #[trigger] window_from_end(trimmed, per_ms, k),
            thresh,
        )
}

/// Where no window counted from the end of the buffer is loud, the scan ends
/// at the length of the buffer: nothing is cut.
pub proof fn lemma_loud_end_without_loud_window(trimmed: Seq<i32>, per_ms: nat, thresh: u32)
    requires
        no_loud_window_from_end(trimmed, per_ms, thresh),
    ensures
        loud_end(trimmed, per_ms, thresh) == trimmed.len(),
{
    if per_ms > 0 {
        assert(0 * per_ms == 0) by (nonlinear_arith);
        lemma_scan_finds_nothing(trimmed, per_ms, thresh, 0);
    }
}

/// The scan, having come to window number `at`, finds no loud window.
proof fn lemma_scan_finds_nothing(trimmed: Seq<i32>, per_ms: nat, thresh: u32, at: nat)
    requires
        per_ms > 0,
        at * per_ms <= trimmed.len(),
        no_loud_window_from_end(trimmed, per_ms, thresh),
    ensures
        loud_end_from(trimmed, per_ms, thresh, (trimmed.len() - at * per_ms) as nat)
            == trimmed.len(),
    decreases trimmed.len() - at * per_ms,
{
    let len = trimmed.len() as int;
    let w = per_ms as int;
    assert((at + 1) * w == at * w + w) by (nonlinear_arith);
    let window_end = len - at * w;
    if window_end >= w {
        assert(window_from_end(trimmed, per_ms, at) == trimmed.subrange(window_end - w, window_end));
        assert(!is_loud(window_from_end(trimmed, per_ms, at), thresh));
        lemma_scan_finds_nothing(trimmed, per_ms, thresh, at + 1);
    }
}

/// Window number `j` counted from the end of the buffer: the `per_ms` samples
/// that end `j` windows before the end.
pub open spec fn window_from_end(trimmed: Seq<i32>, per_ms: nat, j: nat) -> Seq<i32> {
    trimmed.subrange(trimmed.len() - (j + 1) * per_ms, trimmed.len() - j * per_ms)
}

/// The scan, having come to window number `at` without a loud window, goes on
/// to the first loud window, number `j`.
proof fn lemma_scan_reaches_window(trimmed: Seq<i32>, per_ms: nat, thresh: u32, j: nat, at: nat)
    requires
        per_ms > 0,
        at <= j,
        (j + 1) * per_ms <= trimmed.len(),
        is_loud(window_from_end(trimmed, per_ms, j), thresh),
        forall|k: nat| k < j ==> !is_loud(#[trigger] window_from_end(trimmed, per_ms, k), thresh),
    ensures
        loud_end_from(trimmed, per_ms, thresh, (trimmed.len() - at * per_ms) as nat)
            == trimmed.len() - j * per_ms,
    decreases j - at,
{
    let len = trimmed.len() as int;
    let w = per_ms as int;
    assert(at * w + w <= (j + 1) * w) by (nonlinear_arith)
        requires
            at <= j,
            w > 0,
    ;
    assert((at + 1) * w == at * w + w) by (nonlinear_arith);
    let window_end = len - at * w;
    assert(window_from_end(trimmed, per_ms, at) == trimmed.subrange(window_end - w, window_end));
    if at < j {
        assert(!is_loud(window_from_end(trimmed, per_ms, at), thresh));
        lemma_scan_reaches_window(trimmed, per_ms, thresh, j, at + 1);
    }
}

/// A buffer none of whose whole chunks and none of whose windows of one
/// millisecond is loud is trimmed to less than one chunk: what is left is the
/// part after the last whole chunk, or less, with nothing cut at its end.
pub proof fn lemma_silent_buffer_trims_to_less_than_a_chunk(
    samples: Seq<i32>,
    sample_rate: nat,
    silence_thresh: u32,
    chunk_size_ms: nat,
)
    requires
        ms_to_sample_spec(chunk_size_ms, sample_rate) > 0,
        no_loud_chunk(samples, ms_to_sample_spec(chunk_size_ms, sample_rate), silence_thresh),
        no_loud_window(samples, sample_rate / 1000, silence_thresh),
    ensures
        trim_outcome(samples, sample_rate, silence_thresh, chunk_size_ms) == Ok::<
            Seq<i32>,
            SilenceError,
        >(
            samples.subrange(
                leading_cut(samples, sample_rate, silence_thresh, chunk_size_ms) as int,
                samples.len() as int,
            ),
        ),
        without_silent_edges(samples, sample_rate, silence_thresh, chunk_size_ms).len()
            < ms_to_sample_spec(chunk_size_ms, sample_rate),
{
    let len = samples.len();
    let chunk = ms_to_sample_spec(chunk_size_ms, sample_rate);
    let chunks = len / chunk;
    let per_ms = sample_rate / 1000;
    let lead_ms = leading_silence_ms(samples, sample_rate, silence_thresh, chunk_size_ms);
    lemma_leading_silence_without_loud_chunk(samples, sample_rate, silence_thresh, chunk_size_ms);
    assert(lead_ms == chunks * chunk_size_ms);
    // Whole chunks of milliseconds span at least as many whole chunks of samples.
    lemma_fundamental_div_mod((chunk_size_ms * sample_rate) as int, 1000);
    assert(chunks * chunk * 1000 <= chunks * chunk_size_ms * sample_rate) by (nonlinear_arith)
        requires
            chunk * 1000 <= chunk_size_ms * sample_rate,
    ;
    lemma_div_is_ordered(
        (chunks * chunk * 1000) as int,
        (chunks * chunk_size_ms * sample_rate) as int,
        1000,
    );
    lemma_div_multiples_vanish((chunks * chunk) as int, 1000);
    assert(chunks * chunk * 1000 == 1000 * (chunks * chunk)) by (nonlinear_arith);
    assert(lead_ms * sample_rate == chunks * chunk_size_ms * sample_rate);
    assert(chunks * chunk <= ms_to_sample_spec(lead_ms, sample_rate));
    // The part after the last whole chunk is shorter than a chunk.
    lemma_fundamental_div_mod(len as int, chunk as int);
    assert(chunks * chunk == chunk * chunks) by (nonlinear_arith);
    lemma_mod_bound(len as int, chunk as int);
    let cut = leading_cut(samples, sample_rate, silence_thresh, chunk_size_ms);
    assert(len - cut < chunk);
    let rest = samples.subrange(cut as int, len as int);
    // A window of the rest is a window of the buffer.
    assert(no_loud_window_from_end(rest, per_ms, silence_thresh)) by {
        assert forall|k: nat| (k + 1) * per_ms <= rest.len() implies !is_loud(
            #[trigger] window_from_end(rest, per_ms, k),
            silence_thresh,
        ) by {
            let start = rest.len() - (k + 1) * per_ms;
            assert((k + 1) * per_ms == k * per_ms + per_ms) by (nonlinear_arith);
            assert(k * per_ms >= 0) by (nonlinear_arith);
            assert(window_from_end(rest, per_ms, k) =~= samples.subrange(
                cut + start,
                cut + start + per_ms,
            ));
        }
    }
    lemma_loud_end_without_loud_window(rest, per_ms, silence_thresh);
    assert(rest.subrange(0, rest.len() as int) =~= rest);
}

/// A buffer in which no sample exceeds the threshold in magnitude is trimmed
/// to less than one chunk.
pub proof fn lemma_quiet_buffer_trims_to_less_than_a_chunk(
    samples: Seq<i32>,
    sample_rate: nat,
    silence_thresh: u32,
    chunk_size_ms: nat,
)
    requires
        all_within(samples, silence_thresh),
        ms_to_sample_spec(chunk_size_ms, sample_rate) > 0,
    ensures
        without_silent_edges(samples, sample_rate, silence_thresh, chunk_size_ms).len()
            < ms_to_sample_spec(chunk_size_ms, sample_rate),
{
    lemma_within_has_no_loud_chunk(
        samples,
        ms_to_sample_spec(chunk_size_ms, sample_rate),
        silence_thresh,
    );
    lemma_within_has_no_loud_window(samples, sample_rate / 1000, silence_thresh);
    lemma_silent_buffer_trims_to_less_than_a_chunk(
        samples,
        sample_rate,
        silence_thresh,
        chunk_size_ms,
    );
}

/// Finds where the sound of `trimmed` ends, scanning backwards in windows of
/// `per_ms` samples.
pub fn find_loud_end(trimmed: &[i32], per_ms: usize, thresh: u32) -> (end: usize)
    ensures
        end == loud_end(trimmed@, per_ms as nat, thresh),
        end <= trimmed@.len(),
{
    let len = trimmed.len();
    if per_ms == 0 {
        return len;
    }
    let mut window_end: usize = len;
    let mut end: usize = len;
    while window_end >= per_ms
        invariant_except_break
            end == len,
            loud_end(trimmed@, per_ms as nat, thresh) == loud_end_from(
                trimmed@,
                per_ms as nat,
                thresh,
                window_end as nat,
            ),
        invariant
            len == trimmed@.len(),
            per_ms > 0,
            window_end <= len,
        ensures
            end == loud_end(trimmed@, per_ms as nat, thresh),
            end <= len,
        decreases window_end,
    {
        if window_is_loud(trimmed, window_end - per_ms, window_end, thresh) {
            end = window_end;
            break;
        }
        window_end = window_end - per_ms;
    }
    end
}

/// Trims the silence at both ends of `samples`.
///
/// The leading silence is measured in whole chunks of `chunk_size_ms`. The
/// trailing silence is measured backwards from the end of the buffer in windows
/// of one millisecond, up to the last window whose root-mean-square level is
/// above `silence_thresh`; where no window is, nothing is cut at the end.
///
/// Fails where a chunk holds no sample at all.
pub fn remove_silence_edges(
    samples: &[i32],
    sample_rate: usize,
    silence_thresh: u32,
    chunk_size_ms: usize,
) -> (outcome: Result<Vec<i32>, SilenceError>)
    requires
        whole_chunks_ms(samples@.len(), sample_rate as nat, chunk_size_ms as nat) <= usize::MAX,
    ensures
        ms_to_sample_spec(chunk_size_ms as nat, sample_rate as nat) == 0 <==> outcome is Err,
        chunk_size_ms == 0 ==> outcome is Err,
        outcome matches Err(e) ==> e == SilenceError::InvalidParameter,
        outcome matches Ok(trimmed) ==> trimmed@ == without_silent_edges(
            samples@,
            sample_rate as nat,
            silence_thresh,
            chunk_size_ms as nat,
        ),
        outcome matches Ok(trimmed) ==> trimmed@.len() <= samples@.len(),
        trim_outcome(samples@, sample_rate as nat, silence_thresh, chunk_size_ms as nat)
            == (match outcome {
            Ok(trimmed) => Ok::<Seq<i32>, SilenceError>(trimmed@),
            Err(e) => Err::<Seq<i32>, SilenceError>(e),
        }),
{
    let lead_ms = match detect_leading_silence(samples, sample_rate, silence_thresh, chunk_size_ms) {
        Ok(ms) => ms,
        Err(e) => {
            return Err(e);
        },
    };
    let len = samples.len();
    let cut = sample_position(lead_ms, sample_rate, len);
    let rest = vstd::slice::slice_subrange(samples, cut, len);
    let end = find_loud_end(rest, sample_rate / 1000, silence_thresh);
    Ok(vstd::slice::slice_to_vec(vstd::slice::slice_subrange(rest, 0, end)))
}

} // verus!
