//! Silence at the start of a buffer, measured in whole chunks.

use vstd::prelude::*;

use crate::energy::{all_within, is_loud, lemma_within_is_not_loud, window_is_loud};
use crate::error::SilenceError;
use crate::units::{lemma_zero_ms, ms_to_sample_spec, ms_to_sample_wide};

verus! {

/// The number of whole chunks of `chunk` samples, counted from position
/// `from`, that come before the first loud chunk or the end of the buffer.
pub open spec fn quiet_chunks(samples: Seq<i32>, chunk: nat, thresh: u32, from: nat) -> nat
    decreases samples.len() - from,
{
    if chunk == 0 || from + chunk > samples.len() || is_loud(
        samples.subrange(from as int, (from + chunk) as int),
        thresh,
    ) {
        0
    } else {
        1 + quiet_chunks(samples, chunk, thresh, from + chunk)
    }
}

/// The time covered by all the whole chunks of `chunk_size_ms` that fit in
/// `len` samples.
pub open spec fn whole_chunks_ms(len: nat, sample_rate: nat, chunk_size_ms: nat) -> nat {
    let chunk = ms_to_sample_spec(chunk_size_ms, sample_rate);
    if chunk == 0 {
        0
    } else {
        (len / chunk) * chunk_size_ms
    }
}

/// The length of the silence at the start of `samples`, in milliseconds: the
/// time covered by the whole chunks before the first loud one.
pub open spec fn leading_silence_ms(
    samples: Seq<i32>,
    sample_rate: nat,
    silence_thresh: u32,
    chunk_size_ms: nat,
) -> nat {
    quiet_chunks(samples, ms_to_sample_spec(chunk_size_ms, sample_rate), silence_thresh, 0)
        * chunk_size_ms
}

/// What measuring the leading silence comes to: a refusal where a chunk holds
/// no sample at all, else the length of the silence in milliseconds.
pub open spec fn leading_silence_outcome(
    samples: Seq<i32>,
    sample_rate: nat,
    silence_thresh: u32,
    chunk_size_ms: nat,
) -> Result<nat, SilenceError> {
    if ms_to_sample_spec(chunk_size_ms, sample_rate) == 0 {
        Err(SilenceError::InvalidParameter)
    } else {
        Ok(leading_silence_ms(samples, sample_rate, silence_thresh, chunk_size_ms))
    }
}

/// A chunk size of 0 is refused, whatever the buffer holds, and a chunk that
/// holds at least one sample is not.
pub proof fn lemma_zero_chunk_size_is_refused(
    samples: Seq<i32>,
    sample_rate: nat,
    silence_thresh: u32,
    chunk_size_ms: nat,
)
    ensures
        chunk_size_ms == 0 ==> leading_silence_outcome(
            samples,
            sample_rate,
            silence_thresh,
            chunk_size_ms,
        ) == Err::<nat, SilenceError>(SilenceError::InvalidParameter),
        chunk_size_ms * sample_rate >= 1000 ==> leading_silence_outcome(
            samples,
            sample_rate,
            silence_thresh,
            chunk_size_ms,
        ) is Ok,
{
    lemma_zero_ms(sample_rate);
    if chunk_size_ms * sample_rate >= 1000 {
        vstd::arithmetic::div_mod::lemma_div_is_ordered(
            1000,
            (chunk_size_ms * sample_rate) as int,
            1000,
        );
    }
}

/// `count` whole chunks that fit in `len` samples are at most `len / chunk`.
pub proof fn lemma_chunks_fit(count: nat, chunk: nat, len: nat)
    requires
        chunk > 0,
        count * chunk <= len,
    ensures
        count <= len / chunk,
{
    vstd::arithmetic::div_mod::lemma_div_is_ordered((count * chunk) as int, len as int, chunk as int);
    vstd::arithmetic::div_mod::lemma_div_multiples_vanish(count as int, chunk as int);
    assert(count * chunk == chunk * count) by (nonlinear_arith);
}

/// The samples of chunk number `j`.
pub open spec fn chunk_at(samples: Seq<i32>, chunk: nat, j: nat) -> Seq<i32> {
    samples.subrange((j * chunk) as int, (j * chunk + chunk) as int)
}

/// Whether chunk number `j` lies whole in the buffer and is not loud.
pub open spec fn is_silent_chunk(samples: Seq<i32>, chunk: nat, thresh: u32, j: nat) -> bool {
    j * chunk + chunk <= samples.len() && !is_loud(chunk_at(samples, chunk, j), thresh)
}

/// Counting from chunk number `done`, every chunk before the one at which the
/// count stops lies in the buffer and is not loud.
pub proof fn lemma_counted_chunk_is_not_loud(
    samples: Seq<i32>,
    chunk: nat,
    thresh: u32,
    done: nat,
    j: nat,
)
    requires
        chunk > 0,
        done <= j < done + quiet_chunks(samples, chunk, thresh, done * chunk),
    ensures
        j * chunk + chunk <= samples.len(),
        !is_loud(chunk_at(samples, chunk, j), thresh),
    decreases samples.len() - done * chunk,
{
    let from = done * chunk;
    assert((done + 1) * chunk == from + chunk) by (nonlinear_arith)
        requires
            from == done * chunk,
    ;
    if j > done {
        lemma_counted_chunk_is_not_loud(samples, chunk, thresh, done + 1, j);
    }
}

/// Counting from chunk number `done`, the chunk at which the count stops is
/// loud or does not fit in the buffer.
pub proof fn lemma_count_stops_at_loud_chunk(
    samples: Seq<i32>,
    chunk: nat,
    thresh: u32,
    done: nat,
)
    requires
        chunk > 0,
        done * chunk <= samples.len(),
    ensures
        ({
            let stop = done + quiet_chunks(samples, chunk, thresh, done * chunk);
            stop * chunk + chunk > samples.len() || is_loud(chunk_at(samples, chunk, stop), thresh)
        }),
    decreases samples.len() - done * chunk,
{
    let from = done * chunk;
    assert((done + 1) * chunk == from + chunk) by (nonlinear_arith)
        requires
            from == done * chunk,
    ;
    if !(from + chunk > samples.len() || is_loud(
        samples.subrange(from as int, (from + chunk) as int),
        thresh,
    )) {
        lemma_count_stops_at_loud_chunk(samples, chunk, thresh, done + 1);
    }
}

/// The leading silence ends at the first chunk that is loud or does not fit in
/// the buffer: every chunk before it is silent, and it is not.
pub proof fn lemma_leading_silence_ends_at_first_loud_chunk(
    samples: Seq<i32>,
    chunk: nat,
    thresh: u32,
)
    requires
        chunk > 0,
    ensures
        forall|j: nat|
            j < quiet_chunks(samples, chunk, thresh, 0) ==> #[trigger] is_silent_chunk(
                samples,
                chunk,
                thresh,
                j,
            ),
        !is_silent_chunk(samples, chunk, thresh, quiet_chunks(samples, chunk, thresh, 0)),
{
    assert(0 * chunk == 0) by (nonlinear_arith);
    assert forall|j: nat| j < quiet_chunks(samples, chunk, thresh, 0) implies #[trigger] is_silent_chunk(
        samples,
        chunk,
        thresh,
        j,
    ) by {
        lemma_counted_chunk_is_not_loud(samples, chunk, thresh, 0, j);
    }
    lemma_count_stops_at_loud_chunk(samples, chunk, thresh, 0);
}

/// No whole chunk of the buffer is loud.
pub open spec fn no_loud_chunk(samples: Seq<i32>, chunk: nat, thresh: u32) -> bool {
    forall|j: nat|
        j * chunk + chunk <= samples.len() ==> !is_loud(
            #[trigger] chunk_at(samples, chunk, j),
            thresh,
        )
}

/// A buffer none of whose whole chunks is loud is silent for the whole time
/// that its whole chunks cover.
pub proof fn lemma_leading_silence_without_loud_chunk(
    samples: Seq<i32>,
    sample_rate: nat,
    silence_thresh: u32,
    chunk_size_ms: nat,
)
    requires
        no_loud_chunk(samples, ms_to_sample_spec(chunk_size_ms, sample_rate), silence_thresh),
    ensures
        leading_silence_ms(samples, sample_rate, silence_thresh, chunk_size_ms) == whole_chunks_ms(
            samples.len(),
            sample_rate,
            chunk_size_ms,
        ),
{
    let chunk = ms_to_sample_spec(chunk_size_ms, sample_rate);
    let len = samples.len();
    let stop = quiet_chunks(samples, chunk, silence_thresh, 0);
    if chunk > 0 {
        lemma_leading_silence_ends_at_first_loud_chunk(samples, chunk, silence_thresh);
        // The count does not stop before the last whole chunk.
        assert(stop * chunk + chunk > len) by {
            if stop * chunk + chunk <= len {
                assert(!is_loud(chunk_at(samples, chunk, stop), silence_thresh));
            }
        }
        // Nor does it go beyond it.
        assert(stop * chunk <= len) by {
            if stop > 0 {
                let j = (stop - 1) as nat;
                assert(is_silent_chunk(samples, chunk, silence_thresh, j));
                assert(j * chunk + chunk == stop * chunk) by (nonlinear_arith)
                    requires
                        j + 1 == stop,
                ;
            } else {
                assert(0 * chunk == 0) by (nonlinear_arith);
            }
        }
        lemma_chunks_fit(stop, chunk, len);
        let whole = len / chunk;
        if stop < whole {
            vstd::arithmetic::div_mod::lemma_fundamental_div_mod(len as int, chunk as int);
            assert(stop * chunk + chunk <= len) by (nonlinear_arith)
                requires
                    stop + 1 <= whole,
                    len == chunk * whole + len as int % chunk as int,
                    len as int % chunk as int >= 0,
                    chunk > 0,
            ;
        }
        assert(stop == whole);
    } else {
        assert(stop == 0);
        assert(0 * chunk_size_ms == 0) by (nonlinear_arith);
    }
}

/// Where no sample exceeds the threshold in magnitude, no whole chunk is loud.
pub proof fn lemma_within_has_no_loud_chunk(samples: Seq<i32>, chunk: nat, thresh: u32)
    requires
        all_within(samples, thresh),
    ensures
        no_loud_chunk(samples, chunk, thresh),
{
    assert forall|j: nat| j * chunk + chunk <= samples.len() implies !is_loud(
        #[trigger] chunk_at(samples, chunk, j),
        thresh,
    ) by {
        let w = chunk_at(samples, chunk, j);
        assert forall|i: int| 0 <= i < w.len() implies -thresh <= #[trigger] w[i] <= thresh by {
            assert(w[i] == samples[j * chunk + i]);
        }
        lemma_within_is_not_loud(w, thresh);
    }
}

/// A buffer in which no sample exceeds the threshold in magnitude is silent
/// for the whole time that its whole chunks cover.
pub proof fn lemma_leading_silence_of_quiet_buffer(
    samples: Seq<i32>,
    sample_rate: nat,
    silence_thresh: u32,
    chunk_size_ms: nat,
)
    requires
        all_within(samples, silence_thresh),
    ensures
        leading_silence_ms(samples, sample_rate, silence_thresh, chunk_size_ms) == whole_chunks_ms(
            samples.len(),
            sample_rate,
            chunk_size_ms,
        ),
{
    lemma_within_has_no_loud_chunk(
        samples,
        ms_to_sample_spec(chunk_size_ms, sample_rate),
        silence_thresh,
    );
    lemma_leading_silence_without_loud_chunk(samples, sample_rate, silence_thresh, chunk_size_ms);
}

/// Decides whether the time covered by the whole chunks in `len` samples fits
/// a machine word.
pub fn whole_chunks_fit(len: usize, sample_rate: usize, chunk_size_ms: usize) -> (ok: bool)
    ensures
        ok == (whole_chunks_ms(len as nat, sample_rate as nat, chunk_size_ms as nat)
            <= usize::MAX),
{
    let chunk = ms_to_sample_wide(chunk_size_ms, sample_rate);
    if chunk == 0 {
        return true;
    }
    let chunks: u128 = len as u128 / chunk;
    proof {
        vstd::arithmetic::div_mod::lemma_div_is_ordered_by_denominator(
            len as int,
            1,
            chunk as int,
        );
        assert(chunks * chunk_size_ms <= 0xffff_ffff_ffff_ffff * 0xffff_ffff_ffff_ffff)
            by (nonlinear_arith)
            requires
                0 <= chunks <= 0xffff_ffff_ffff_ffff,
                0 <= chunk_size_ms <= 0xffff_ffff_ffff_ffff,
        ;
    }
    chunks * (chunk_size_ms as u128) <= usize::MAX as u128
}

/// Measures the silence at the start of `samples` in whole chunks of
/// `chunk_size_ms`: the offset in milliseconds of the first chunk whose
/// root-mean-square level is above `silence_thresh`, or the time that all the
/// whole chunks cover where none is.
///
/// Fails where a chunk holds no sample at all.
pub fn detect_leading_silence(
    samples: &[i32],
    sample_rate: usize,
    silence_thresh: u32,
    chunk_size_ms: usize,
) -> (outcome: Result<usize, SilenceError>)
    requires
        whole_chunks_ms(samples@.len(), sample_rate as nat, chunk_size_ms as nat) <= usize::MAX,
    ensures
        ms_to_sample_spec(chunk_size_ms as nat, sample_rate as nat) == 0 <==> outcome is Err,
        chunk_size_ms == 0 ==> outcome is Err,
        outcome matches Err(e) ==> e == SilenceError::InvalidParameter,
        outcome matches Ok(ms) ==> ms == leading_silence_ms(
            samples@,
            sample_rate as nat,
            silence_thresh,
            chunk_size_ms as nat,
        ),
        leading_silence_outcome(
            samples@,
            sample_rate as nat,
            silence_thresh,
            chunk_size_ms as nat,
        ) == (match outcome {
            Ok(ms) => Ok::<nat, SilenceError>(ms as nat),
            Err(e) => Err::<nat, SilenceError>(e),
        }),
{
    proof {
        lemma_zero_ms(sample_rate as nat);
    }
    let wide = ms_to_sample_wide(chunk_size_ms, sample_rate);
    if wide == 0 {
        return Err(SilenceError::InvalidParameter);
    }
    let len = samples.len();
    if wide > len as u128 {
        return Ok(0);
    }
    let chunk: usize = wide as usize;
    let mut trim_index: usize = 0;
    let mut trim_index_ms: usize = 0;
    let ghost done: nat = 0;
    proof {
        assert(0 * chunk == 0) by (nonlinear_arith);
        assert(0 * chunk_size_ms == 0) by (nonlinear_arith);
    }
    while len - trim_index >= chunk
        invariant
            len == samples@.len(),
            chunk > 0,
            chunk == ms_to_sample_spec(chunk_size_ms as nat, sample_rate as nat),
            (len as nat / chunk as nat) * chunk_size_ms <= usize::MAX,
            trim_index == done * chunk,
            trim_index <= len,
            trim_index_ms == done * chunk_size_ms,
            quiet_chunks(samples@, chunk as nat, silence_thresh, 0) == done + quiet_chunks(
                samples@,
                chunk as nat,
                silence_thresh,
                trim_index as nat,
            ),
        ensures
            trim_index_ms == quiet_chunks(samples@, chunk as nat, silence_thresh, 0)
                * chunk_size_ms,
        decreases len - trim_index,
    {
        if window_is_loud(samples, trim_index, trim_index + chunk, silence_thresh) {
            break;
        }
        proof {
            assert((done + 1) * chunk == done * chunk + chunk) by (nonlinear_arith);
            assert((done + 1) * chunk_size_ms == done * chunk_size_ms + chunk_size_ms)
                by (nonlinear_arith);
            lemma_chunks_fit(done + 1, chunk as nat, len as nat);
            assert((done + 1) * chunk_size_ms <= (len as nat / chunk as nat) * chunk_size_ms)
                by (nonlinear_arith)
                requires
                    done + 1 <= len as nat / chunk as nat,
            ;
            done = done + 1;
        }
        trim_index = trim_index + chunk;
        trim_index_ms = trim_index_ms + chunk_size_ms;
    }
    Ok(trim_index_ms)
}

} // verus!
