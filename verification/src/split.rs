//! Splitting a buffer into its non-silent segments, each with some of the
//! silence around it.

use vstd::prelude::*;

use crate::nonsilent::{detect_nonsilent, lemma_gaps_in_order, nonsilent_ranges};
use crate::ranges::{in_order, span_of, spans, Span};
use crate::silence::{is_scannable, lemma_silent_ranges_in_order, scannable, silent_ranges};
use crate::units::{
    lemma_ms_to_sample_monotonic, ms_to_sample_spec, ms_to_sample_wide, sample_to_ms_spec,
    sample_to_ms_wide,
};

verus! {

/// Each range widened by `keep_ms` on both sides, but not below 0.
pub open spec fn padded(r: Seq<Span>, keep_ms: nat) -> Seq<Span> {
    Seq::new(
        r.len(),
        |i: int|
            Span {
                start: if r[i].start >= keep_ms {
                    (r[i].start - keep_ms) as nat
                } else {
                    0
                },
                end: r[i].end + keep_ms,
            },
    )
}

/// The point halfway between `a` and `b`, rounded down.
pub open spec fn midpoint(a: nat, b: nat) -> nat {
    (a + b) / 2
}

/// Whether range `i + 1` starts before range `i` ends.
pub open spec fn overlaps_next(p: Seq<Span>, i: int) -> bool {
    0 <= i && i + 1 < p.len() && p[i + 1].start < p[i].end
}

/// The ranges with each overlap settled: where a range starts before the one
/// before it ends, both meet at the midpoint of the overlap.
pub open spec fn resolved(p: Seq<Span>) -> Seq<Span> {
    Seq::new(
        p.len(),
        |i: int|
            Span {
                start: if overlaps_next(p, i - 1) {
                    midpoint(p[i - 1].end, p[i].start)
                } else {
                    p[i].start
                },
                end: if overlaps_next(p, i) {
                    midpoint(p[i].end, p[i + 1].start)
                } else {
                    p[i].end
                },
            },
    )
}

/// The position in a buffer of `len` samples at which `ms` falls, but no
/// further than its end.
pub open spec fn clamped_sample(ms: nat, sample_rate: nat, len: nat) -> nat {
    if ms_to_sample_spec(ms, sample_rate) < len {
        ms_to_sample_spec(ms, sample_rate)
    } else {
        len
    }
}

/// The samples that lie in the range `r`.
pub open spec fn segment(samples: Seq<i32>, sample_rate: nat, r: Span) -> Seq<i32> {
    samples.subrange(
        clamped_sample(r.start, sample_rate, samples.len()) as int,
        clamped_sample(r.end, sample_rate, samples.len()) as int,
    )
}

/// The samples that lie in each of the ranges.
pub open spec fn segments(samples: Seq<i32>, sample_rate: nat, r: Seq<Span>) -> Seq<Seq<i32>> {
    Seq::new(r.len(), |i: int| segment(samples, sample_rate, r[i]))
}

/// The ranges at which a buffer is cut: its non-silent ranges, widened by
/// `keep_silence_ms` and with the overlaps settled.
pub open spec fn cut_ranges(
    samples: Seq<i32>,
    sample_rate: nat,
    min_silence_len_ms: nat,
    silence_thresh: u32,
    keep_silence_ms: nat,
    seek_step_ms: nat,
) -> Seq<Span> {
    resolved(
        padded(
            nonsilent_ranges(
                samples,
                sample_rate,
                min_silence_len_ms,
                silence_thresh,
                seek_step_ms,
            ),
            keep_silence_ms,
        ),
    )
}

/// The segments into which a buffer is split.
pub open spec fn split_segments(
    samples: Seq<i32>,
    sample_rate: nat,
    min_silence_len_ms: nat,
    silence_thresh: u32,
    keep_silence_ms: nat,
    seek_step_ms: nat,
) -> Seq<Seq<i32>> {
    segments(
        samples,
        sample_rate,
        cut_ranges(
            samples,
            sample_rate,
            min_silence_len_ms,
            silence_thresh,
            keep_silence_ms,
            seek_step_ms,
        ),
    )
}

/// The contents of a list of buffers.
pub open spec fn contents(buffers: Seq<Vec<i32>>) -> Seq<Seq<i32>> {
    Seq::new(buffers.len(), |i: int| buffers[i]@)
}

/// Ranges that are widened and settled stay in order: none runs backwards,
/// none starts before the one before it ends, and none ends later than the
/// limit plus the padding.
pub proof fn lemma_resolved_in_order(r: Seq<Span>, keep_ms: nat, limit: nat)
    requires
        in_order(r, limit),
    ensures
        in_order(resolved(padded(r, keep_ms)), limit + keep_ms),
{
    let p = padded(r, keep_ms);
    let q = resolved(p);
    assert forall|i: int| 0 <= i < q.len() implies (#[trigger] q[i]).start <= q[i].end <= limit
        + keep_ms by {
        lemma_resolved_at(r, keep_ms, limit, i);
        assert(r[i].end <= limit);
    }
    assert forall|i: int| 0 <= i < q.len() - 1 implies (#[trigger] q[i]).end <= q[i
        + 1].start by {
        lemma_resolved_at(r, keep_ms, limit, i);
        lemma_resolved_at(r, keep_ms, limit, i + 1);
    }
}

/// Once the ranges are widened and settled, range `i` lies within its widened
/// form, does not run backwards, and ends no later than the next one starts.
pub proof fn lemma_resolved_at(r: Seq<Span>, keep_ms: nat, limit: nat, i: int)
    requires
        in_order(r, limit),
        0 <= i < r.len(),
    ensures
        ({
            let p = padded(r, keep_ms);
            let q = resolved(p);
            &&& p[i].start <= q[i].start <= q[i].end <= p[i].end
            &&& i + 1 < r.len() ==> q[i].end <= q[i + 1].start
        }),
{
    let p = padded(r, keep_ms);
    let q = resolved(p);
    assert(r[i].start <= r[i].end <= limit);
    assert(p[i].end == r[i].end + keep_ms);
    assert(p[i].start <= r[i].start);
    assert(r[i].start <= p[i].start + keep_ms);
    if i > 0 {
        assert(r[i - 1].start <= r[i - 1].end <= limit);
        assert(r[i - 1].end <= r[i].start);
        assert(p[i - 1].end == r[i - 1].end + keep_ms);
    }
    if i + 1 < r.len() {
        assert(r[i + 1].start <= r[i + 1].end <= limit);
        assert(r[i].end <= r[i + 1].start);
        assert(p[i + 1].start <= r[i + 1].start);
        assert(r[i + 1].start <= p[i + 1].start + keep_ms);
        assert(p[i + 1].end == r[i + 1].end + keep_ms);
        assert(overlaps_next(p, (i + 1) - 1) == overlaps_next(p, i));
        assert(q[i + 1].start == if overlaps_next(p, i) {
            midpoint(p[i].end, p[i + 1].start)
        } else {
            p[i + 1].start
        });
    }
}

/// Without padding nothing overlaps, so the cut ranges are the ranges
/// themselves.
pub proof fn lemma_no_padding(r: Seq<Span>, limit: nat)
    requires
        in_order(r, limit),
    ensures
        resolved(padded(r, 0)) == r,
{
    let p = padded(r, 0);
    assert(p =~= r);
    assert forall|i: int| 0 <= i < r.len() implies (#[trigger] resolved(r)[i]) == r[i] by {
        if i > 0 {
            assert(r[i - 1].end <= r[i].start);
        }
        if i + 1 < r.len() {
            assert(r[i].end <= r[i + 1].start);
        }
    }
    assert(resolved(r) =~= r);
}

/// The buffers of a list joined into one, in order.
pub open spec fn concat(parts: Seq<Seq<i32>>) -> Seq<i32>
    decreases parts.len(),
{
    if parts.len() == 0 {
        Seq::empty()
    } else {
        concat(parts.drop_last()) + parts.last()
    }
}

/// The ranges at which a buffer is cut come in ascending order, none runs
/// backwards, and no two of them overlap, whatever the padding.
pub proof fn lemma_cut_ranges_in_order(
    samples: Seq<i32>,
    sample_rate: nat,
    min_silence_len_ms: nat,
    silence_thresh: u32,
    keep_silence_ms: nat,
    seek_step_ms: nat,
)
    requires
        sample_rate > 0,
        min_silence_len_ms <= sample_to_ms_spec(samples.len(), sample_rate)
            ==> ms_to_sample_spec(seek_step_ms, sample_rate) > 0,
    ensures
        in_order(
            cut_ranges(
                samples,
                sample_rate,
                min_silence_len_ms,
                silence_thresh,
                keep_silence_ms,
                seek_step_ms,
            ),
            sample_to_ms_spec(samples.len(), sample_rate) + keep_silence_ms,
        ),
{
    let total_ms = sample_to_ms_spec(samples.len(), sample_rate);
    lemma_silent_ranges_in_order(
        samples,
        sample_rate,
        min_silence_len_ms,
        silence_thresh,
        seek_step_ms,
    );
    lemma_gaps_in_order(
        silent_ranges(samples, sample_rate, min_silence_len_ms, silence_thresh, seek_step_ms),
        total_ms,
    );
    lemma_resolved_in_order(
        nonsilent_ranges(samples, sample_rate, min_silence_len_ms, silence_thresh, seek_step_ms),
        keep_silence_ms,
        total_ms,
    );
}

/// Splitting with no silence kept gives the samples of each non-silent range,
/// so the pieces, joined, are the non-silent content of the buffer in its
/// order.
pub proof fn lemma_split_without_padding(
    samples: Seq<i32>,
    sample_rate: nat,
    min_silence_len_ms: nat,
    silence_thresh: u32,
    seek_step_ms: nat,
)
    requires
        sample_rate > 0,
        min_silence_len_ms <= sample_to_ms_spec(samples.len(), sample_rate)
            ==> ms_to_sample_spec(seek_step_ms, sample_rate) > 0,
    ensures
        split_segments(
            samples,
            sample_rate,
            min_silence_len_ms,
            silence_thresh,
            0,
            seek_step_ms,
        ) == segments(
            samples,
            sample_rate,
            nonsilent_ranges(
                samples,
                sample_rate,
                min_silence_len_ms,
                silence_thresh,
                seek_step_ms,
            ),
        ),
        concat(
            split_segments(
                samples,
                sample_rate,
                min_silence_len_ms,
                silence_thresh,
                0,
                seek_step_ms,
            ),
        ) == concat(
            segments(
                samples,
                sample_rate,
                nonsilent_ranges(
                    samples,
                    sample_rate,
                    min_silence_len_ms,
                    silence_thresh,
                    seek_step_ms,
                ),
            ),
        ),
{
    let total_ms = sample_to_ms_spec(samples.len(), sample_rate);
    lemma_silent_ranges_in_order(
        samples,
        sample_rate,
        min_silence_len_ms,
        silence_thresh,
        seek_step_ms,
    );
    lemma_gaps_in_order(
        silent_ranges(samples, sample_rate, min_silence_len_ms, silence_thresh, seek_step_ms),
        total_ms,
    );
    lemma_no_padding(
        nonsilent_ranges(samples, sample_rate, min_silence_len_ms, silence_thresh, seek_step_ms),
        total_ms,
    );
}

/// Widens each range by `keep_ms` on both sides, but not below 0.
pub fn pad_ranges(ranges: &Vec<[usize; 2]>, keep_ms: usize) -> (out: Vec<[usize; 2]>)
    requires
        forall|i: int| 0 <= i < ranges@.len() ==> (#[trigger] ranges@[i])[1] + keep_ms <= usize::MAX,
    ensures
        spans(out@) == padded(spans(ranges@), keep_ms as nat),
{
    let mut out: Vec<[usize; 2]> = Vec::new();
    let mut i: usize = 0;
    while i < ranges.len()
        invariant
            i <= ranges@.len(),
            out@.len() == i,
            forall|j: int|
                0 <= j < ranges@.len() ==> (#[trigger] ranges@[j])[1] + keep_ms <= usize::MAX,
            forall|j: int|
                0 <= j < i ==> span_of(#[trigger] out@[j]) == padded(
                    spans(ranges@),
                    keep_ms as nat,
                )[j],
        decreases ranges@.len() - i,
    {
        let range = ranges[i];
        assert(range == ranges@[i as int]);
        let start: usize = if range[0] >= keep_ms {
            range[0] - keep_ms
        } else {
            0
        };
        out.push([start, range[1] + keep_ms]);
        i = i + 1;
    }
    assert(spans(out@) =~= padded(spans(ranges@), keep_ms as nat));
    out
}

/// The point halfway between `a` and `b`, rounded down.
pub fn halfway(a: usize, b: usize) -> (mid: usize)
    ensures
        mid == midpoint(a as nat, b as nat),
{
    if a <= b {
        a + (b - a) / 2
    } else {
        b + (a - b) / 2
    }
}

/// Settles the overlaps between each range and the next.
pub fn resolve_overlaps(ranges: &Vec<[usize; 2]>) -> (out: Vec<[usize; 2]>)
    ensures
        spans(out@) == resolved(spans(ranges@)),
{
    let mut out: Vec<[usize; 2]> = Vec::new();
    let n = ranges.len();
    let mut i: usize = 0;
    while i < n
        invariant
            n == ranges@.len(),
            i <= n,
            out@.len() == i,
            forall|j: int|
                0 <= j < i ==> span_of(#[trigger] out@[j]) == resolved(spans(ranges@))[j],
        decreases n - i,
    {
        let range = ranges[i];
        assert(range == ranges@[i as int]);
        let mut start: usize = range[0];
        let mut end: usize = range[1];
        if i > 0 {
            let before = ranges[i - 1];
            assert(before == ranges@[i - 1]);
            if range[0] < before[1] {
                start = halfway(before[1], range[0]);
            }
        }
        if i + 1 < n {
            let after = ranges[i + 1];
            assert(after == ranges@[i + 1]);
            if after[0] < range[1] {
                end = halfway(range[1], after[0]);
            }
        }
        out.push([start, end]);
        i = i + 1;
    }
    assert(spans(out@) =~= resolved(spans(ranges@)));
    out
}

/// The position in `samples` at which `ms` falls, but no further than its end.
pub fn sample_position(ms: usize, sample_rate: usize, len: usize) -> (pos: usize)
    ensures
        pos == clamped_sample(ms as nat, sample_rate as nat, len as nat),
{
    let wide = ms_to_sample_wide(ms, sample_rate);
    if wide < len as u128 {
        wide as usize
    } else {
        len
    }
}

/// Cuts `samples` at each of the ranges, which are in order.
pub fn cut_segments(samples: &[i32], sample_rate: usize, ranges: &Vec<[usize; 2]>) -> (out: Vec<
    Vec<i32>,
>)
    requires
        forall|i: int| 0 <= i < ranges@.len() ==> (#[trigger] ranges@[i])[0] <= ranges@[i][1],
    ensures
        contents(out@) == segments(samples@, sample_rate as nat, spans(ranges@)),
{
    let mut out: Vec<Vec<i32>> = Vec::new();
    let mut i: usize = 0;
    while i < ranges.len()
        invariant
            i <= ranges@.len(),
            out@.len() == i,
            forall|j: int| 0 <= j < ranges@.len() ==> (#[trigger] ranges@[j])[0] <= ranges@[j][1],
            forall|j: int|
                0 <= j < i ==> (#[trigger] out@[j])@ == segment(
                    samples@,
                    sample_rate as nat,
                    spans(ranges@)[j],
                ),
        decreases ranges@.len() - i,
    {
        let range = ranges[i];
        assert(range == ranges@[i as int]);
        proof {
            lemma_ms_to_sample_monotonic(range[0] as nat, range[1] as nat, sample_rate as nat);
        }
        let start = sample_position(range[0], sample_rate, samples.len());
        let end = sample_position(range[1], sample_rate, samples.len());
        let piece = vstd::slice::slice_to_vec(vstd::slice::slice_subrange(samples, start, end));
        out.push(piece);
        i = i + 1;
    }
    assert(contents(out@) =~= segments(samples@, sample_rate as nat, spans(ranges@)));
    out
}

/// Whether a buffer of `len` samples can be split: it can be scanned for
/// silence, and its length in milliseconds with the padding added still fits a
/// machine word.
pub open spec fn splittable(
    len: nat,
    sample_rate: nat,
    min_silence_len_ms: nat,
    keep_silence_ms: nat,
    seek_step_ms: nat,
) -> bool {
    &&& scannable(len, sample_rate, min_silence_len_ms, seek_step_ms)
    &&& sample_to_ms_spec(len, sample_rate) + keep_silence_ms <= usize::MAX
}

/// Decides whether a buffer of `len` samples can be split.
pub fn is_splittable(
    len: usize,
    sample_rate: usize,
    min_silence_len_ms: usize,
    keep_silence_ms: usize,
    seek_step_ms: usize,
) -> (ok: bool)
    ensures
        ok == splittable(
            len as nat,
            sample_rate as nat,
            min_silence_len_ms as nat,
            keep_silence_ms as nat,
            seek_step_ms as nat,
        ),
{
    is_scannable(len, sample_rate, min_silence_len_ms, seek_step_ms) && sample_to_ms_wide(
        len,
        sample_rate,
    ) + keep_silence_ms as u128 <= usize::MAX as u128
}

/// Splits `samples` into its non-silent segments, in order. Each segment keeps
/// up to `keep_silence_ms` of the silence on either side; where that makes two
/// segments overlap, they meet halfway. Yields no segment where the whole
/// buffer is silent.
pub fn split_on_silence(
    samples: &[i32],
    sample_rate: usize,
    min_silence_len_ms: usize,
    silence_thresh: u32,
    keep_silence_ms: usize,
    seek_step_ms: usize,
) -> (pieces: Vec<Vec<i32>>)
    requires
        splittable(
            samples@.len(),
            sample_rate as nat,
            min_silence_len_ms as nat,
            keep_silence_ms as nat,
            seek_step_ms as nat,
        ),
    ensures
        contents(pieces@) == split_segments(
            samples@,
            sample_rate as nat,
            min_silence_len_ms as nat,
            silence_thresh,
            keep_silence_ms as nat,
            seek_step_ms as nat,
        ),
{
    let nonsilent = detect_nonsilent(
        samples,
        sample_rate,
        min_silence_len_ms,
        silence_thresh,
        seek_step_ms,
    );
    let ghost total_ms = sample_to_ms_spec(samples@.len(), sample_rate as nat);
    proof {
        let n = spans(nonsilent@);
        assert forall|i: int| 0 <= i < nonsilent@.len() implies (#[trigger] nonsilent@[i])[1]
            + keep_silence_ms <= usize::MAX by {
            assert(n[i].start <= n[i].end <= total_ms);
        }
    }
    let with_padding = pad_ranges(&nonsilent, keep_silence_ms);
    let cuts = resolve_overlaps(&with_padding);
    proof {
        lemma_resolved_in_order(spans(nonsilent@), keep_silence_ms as nat, total_ms);
        let q = spans(cuts@);
        assert forall|i: int| 0 <= i < cuts@.len() implies (#[trigger] cuts@[i])[0]
            <= cuts@[i][1] by {
            assert(q[i].start <= q[i].end);
        }
    }
    cut_segments(samples, sample_rate, &cuts)
}

} // verus!
