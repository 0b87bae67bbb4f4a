//! Non-silent ranges: what the silent ranges leave of a buffer.

use vstd::prelude::*;

use crate::ranges::{
    alternate, apart, in_order, lemma_alternate_length, lemma_in_order_far, lemma_tiles_length,
    spans, tiles, total_length, Span,
};
use crate::silence::{detect_silence, lemma_silent_ranges_in_order, scannable, silent_ranges};
use crate::units::{ms_to_sample_spec, sample_to_ms, sample_to_ms_spec};

verus! {

/// The stretch before the first silent range, unless that range starts at 0.
pub open spec fn gap_before(silence: Seq<Span>) -> Seq<Span>
    recommends
        silence.len() > 0,
{
    if silence[0].start != 0 {
        seq![Span { start: 0, end: silence[0].start }]
    } else {
        Seq::empty()
    }
}

/// The stretches between each silent range and the next.
pub open spec fn gaps_between(silence: Seq<Span>) -> Seq<Span>
    recommends
        silence.len() > 0,
{
    Seq::new(
        (silence.len() - 1) as nat,
        |i: int| Span { start: silence[i].end, end: silence[i + 1].start },
    )
}

/// The stretch after the last silent range, unless that range ends at
/// `total_ms`.
pub open spec fn gap_after(silence: Seq<Span>, total_ms: nat) -> Seq<Span>
    recommends
        silence.len() > 0,
{
    if silence.last().end != total_ms {
        seq![Span { start: silence.last().end, end: total_ms }]
    } else {
        Seq::empty()
    }
}

/// What a list of silent ranges leaves of `[0, total_ms)`: the whole stretch
/// where there is no silence; else the stretch before the first range, those
/// between two ranges and the one after the last. A stretch between two ranges
/// is listed even where it is empty; the ones at either end are not.
pub open spec fn gaps(silence: Seq<Span>, total_ms: nat) -> Seq<Span> {
    if silence.len() == 0 {
        seq![Span { start: 0, end: total_ms }]
    } else {
        gap_before(silence) + gaps_between(silence) + gap_after(silence, total_ms)
    }
}

/// The non-silent ranges of `samples`: the gaps that its silent ranges leave.
pub open spec fn nonsilent_ranges(
    samples: Seq<i32>,
    sample_rate: nat,
    min_silence_len_ms: nat,
    silence_thresh: u32,
    seek_step_ms: nat,
) -> Seq<Span> {
    gaps(
        silent_ranges(samples, sample_rate, min_silence_len_ms, silence_thresh, seek_step_ms),
        sample_to_ms_spec(samples.len(), sample_rate),
    )
}

/// The gaps that ordered ranges leave are in order themselves.
pub proof fn lemma_gaps_in_order(silence: Seq<Span>, total_ms: nat)
    requires
        in_order(silence, total_ms),
    ensures
        in_order(gaps(silence, total_ms), total_ms),
{
    let g = gaps(silence, total_ms);
    if silence.len() > 0 {
        let lead = gap_before(silence);
        let mid = gaps_between(silence);
        let k = silence.len() as int;
        let off = lead.len() as int;
        assert(silence[0].start <= silence[0].end);
        assert(silence[k - 1].start <= silence[k - 1].end <= total_ms);
        assert forall|i: int| 0 <= i < g.len() implies (#[trigger] g[i]).start <= g[i].end
            <= total_ms by {
            if off <= i < off + mid.len() {
                let j = i - off;
                assert(g[i] == mid[j]);
                assert(silence[j].end <= silence[j + 1].start);
                assert(silence[j + 1].start <= silence[j + 1].end <= total_ms);
            }
        }
        assert forall|i: int| 0 <= i < g.len() - 1 implies (#[trigger] g[i]).end <= g[i
            + 1].start by {
            // g[i] ends where some silent range starts, g[i + 1] starts where it ends.
            let j = i + 1 - off;
            assert(0 <= j < k);
            assert(silence[j].start <= silence[j].end);
            if i >= off {
                assert(g[i] == mid[i - off]);
            }
            if i + 1 < off + mid.len() {
                assert(g[i + 1] == mid[j]);
            }
        }
    }
}

/// Two lists whose items follow each other in turn, `a` first: each item of
/// `b` starts where the item of `a` at its position ends, and ends where the
/// next item of `a` starts. `a` has as many items as `b`, or one more.
pub open spec fn chained(a: Seq<Span>, b: Seq<Span>) -> bool {
    &&& a.len() == b.len() || a.len() == b.len() + 1
    &&& forall|i: int| 0 <= i < a.len() ==> (#[trigger] a[i]).start <= a[i].end
    &&& forall|i: int| 0 <= i < b.len() ==> (#[trigger] b[i]).start <= b[i].end
    &&& forall|i: int| 0 <= i < b.len() ==> (#[trigger] a[i]).end == b[i].start
    &&& forall|i: int| 0 <= i < a.len() - 1 ==> (#[trigger] b[i]).end == a[i + 1].start
}

/// Where the chain of `a` and `b` ends: with the last item of `b` where both
/// are as long, else with the last item of `a`.
pub open spec fn chain_end(a: Seq<Span>, b: Seq<Span>) -> nat
    recommends
        a.len() > 0,
{
    if a.len() == b.len() {
        b.last().end
    } else {
        a.last().end
    }
}

/// Two chained lists, taken in turn, cover the stretch from the start of the
/// first item to the end of the last.
pub proof fn lemma_chained_tiles(a: Seq<Span>, b: Seq<Span>)
    requires
        chained(a, b),
        a.len() > 0,
    ensures
        tiles(alternate(a, b), a[0].start, chain_end(a, b)),
        alternate(a, b).len() == a.len() + b.len(),
        alternate(a, b)[0] == a[0],
    decreases a.len() + b.len(),
{
    let rest = a.drop_first();
    let t = alternate(a, b);
    assert(t == seq![a[0]] + alternate(b, rest));
    if b.len() == 0 {
        assert(alternate(b, rest) == rest);
        assert(rest.len() == 0);
        assert(t =~= seq![a[0]]);
    } else {
        assert(chained(b, rest)) by {
            assert forall|i: int| 0 <= i < rest.len() implies (#[trigger] rest[i]).start
                <= rest[i].end by {
                assert(rest[i] == a[i + 1]);
            }
            assert forall|i: int| 0 <= i < rest.len() implies (#[trigger] b[i]).end
                == rest[i].start by {
                assert(rest[i] == a[i + 1]);
            }
            assert forall|i: int| 0 <= i < b.len() - 1 implies (#[trigger] rest[i]).end == b[i
                + 1].start by {
                assert(rest[i] == a[i + 1]);
                assert(a[i + 1].end == b[i + 1].start);
            }
        }
        lemma_chained_tiles(b, rest);
        let u = alternate(b, rest);
        assert(chain_end(b, rest) == chain_end(a, b)) by {
            if rest.len() > 0 {
                assert(rest.last() == a.last());
            }
        }
        assert(a[0].end == b[0].start);
        assert forall|i: int| 0 <= i < t.len() implies (#[trigger] t[i]).start <= t[i].end by {
            if i > 0 {
                assert(t[i] == u[i - 1]);
            }
        }
        assert forall|i: int| 0 <= i < t.len() - 1 implies (#[trigger] t[i]).end == t[i
            + 1].start by {
            assert(t[i + 1] == u[i]);
            if i > 0 {
                assert(t[i] == u[i - 1]);
            }
        }
        assert(t.last() == u.last());
    }
}

/// Ordered ranges and the gaps that they leave, taken in turn, cover
/// `[0, total_ms)` exactly. The list that comes first is the one that holds the
/// stretch at 0.
pub proof fn lemma_gaps_tile(silence: Seq<Span>, total_ms: nat)
    requires
        in_order(silence, total_ms),
    ensures
        tiles(
            if silence.len() > 0 && silence[0].start == 0 {
                alternate(silence, gaps(silence, total_ms))
            } else {
                alternate(gaps(silence, total_ms), silence)
            },
            0,
            total_ms,
        ),
{
    let g = gaps(silence, total_ms);
    lemma_gaps_in_order(silence, total_ms);
    if silence.len() == 0 {
        assert(alternate(g, silence) == seq![g[0]] + alternate(silence, g.drop_first()));
        assert(alternate(silence, g.drop_first()) == g.drop_first());
        assert(alternate(g, silence) =~= g);
    } else {
        let k = silence.len() as int;
        let mid = gaps_between(silence);
        let tail = gap_after(silence, total_ms);
        assert(silence[k - 1].end <= total_ms);
        if silence[0].start == 0 {
            assert(g =~= mid + tail);
            assert(chained(silence, g)) by {
                assert forall|i: int| 0 <= i < g.len() implies (#[trigger] silence[i]).end
                    == g[i].start by {
                    if i < mid.len() {
                        assert(g[i] == mid[i]);
                    }
                }
                assert forall|i: int| 0 <= i < k - 1 implies (#[trigger] g[i]).end == silence[i
                    + 1].start by {
                    assert(g[i] == mid[i]);
                }
            }
            lemma_chained_tiles(silence, g);
            if g.len() == k {
                assert(g.last() == tail[0]);
            }
        } else {
            let lead = gap_before(silence);
            assert(g =~= lead + mid + tail);
            assert(chained(g, silence)) by {
                assert forall|i: int| 0 <= i < k implies (#[trigger] g[i]).end
                    == silence[i].start by {
                    if i > 0 {
                        assert(g[i] == mid[i - 1]);
                    }
                }
                assert forall|i: int| 0 <= i < g.len() - 1 implies (#[trigger] silence[i]).end
                    == g[i + 1].start by {
                    if i < mid.len() {
                        assert(g[i + 1] == mid[i]);
                    }
                }
            }
            lemma_chained_tiles(g, silence);
            if g.len() == k + 1 {
                assert(g.last() == tail[0]);
            }
        }
    }
}

/// No gap has a point in common with a range but, at most, an end.
pub proof fn lemma_gaps_are_apart(silence: Seq<Span>, total_ms: nat, i: int, j: int)
    requires
        in_order(silence, total_ms),
        0 <= i < silence.len(),
        0 <= j < gaps(silence, total_ms).len(),
    ensures
        apart(silence[i], gaps(silence, total_ms)[j]),
{
    let g = gaps(silence, total_ms);
    let lead = gap_before(silence);
    let mid = gaps_between(silence);
    let tail = gap_after(silence, total_ms);
    let k = silence.len() as int;
    let off = lead.len() as int;
    assert(g =~= lead + mid + tail);
    if j < off {
        lemma_in_order_far(silence, total_ms, 0, i);
    } else if j - off < k - 1 {
        let at = j - off;
        assert(g[j] == mid[at]);
        if i <= at {
            lemma_in_order_far(silence, total_ms, i, at);
        } else {
            lemma_in_order_far(silence, total_ms, at + 1, i);
        }
    } else {
        assert(g[j] == tail[0]);
        lemma_in_order_far(silence, total_ms, i, k - 1);
    }
}

/// The gaps that a list of silent ranges leaves of `[0, total_ms)`.
pub fn invert_ranges(silence: &Vec<[usize; 2]>, total_ms: usize) -> (nonsilent: Vec<[usize; 2]>)
    ensures
        spans(nonsilent@) == gaps(spans(silence@), total_ms as nat),
{
    let mut nonsilent: Vec<[usize; 2]> = Vec::new();
    let ghost s = spans(silence@);
    if silence.len() == 0 {
        nonsilent.push([0, total_ms]);
        assert(spans(nonsilent@) =~= gaps(s, total_ms as nat));
        return nonsilent;
    }
    let first = silence[0];
    if first[0] != 0 {
        nonsilent.push([0, first[0]]);
    }
    assert(spans(nonsilent@) =~= gap_before(s));
    let mut prev_end: usize = first[1];
    let mut i: usize = 1;
    while i < silence.len()
        invariant
            1 <= i <= silence@.len(),
            s == spans(silence@),
            prev_end == silence@[i - 1][1],
            spans(nonsilent@) == gap_before(s) + gaps_between(s).take(i - 1),
        decreases silence@.len() - i,
    {
        let range = silence[i];
        let ghost before = spans(nonsilent@);
        nonsilent.push([prev_end, range[0]]);
        proof {
            let mid = gaps_between(s);
            assert(mid.take(i as int) =~= mid.take(i - 1).push(mid[i - 1]));
            assert(spans(nonsilent@) =~= before.push(mid[i - 1]));
            assert(before.push(mid[i - 1]) =~= gap_before(s) + mid.take(i as int));
        }
        prev_end = range[1];
        i = i + 1;
    }
    assert(gaps_between(s).take(i - 1) =~= gaps_between(s));
    let ghost before = spans(nonsilent@);
    if prev_end != total_ms {
        nonsilent.push([prev_end, total_ms]);
        assert(spans(nonsilent@) =~= before + gap_after(s, total_ms as nat));
    } else {
        assert(spans(nonsilent@) =~= before + gap_after(s, total_ms as nat));
    }
    nonsilent
}

/// Finds the non-silent ranges of `samples`, in milliseconds, in ascending
/// order: what `detect_silence` leaves of the buffer. Where the buffer has no
/// silence, the one range is the whole buffer.
pub fn detect_nonsilent(
    samples: &[i32],
    sample_rate: usize,
    min_silence_len_ms: usize,
    silence_thresh: u32,
    seek_step_ms: usize,
) -> (ranges: Vec<[usize; 2]>)
    requires
        scannable(
            samples@.len(),
            sample_rate as nat,
            min_silence_len_ms as nat,
            seek_step_ms as nat,
        ),
    ensures
        spans(ranges@) == nonsilent_ranges(
            samples@,
            sample_rate as nat,
            min_silence_len_ms as nat,
            silence_thresh,
            seek_step_ms as nat,
        ),
        in_order(spans(ranges@), sample_to_ms_spec(samples@.len(), sample_rate as nat)),
{
    let silence = detect_silence(
        samples,
        sample_rate,
        min_silence_len_ms,
        silence_thresh,
        seek_step_ms,
    );
    let total_ms = sample_to_ms(samples.len(), sample_rate);
    proof {
        lemma_gaps_in_order(spans(silence@), total_ms as nat);
    }
    invert_ranges(&silence, total_ms)
}

/// The silent and the non-silent ranges of a buffer, taken in turn, cover the
/// whole of it exactly, with no stretch left out and none covered twice. The
/// list that comes first is the one that holds the stretch at 0: the silent
/// ranges where the first of them starts at 0, else the non-silent ranges.
pub proof fn lemma_ranges_tile(
    samples: Seq<i32>,
    sample_rate: nat,
    min_silence_len_ms: nat,
    silence_thresh: u32,
    seek_step_ms: nat,
)
    requires
        sample_rate > 0,
        min_silence_len_ms <= sample_to_ms_spec(samples.len(), sample_rate)
            ==> ms_to_sample_spec(seek_step_ms, sample_rate) > 0,
    ensures
        ({
            let silent = silent_ranges(
                samples,
                sample_rate,
                min_silence_len_ms,
                silence_thresh,
                seek_step_ms,
            );
            let sound = nonsilent_ranges(
                samples,
                sample_rate,
                min_silence_len_ms,
                silence_thresh,
                seek_step_ms,
            );
            tiles(
                if silent.len() > 0 && silent[0].start == 0 {
                    alternate(silent, sound)
                } else {
                    alternate(sound, silent)
                },
                0,
                sample_to_ms_spec(samples.len(), sample_rate),
            )
        }),
{
    lemma_silent_ranges_in_order(
        samples,
        sample_rate,
        min_silence_len_ms,
        silence_thresh,
        seek_step_ms,
    );
    lemma_gaps_tile(
        silent_ranges(samples, sample_rate, min_silence_len_ms, silence_thresh, seek_step_ms),
        sample_to_ms_spec(samples.len(), sample_rate),
    );
}

/// The silent and the non-silent ranges of a buffer are as long together as
/// the buffer, and no silent range has a point in common with a non-silent one
/// but, at most, an end.
pub proof fn lemma_ranges_partition(
    samples: Seq<i32>,
    sample_rate: nat,
    min_silence_len_ms: nat,
    silence_thresh: u32,
    seek_step_ms: nat,
)
    requires
        sample_rate > 0,
        min_silence_len_ms <= sample_to_ms_spec(samples.len(), sample_rate)
            ==> ms_to_sample_spec(seek_step_ms, sample_rate) > 0,
    ensures
        ({
            let silent = silent_ranges(
                samples,
                sample_rate,
                min_silence_len_ms,
                silence_thresh,
                seek_step_ms,
            );
            let sound = nonsilent_ranges(
                samples,
                sample_rate,
                min_silence_len_ms,
                silence_thresh,
                seek_step_ms,
            );
            &&& total_length(silent) + total_length(sound) == sample_to_ms_spec(
                samples.len(),
                sample_rate,
            )
            &&& forall|i: int, j: int|
                0 <= i < silent.len() && 0 <= j < sound.len() ==> apart(
                    #[trigger] silent[i],
                    #[trigger] sound[j],
                )
        }),
{
    let total_ms = sample_to_ms_spec(samples.len(), sample_rate);
    let silent = silent_ranges(
        samples,
        sample_rate,
        min_silence_len_ms,
        silence_thresh,
        seek_step_ms,
    );
    let sound = nonsilent_ranges(
        samples,
        sample_rate,
        min_silence_len_ms,
        silence_thresh,
        seek_step_ms,
    );
    lemma_silent_ranges_in_order(
        samples,
        sample_rate,
        min_silence_len_ms,
        silence_thresh,
        seek_step_ms,
    );
    lemma_gaps_tile(silent, total_ms);
    if silent.len() > 0 && silent[0].start == 0 {
        lemma_tiles_length(alternate(silent, sound), 0, total_ms);
        lemma_alternate_length(silent, sound);
    } else {
        lemma_tiles_length(alternate(sound, silent), 0, total_ms);
        lemma_alternate_length(sound, silent);
    }
    assert forall|i: int, j: int| 0 <= i < silent.len() && 0 <= j < sound.len() implies apart(
        #[trigger] silent[i],
        #[trigger] sound[j],
    ) by {
        lemma_gaps_are_apart(silent, total_ms, i, j);
    }
}

} // verus!
