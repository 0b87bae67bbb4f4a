//! Silent ranges of a buffer: anchors of silence merged into maximal ranges.

use vstd::prelude::*;

pub use crate::leading::detect_leading_silence;
pub use crate::nonsilent::detect_nonsilent;
pub use crate::split::split_on_silence;
pub use crate::units::{ms_to_sample, sample_to_ms};

use crate::ranges::{in_order, span_of, spans, Span};
use crate::energy::{is_quiet, window, window_is_quiet};
use crate::scan::{
    anchored, anchors, as_nats, find_anchors, lemma_anchors, lemma_quiet_candidate_is_anchor,
};
use crate::units::{
    lemma_ms_round_trip, lemma_ms_to_sample_monotonic, lemma_sample_to_ms_monotonic,
    ms_to_sample_spec, ms_to_sample_wide, sample_to_ms_spec, sample_to_ms_wide,
};

verus! {

/// A run of anchors, given by its first and its last anchor.
pub struct Run {
    pub first: nat,
    pub last: nat,
}

/// Whether the anchor `cur` opens a new run after the anchor `prev`: it is not
/// the next candidate on the stride, and it lies more than one window past it.
pub open spec fn opens_run(prev: nat, cur: nat, width: nat, step: nat) -> bool {
    cur != prev + step && cur > prev + width
}

/// The runs into which a list of anchors falls, in order.
pub open spec fn runs(a: Seq<nat>, width: nat, step: nat) -> Seq<Run>
    decreases a.len(),
{
    if a.len() == 0 {
        Seq::empty()
    } else if a.len() == 1 {
        seq![Run { first: a[0], last: a[0] }]
    } else {
        let before = runs(a.drop_last(), width, step);
        if opens_run(a[a.len() - 2], a.last(), width, step) {
            before.push(Run { first: a.last(), last: a.last() })
        } else {
            before.drop_last().push(Run { first: before.last().first, last: a.last() })
        }
    }
}

/// The silent range of each run: from the start of its first window to the end
/// of its last window, in milliseconds, but no further than `total_ms`.
pub open spec fn merged_ranges(a: Seq<nat>, width: nat, step: nat, sample_rate: nat, total_ms: nat) -> Seq<
    Span,
> {
    let r = runs(a, width, step);
    Seq::new(
        r.len(),
        |i: int|
            Span {
                start: sample_to_ms_spec(r[i].first, sample_rate),
                end: if total_ms < sample_to_ms_spec(r[i].last + width, sample_rate) {
                    total_ms
                } else {
                    sample_to_ms_spec(r[i].last + width, sample_rate)
                },
            },
    )
}

/// The number of candidate window starts in a buffer of `len` samples.
pub open spec fn candidate_count(len: nat, width: nat, step: nat) -> nat
    recommends
        width <= len,
        step > 0,
{
    ((len - width) / step as int + 1) as nat
}

/// The silent ranges of `samples`: no range at all where the buffer is shorter
/// than `min_silence_len_ms`; else the merged runs of those windows of that
/// length, taken every `seek_step_ms`, that are quiet at `silence_thresh`.
pub open spec fn silent_ranges(
    samples: Seq<i32>,
    sample_rate: nat,
    min_silence_len_ms: nat,
    silence_thresh: u32,
    seek_step_ms: nat,
) -> Seq<Span> {
    let total_ms = sample_to_ms_spec(samples.len(), sample_rate);
    if total_ms < min_silence_len_ms {
        Seq::empty()
    } else {
        let width = ms_to_sample_spec(min_silence_len_ms, sample_rate);
        let step = ms_to_sample_spec(seek_step_ms, sample_rate);
        merged_ranges(
            anchors(samples, width, step, silence_thresh, candidate_count(samples.len(), width, step)),
            width,
            step,
            sample_rate,
            total_ms,
        )
    }
}

/// What holds of the runs of a strictly ascending list of anchors: there is a
/// run as soon as there is an anchor, the last run ends with the last anchor,
/// no run is backwards, and more than a window lies between one run's last
/// anchor and the next run's first.
pub open spec fn runs_in_order(r: Seq<Run>, a: Seq<nat>, width: nat) -> bool {
    &&& a.len() > 0 ==> r.len() > 0 && r.last().last == a.last() && r[0].first == a[0]
    &&& a.len() == 0 ==> r.len() == 0
    &&& forall|i: int| 0 <= i < r.len() ==> (#[trigger] r[i]).first <= r[i].last <= a.last()
    &&& forall|i: int| 0 <= i < r.len() - 1 ==> (#[trigger] r[i]).last + width < r[i + 1].first
}

/// The runs of a strictly ascending list of anchors are in order.
pub proof fn lemma_runs(a: Seq<nat>, width: nat, step: nat)
    requires
        forall|i: int, j: int| 0 <= i < j < a.len() ==> a[i] < a[j],
    ensures
        runs_in_order(runs(a, width, step), a, width),
    decreases a.len(),
{
    if a.len() >= 2 {
        let shorter = a.drop_last();
        lemma_runs(shorter, width, step);
        let before = runs(shorter, width, step);
        let r = runs(a, width, step);
        assert(shorter.last() == a[a.len() - 2]);
        assert(shorter[0] == a[0]);
        if opens_run(a[a.len() - 2], a.last(), width, step) {
            assert(r == before.push(Run { first: a.last(), last: a.last() }));
            assert forall|i: int| 0 <= i < r.len() implies (#[trigger] r[i]).first <= r[i].last
                <= a.last() by {
                if i < before.len() {
                    assert(r[i] == before[i]);
                }
            }
            assert forall|i: int| 0 <= i < r.len() - 1 implies (#[trigger] r[i]).last + width
                < r[i + 1].first by {
                if i < before.len() - 1 {
                    assert(r[i] == before[i]);
                    assert(r[i + 1] == before[i + 1]);
                }
            }
        } else {
            let head = before.drop_last();
            assert(r == head.push(Run { first: before.last().first, last: a.last() }));
            assert(r.len() == before.len());
            assert forall|i: int| 0 <= i < r.len() implies (#[trigger] r[i]).first <= r[i].last
                <= a.last() by {
                if i < r.len() - 1 {
                    assert(r[i] == before[i]);
                }
            }
            assert forall|i: int| 0 <= i < r.len() - 1 implies (#[trigger] r[i]).last + width
                < r[i + 1].first by {
                assert(r[i] == before[i]);
                assert(r[i + 1].first == before[i + 1].first);
            }
        }
    }
}

/// Whether the position `x` lies in one of the runs.
pub open spec fn in_a_run(r: Seq<Run>, x: nat) -> bool {
    exists|i: int| 0 <= i < r.len() && (#[trigger] r[i]).first <= x <= r[i].last
}

/// Run number `i` starts at an anchor and ends at an anchor.
pub proof fn lemma_run_ends_are_anchors(a: Seq<nat>, width: nat, step: nat, i: int)
    requires
        0 <= i < runs(a, width, step).len(),
    ensures
        a.contains(runs(a, width, step)[i].first),
        a.contains(runs(a, width, step)[i].last),
    decreases a.len(),
{
    let r = runs(a, width, step);
    if a.len() == 1 {
        assert(a[0] == r[0].first);
    } else if a.len() >= 2 {
        let shorter = a.drop_last();
        let before = runs(shorter, width, step);
        let top = a.len() - 1;
        assert(a[top] == a.last());
        if i < r.len() - 1 {
            assert(r[i] == before[i]);
            lemma_run_ends_are_anchors(shorter, width, step, i);
            let j1 = choose|j: int| 0 <= j < shorter.len() && shorter[j] == before[i].first;
            let j2 = choose|j: int| 0 <= j < shorter.len() && shorter[j] == before[i].last;
            assert(a[j1] == r[i].first);
            assert(a[j2] == r[i].last);
        } else if opens_run(a[a.len() - 2], a.last(), width, step) {
            assert(r[i].first == a[top] && r[i].last == a[top]);
        } else {
            assert(r[i].last == a[top]);
            assert(r[i].first == before.last().first);
            lemma_run_ends_are_anchors(shorter, width, step, before.len() - 1);
            let j1 = choose|j: int| 0 <= j < shorter.len() && shorter[j] == before.last().first;
            assert(a[j1] == r[i].first);
        }
    }
}

/// Anchor number `j` lies in a run.
pub proof fn lemma_anchor_is_in_a_run(a: Seq<nat>, width: nat, step: nat, j: int)
    requires
        forall|i: int, j: int| 0 <= i < j < a.len() ==> a[i] < a[j],
        0 <= j < a.len(),
    ensures
        in_a_run(runs(a, width, step), a[j]),
    decreases a.len(),
{
    let r = runs(a, width, step);
    lemma_runs(a, width, step);
    if j == a.len() - 1 {
        let i = r.len() - 1;
        assert(r[i].first <= a[j] <= r[i].last);
    } else {
        let shorter = a.drop_last();
        let before = runs(shorter, width, step);
        lemma_runs(shorter, width, step);
        lemma_anchor_is_in_a_run(shorter, width, step, j);
        assert(shorter[j] == a[j]);
        let i = choose|i: int|
            0 <= i < before.len() && (#[trigger] before[i]).first <= a[j] <= before[i].last;
        assert(before[i].last <= shorter.last());
        assert(shorter.last() == a[a.len() - 2]);
        assert(a[a.len() - 2] < a[a.len() - 1]);
        if i < r.len() - 1 {
            assert(r[i] == before[i]);
            assert(r[i].first <= a[j] <= r[i].last);
        } else {
            assert(r[i].first == before[i].first);
            assert(r[i].last == a.last());
            assert(r[i].first <= a[j] <= r[i].last);
        }
    }
}

/// Merged ranges come in ascending order, none runs backwards or past the end
/// of the buffer, and no two of them overlap.
pub proof fn lemma_merged_in_order(
    a: Seq<nat>,
    width: nat,
    step: nat,
    sample_rate: nat,
    len: nat,
)
    requires
        sample_rate > 0,
        forall|i: int, j: int| 0 <= i < j < a.len() ==> a[i] < a[j],
        forall|i: int| 0 <= i < a.len() ==> (#[trigger] a[i]) + width <= len,
    ensures
        in_order(
            merged_ranges(a, width, step, sample_rate, sample_to_ms_spec(len, sample_rate)),
            sample_to_ms_spec(len, sample_rate),
        ),
{
    let total_ms = sample_to_ms_spec(len, sample_rate);
    let r = runs(a, width, step);
    let m = merged_ranges(a, width, step, sample_rate, total_ms);
    lemma_runs(a, width, step);
    assert forall|i: int| 0 <= i < m.len() implies (#[trigger] m[i]).start <= m[i].end
        <= total_ms by {
        assert(r[i].first <= r[i].last <= a.last());
        assert(a[a.len() - 1] + width <= len);
        lemma_sample_to_ms_monotonic(r[i].first, r[i].last + width, sample_rate);
        lemma_sample_to_ms_monotonic(r[i].last + width, len, sample_rate);
        lemma_sample_to_ms_monotonic(r[i].first, len, sample_rate);
    }
    assert forall|i: int| 0 <= i < m.len() - 1 implies (#[trigger] m[i]).end <= m[i + 1].start by {
        assert(r[i].last + width < r[i + 1].first);
        lemma_sample_to_ms_monotonic(r[i].last + width, r[i + 1].first, sample_rate);
    }
}

/// Merges a strictly ascending list of anchors into silent ranges, for a
/// buffer of `len` samples.
pub fn merge_anchors(found: &Vec<usize>, width: usize, step: usize, sample_rate: usize, len: usize) -> (ranges:
    Vec<[usize; 2]>)
    requires
        sample_rate > 0,
        sample_to_ms_spec(len as nat, sample_rate as nat) <= usize::MAX,
        forall|i: int, j: int| 0 <= i < j < found@.len() ==> found@[i] < found@[j],
        forall|i: int| 0 <= i < found@.len() ==> (#[trigger] found@[i]) + width <= len,
    ensures
        spans(ranges@) == merged_ranges(
            as_nats(found@),
            width as nat,
            step as nat,
            sample_rate as nat,
            sample_to_ms_spec(len as nat, sample_rate as nat),
        ),
{
    let mut ranges: Vec<[usize; 2]> = Vec::new();
    if found.len() == 0 {
        assert(spans(ranges@) =~= merged_ranges(
            as_nats(found@),
            width as nat,
            step as nat,
            sample_rate as nat,
            sample_to_ms_spec(len as nat, sample_rate as nat),
        ));
        return ranges;
    }
    let total_ms = sample_to_ms(len, sample_rate);
    let ghost a = as_nats(found@);
    let ghost w = width as nat;
    let ghost st = step as nat;
    let ghost rate = sample_rate as nat;
    let mut prev: usize = found[0];
    let mut run_start: usize = prev;
    let mut i: usize = 1;
    proof {
        assert(a.take(1).len() == 1);
        assert(a.take(1)[0] == prev);
    }
    while i < found.len()
        invariant
            1 <= i <= found@.len(),
            a == as_nats(found@),
            w == width,
            st == step,
            rate == sample_rate,
            sample_rate > 0,
            total_ms == sample_to_ms_spec(len as nat, rate),
            forall|i: int, j: int| 0 <= i < j < found@.len() ==> found@[i] < found@[j],
            forall|i: int| 0 <= i < found@.len() ==> (#[trigger] found@[i]) + width <= len,
            prev == found@[i - 1],
            runs(a.take(i as int), w, st).len() == ranges@.len() + 1,
            runs(a.take(i as int), w, st).last() == (Run {
                first: run_start as nat,
                last: prev as nat,
            }),
            forall|j: int|
                0 <= j < ranges@.len() ==> span_of(#[trigger] ranges@[j]) == (Span {
                    start: sample_to_ms_spec(runs(a.take(i as int), w, st)[j].first, rate),
                    end: sample_to_ms_spec(runs(a.take(i as int), w, st)[j].last + w, rate),
                }),
        decreases found@.len() - i,
    {
        let cur: usize = found[i];
        let ghost before = runs(a.take(i as int), w, st);
        let ghost after = runs(a.take(i + 1), w, st);
        proof {
            let longer = a.take(i + 1);
            assert(longer.drop_last() =~= a.take(i as int));
            assert(longer.last() == cur);
            assert(longer[longer.len() - 2] == prev);
            assert(found@[i - 1] < found@[i as int]);
            lemma_runs(a.take(i as int), w, st);
        }
        if cur - prev != step && cur - prev > width {
            proof {
                assert(opens_run(prev as nat, cur as nat, w, st));
                assert(after == before.push(Run { first: cur as nat, last: cur as nat }));
                assert(before.last().first <= before.last().last);
                lemma_sample_to_ms_monotonic(run_start as nat, len as nat, rate);
                lemma_sample_to_ms_monotonic((prev + width) as nat, len as nat, rate);
            }
            let start_ms = sample_to_ms(run_start, sample_rate);
            let end_ms = sample_to_ms(prev + width, sample_rate);
            ranges.push([start_ms, end_ms]);
            run_start = cur;
            proof {
                assert forall|j: int| 0 <= j < ranges@.len() implies span_of(
                    #[trigger] ranges@[j],
                ) == (Span {
                    start: sample_to_ms_spec(after[j].first, rate),
                    end: sample_to_ms_spec(after[j].last + w, rate),
                }) by {
                    assert(after[j] == before[j]);
                }
            }
        } else {
            proof {
                assert(!opens_run(prev as nat, cur as nat, w, st));
                assert(after == before.drop_last().push(
                    Run { first: before.last().first, last: cur as nat },
                ));
                assert forall|j: int| 0 <= j < ranges@.len() implies span_of(
                    #[trigger] ranges@[j],
                ) == (Span {
                    start: sample_to_ms_spec(after[j].first, rate),
                    end: sample_to_ms_spec(after[j].last + w, rate),
                }) by {
                    assert(after[j] == before[j]);
                }
            }
        }
        prev = cur;
        i = i + 1;
    }
    proof {
        assert(a.take(i as int) =~= a);
        lemma_runs(a, w, st);
        assert(run_start <= prev);
        lemma_sample_to_ms_monotonic(run_start as nat, len as nat, rate);
        lemma_sample_to_ms_monotonic((prev + width) as nat, len as nat, rate);
    }
    let start_ms = sample_to_ms(run_start, sample_rate);
    let full_ms = sample_to_ms(prev + width, sample_rate);
    let end_ms = if total_ms < full_ms {
        total_ms
    } else {
        full_ms
    };
    ranges.push([start_ms, end_ms]);
    proof {
        let r = runs(a, w, st);
        let m = merged_ranges(a, w, st, rate, total_ms as nat);
        assert forall|j: int| 0 <= j < m.len() implies span_of(#[trigger] ranges@[j]) == m[j] by {
            assert(r[j].first <= r[j].last <= a.last());
            assert(a[a.len() - 1] == found@[found@.len() - 1]);
            lemma_sample_to_ms_monotonic(r[j].last + w, len as nat, rate);
        }
        assert(spans(ranges@) =~= m);
    }
    ranges
}

/// In a buffer that is not shorter than the window, the window is no longer
/// than the buffer, and the anchors ascend strictly, leave room for a whole
/// window each, and start a quiet window each.
pub proof fn lemma_candidates(
    samples: Seq<i32>,
    sample_rate: nat,
    min_silence_len_ms: nat,
    silence_thresh: u32,
    seek_step_ms: nat,
)
    requires
        sample_rate > 0,
        min_silence_len_ms <= sample_to_ms_spec(samples.len(), sample_rate),
        ms_to_sample_spec(seek_step_ms, sample_rate) > 0,
    ensures
        ms_to_sample_spec(min_silence_len_ms, sample_rate) <= samples.len(),
        anchored(
            anchors(
                samples,
                ms_to_sample_spec(min_silence_len_ms, sample_rate),
                ms_to_sample_spec(seek_step_ms, sample_rate),
                silence_thresh,
                candidate_count(
                    samples.len(),
                    ms_to_sample_spec(min_silence_len_ms, sample_rate),
                    ms_to_sample_spec(seek_step_ms, sample_rate),
                ),
            ),
            samples,
            ms_to_sample_spec(min_silence_len_ms, sample_rate),
            silence_thresh,
            samples.len() - ms_to_sample_spec(min_silence_len_ms, sample_rate),
        ),
{
    let len = samples.len();
    let total_ms = sample_to_ms_spec(len, sample_rate);
    let width = ms_to_sample_spec(min_silence_len_ms, sample_rate);
    let step = ms_to_sample_spec(seek_step_ms, sample_rate);
    lemma_ms_to_sample_monotonic(min_silence_len_ms, total_ms, sample_rate);
    lemma_ms_round_trip(len, sample_rate);
    let last_start = len - width;
    let count = candidate_count(len, width, step);
    lemma_anchors(samples, width, step, silence_thresh, count);
    vstd::arithmetic::div_mod::lemma_fundamental_div_mod(last_start, step as int);
    assert((count - 1) * step <= last_start) by (nonlinear_arith)
        requires
            count - 1 == last_start / step as int,
            last_start == step * (last_start / step as int) + last_start % step as int,
            last_start % step as int >= 0,
    ;
}

/// Silent ranges come in ascending order, none runs backwards or past the end
/// of the buffer, and no two of them overlap.
pub proof fn lemma_silent_ranges_in_order(
    samples: Seq<i32>,
    sample_rate: nat,
    min_silence_len_ms: nat,
    silence_thresh: u32,
    seek_step_ms: nat,
)
    requires
        sample_rate > 0,
        min_silence_len_ms <= sample_to_ms_spec(samples.len(), sample_rate)
            ==> ms_to_sample_spec(seek_step_ms, sample_rate) > 0,
    ensures
        in_order(
            silent_ranges(samples, sample_rate, min_silence_len_ms, silence_thresh, seek_step_ms),
            sample_to_ms_spec(samples.len(), sample_rate),
        ),
{
    let len = samples.len();
    let total_ms = sample_to_ms_spec(len, sample_rate);
    if total_ms >= min_silence_len_ms {
        let width = ms_to_sample_spec(min_silence_len_ms, sample_rate);
        let step = ms_to_sample_spec(seek_step_ms, sample_rate);
        lemma_candidates(samples, sample_rate, min_silence_len_ms, silence_thresh, seek_step_ms);
        let a = anchors(samples, width, step, silence_thresh, candidate_count(len, width, step));
        assert forall|i: int| 0 <= i < a.len() implies (#[trigger] a[i]) + width <= len by {
            assert(a[i] <= len - width);
        }
        lemma_merged_in_order(a, width, step, sample_rate, len);
    }
}

/// No quiet window is missed: where the window at candidate number `k` is
/// quiet, one of the silent ranges holds it whole.
pub proof fn lemma_quiet_window_is_in_a_silent_range(
    samples: Seq<i32>,
    sample_rate: nat,
    min_silence_len_ms: nat,
    silence_thresh: u32,
    seek_step_ms: nat,
    k: nat,
)
    requires
        sample_rate > 0,
        min_silence_len_ms <= sample_to_ms_spec(samples.len(), sample_rate),
        ms_to_sample_spec(seek_step_ms, sample_rate) > 0,
        k < candidate_count(
            samples.len(),
            ms_to_sample_spec(min_silence_len_ms, sample_rate),
            ms_to_sample_spec(seek_step_ms, sample_rate),
        ),
        is_quiet(
            window(
                samples,
                (k * ms_to_sample_spec(seek_step_ms, sample_rate)) as int,
                ms_to_sample_spec(min_silence_len_ms, sample_rate) as int,
            ),
            silence_thresh,
        ),
    ensures
        exists|i: int|
            0 <= i < silent_ranges(
                samples,
                sample_rate,
                min_silence_len_ms,
                silence_thresh,
                seek_step_ms,
            ).len() && (#[trigger] silent_ranges(
                samples,
                sample_rate,
                min_silence_len_ms,
                silence_thresh,
                seek_step_ms,
            )[i]).start <= sample_to_ms_spec(
                k * ms_to_sample_spec(seek_step_ms, sample_rate),
                sample_rate,
            ) && sample_to_ms_spec(
                k * ms_to_sample_spec(seek_step_ms, sample_rate) + ms_to_sample_spec(
                    min_silence_len_ms,
                    sample_rate,
                ),
                sample_rate,
            ) <= silent_ranges(
                samples,
                sample_rate,
                min_silence_len_ms,
                silence_thresh,
                seek_step_ms,
            )[i].end,
{
    let len = samples.len();
    let total_ms = sample_to_ms_spec(len, sample_rate);
    let width = ms_to_sample_spec(min_silence_len_ms, sample_rate);
    let step = ms_to_sample_spec(seek_step_ms, sample_rate);
    let count = candidate_count(len, width, step);
    let a = anchors(samples, width, step, silence_thresh, count);
    let r = runs(a, width, step);
    let s = silent_ranges(samples, sample_rate, min_silence_len_ms, silence_thresh, seek_step_ms);
    let x = k * step;
    lemma_candidates(samples, sample_rate, min_silence_len_ms, silence_thresh, seek_step_ms);
    lemma_quiet_candidate_is_anchor(samples, width, step, silence_thresh, count, k);
    let j = choose|j: int| 0 <= j < a.len() && a[j] == x;
    lemma_anchor_is_in_a_run(a, width, step, j);
    lemma_runs(a, width, step);
    let i = choose|i: int| 0 <= i < r.len() && (#[trigger] r[i]).first <= x <= r[i].last;
    lemma_covering_range(r[i], x, a.last(), width, sample_rate, len);
    assert(s[i].start <= sample_to_ms_spec(x, sample_rate));
    assert(sample_to_ms_spec(x + width, sample_rate) <= s[i].end);
}

/// The range of a run holds the window of every position in the run.
proof fn lemma_covering_range(run: Run, x: nat, top: nat, width: nat, sample_rate: nat, len: nat)
    requires
        sample_rate > 0,
        run.first <= x <= run.last <= top,
        top + width <= len,
    ensures
        sample_to_ms_spec(run.first, sample_rate) <= sample_to_ms_spec(x, sample_rate),
        sample_to_ms_spec(x + width, sample_rate) <= sample_to_ms_spec(
            run.last + width,
            sample_rate,
        ) <= sample_to_ms_spec(len, sample_rate),
{
    lemma_sample_to_ms_monotonic(run.first, x, sample_rate);
    lemma_sample_to_ms_monotonic(x + width, run.last + width, sample_rate);
    lemma_sample_to_ms_monotonic(run.last + width, len, sample_rate);
}

/// Every silent range starts with a quiet window and ends with one: its start
/// is the time of an anchor, and its end is the time at which the window of an
/// anchor ends.
pub proof fn lemma_silent_range_is_between_quiet_windows(
    samples: Seq<i32>,
    sample_rate: nat,
    min_silence_len_ms: nat,
    silence_thresh: u32,
    seek_step_ms: nat,
    i: int,
)
    requires
        sample_rate > 0,
        ms_to_sample_spec(seek_step_ms, sample_rate) > 0,
        0 <= i < silent_ranges(
            samples,
            sample_rate,
            min_silence_len_ms,
            silence_thresh,
            seek_step_ms,
        ).len(),
    ensures
        exists|first: nat, last: nat|
            {
                &&& first <= last
                &&& last + ms_to_sample_spec(min_silence_len_ms, sample_rate) <= samples.len()
                &&& is_quiet(
                    window(
                        samples,
                        first as int,
                        ms_to_sample_spec(min_silence_len_ms, sample_rate) as int,
                    ),
                    silence_thresh,
                )
                &&& is_quiet(
                    window(
                        samples,
                        last as int,
                        ms_to_sample_spec(min_silence_len_ms, sample_rate) as int,
                    ),
                    silence_thresh,
                )
                &&& #[trigger] between(
                    silent_ranges(
                        samples,
                        sample_rate,
                        min_silence_len_ms,
                        silence_thresh,
                        seek_step_ms,
                    )[i],
                    first,
                    last,
                    ms_to_sample_spec(min_silence_len_ms, sample_rate),
                    sample_rate,
                )
            },
{
    let len = samples.len();
    let width = ms_to_sample_spec(min_silence_len_ms, sample_rate);
    let step = ms_to_sample_spec(seek_step_ms, sample_rate);
    let count = candidate_count(len, width, step);
    let a = anchors(samples, width, step, silence_thresh, count);
    let r = runs(a, width, step);
    let s = silent_ranges(samples, sample_rate, min_silence_len_ms, silence_thresh, seek_step_ms);
    lemma_candidates(samples, sample_rate, min_silence_len_ms, silence_thresh, seek_step_ms);
    lemma_run_ends_are_anchors(a, width, step, i);
    lemma_runs(a, width, step);
    let first = r[i].first;
    let last = r[i].last;
    let j1 = choose|j: int| 0 <= j < a.len() && a[j] == first;
    let j2 = choose|j: int| 0 <= j < a.len() && a[j] == last;
    assert(a[j2] <= len - width);
    assert(is_quiet(window(samples, a[j1] as int, width as int), silence_thresh));
    assert(is_quiet(window(samples, a[j2] as int, width as int), silence_thresh));
    lemma_sample_to_ms_monotonic(last + width, len, sample_rate);
    assert(between(s[i], first, last, width, sample_rate));
}

/// Whether the span `s` reaches from the start of the window at `first` to the
/// end of the window at `last`, in milliseconds.
pub open spec fn between(s: Span, first: nat, last: nat, width: nat, sample_rate: nat) -> bool {
    s.start == sample_to_ms_spec(first, sample_rate) && s.end == sample_to_ms_spec(
        last + width,
        sample_rate,
    )
}

/// Whether a buffer of `len` samples can be scanned for silence: the sample
/// rate is not 0 and, unless the buffer is shorter than the window, the length
/// of the buffer in milliseconds fits a machine word and the stride is at least
/// one sample.
pub open spec fn scannable(len: nat, sample_rate: nat, min_silence_len_ms: nat, seek_step_ms: nat) -> bool {
    &&& sample_rate > 0
    &&& min_silence_len_ms <= sample_to_ms_spec(len, sample_rate) ==> sample_to_ms_spec(
        len,
        sample_rate,
    ) <= usize::MAX && ms_to_sample_spec(seek_step_ms, sample_rate) > 0
}

/// Decides whether a buffer of `len` samples can be scanned for silence.
pub fn is_scannable(len: usize, sample_rate: usize, min_silence_len_ms: usize, seek_step_ms: usize) -> (ok:
    bool)
    ensures
        ok == scannable(
            len as nat,
            sample_rate as nat,
            min_silence_len_ms as nat,
            seek_step_ms as nat,
        ),
{
    if sample_rate == 0 {
        return false;
    }
    let total_ms = sample_to_ms_wide(len, sample_rate);
    if total_ms < min_silence_len_ms as u128 {
        return true;
    }
    total_ms <= usize::MAX as u128 && ms_to_sample_wide(seek_step_ms, sample_rate) > 0
}

/// A buffer that is shorter than the shortest silence has no silent range.
pub proof fn lemma_short_buffer_has_no_silence(
    samples: Seq<i32>,
    sample_rate: nat,
    min_silence_len_ms: nat,
    silence_thresh: u32,
    seek_step_ms: nat,
)
    requires
        sample_to_ms_spec(samples.len(), sample_rate) < min_silence_len_ms,
    ensures
        silent_ranges(samples, sample_rate, min_silence_len_ms, silence_thresh, seek_step_ms).len()
            == 0,
{
}

/// With a stride that is longer than the way to the last window, the one
/// candidate is the window at 0.
pub proof fn lemma_single_candidate(samples: Seq<i32>, width: nat, step: nat, thresh: u32)
    requires
        width <= samples.len(),
        step > samples.len() - width,
    ensures
        candidate_count(samples.len(), width, step) == 1,
        anchors(samples, width, step, thresh, 1) == if is_quiet(
            window(samples, 0, width as int),
            thresh,
        ) {
            seq![0nat]
        } else {
            Seq::<nat>::empty()
        },
{
    vstd::arithmetic::div_mod::lemma_basic_div(samples.len() - width, step as int);
    assert(0 * step == 0) by (nonlinear_arith);
    assert(anchors(samples, width, step, thresh, 0) =~= Seq::<nat>::empty());
    assert(Seq::<nat>::empty().push(0nat) =~= seq![0nat]);
}

/// The ranges of at most one anchor do not depend on the stride.
pub proof fn lemma_stride_is_idle(
    a: Seq<nat>,
    width: nat,
    step: nat,
    other: nat,
    sample_rate: nat,
    total_ms: nat,
)
    requires
        a.len() <= 1,
    ensures
        merged_ranges(a, width, step, sample_rate, total_ms) == merged_ranges(
            a,
            width,
            other,
            sample_rate,
            total_ms,
        ),
{
    assert(runs(a, width, step) =~= runs(a, width, other));
    assert(merged_ranges(a, width, step, sample_rate, total_ms) =~= merged_ranges(
        a,
        width,
        other,
        sample_rate,
        total_ms,
    ));
}

/// Finds the silent ranges of `samples`, in milliseconds, in ascending order.
///
/// A window of `min_silence_len_ms` is tried every `seek_step_ms`; it is an
/// anchor of silence where its root-mean-square level is at most
/// `silence_thresh`. Anchors are merged into maximal ranges.
pub fn detect_silence(
    samples: &[i32],
    sample_rate: usize,
    min_silence_len_ms: usize,
    silence_thresh: u32,
    seek_step_ms: usize,
) -> (ranges: Vec<[usize; 2]>)
    requires
        scannable(
            samples@.len(),
            sample_rate as nat,
            min_silence_len_ms as nat,
            seek_step_ms as nat,
        ),
    ensures
        spans(ranges@) == silent_ranges(
            samples@,
            sample_rate as nat,
            min_silence_len_ms as nat,
            silence_thresh,
            seek_step_ms as nat,
        ),
        sample_to_ms_spec(samples@.len(), sample_rate as nat) < min_silence_len_ms
            ==> ranges@.len() == 0,
        in_order(spans(ranges@), sample_to_ms_spec(samples@.len(), sample_rate as nat)),
{
    let len = samples.len();
    if sample_to_ms_wide(len, sample_rate) < min_silence_len_ms as u128 {
        let ranges: Vec<[usize; 2]> = Vec::new();
        assert(spans(ranges@) =~= Seq::<Span>::empty());
        return ranges;
    }
    proof {
        lemma_ms_to_sample_monotonic(
            min_silence_len_ms as nat,
            sample_to_ms_spec(len as nat, sample_rate as nat),
            sample_rate as nat,
        );
        lemma_ms_round_trip(len as nat, sample_rate as nat);
        lemma_silent_ranges_in_order(
            samples@,
            sample_rate as nat,
            min_silence_len_ms as nat,
            silence_thresh,
            seek_step_ms as nat,
        );
    }
    let width = ms_to_sample(min_silence_len_ms, sample_rate);
    let last_start = len - width;
    let wide_step = ms_to_sample_wide(seek_step_ms, sample_rate);
    if wide_step > last_start as u128 {
        // The stride steps over every window but the first.
        let mut found: Vec<usize> = Vec::new();
        if window_is_quiet(samples, 0, width, silence_thresh) {
            found.push(0);
        }
        proof {
            lemma_single_candidate(samples@, width as nat, wide_step as nat, silence_thresh);
            assert(as_nats(found@) =~= anchors(
                samples@,
                width as nat,
                wide_step as nat,
                silence_thresh,
                1,
            ));
            lemma_stride_is_idle(
                as_nats(found@),
                width as nat,
                1,
                wide_step as nat,
                sample_rate as nat,
                sample_to_ms_spec(len as nat, sample_rate as nat),
            );
        }
        return merge_anchors(&found, width, 1, sample_rate, len);
    }
    let step: usize = wide_step as usize;
    let found = find_anchors(samples, width, step, silence_thresh, last_start);
    proof {
        lemma_candidates(
            samples@,
            sample_rate as nat,
            min_silence_len_ms as nat,
            silence_thresh,
            seek_step_ms as nat,
        );
        let a = as_nats(found@);
        assert forall|i: int, j: int| 0 <= i < j < found@.len() implies found@[i] < found@[j] by {
            assert(a[i] < a[j]);
        }
        assert forall|i: int| 0 <= i < found@.len() implies (#[trigger] found@[i]) + width
            <= len by {
            assert(a[i] <= len - width);
        }
    }
    merge_anchors(&found, width, step, sample_rate, len)
}

} // verus!
