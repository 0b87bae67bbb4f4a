//! The window scan: which candidate window starts are anchors of silence.

use rayon::iter::{IntoParallelRefIterator, ParallelIterator};
use vstd::prelude::*;

use crate::energy::{is_quiet, window, window_is_quiet};

verus! {

/// Those of the first `count` candidate starts whose window of `width` samples
/// is quiet at `thresh`, in ascending order.
pub open spec fn anchors(samples: Seq<i32>, width: nat, step: nat, thresh: u32, count: nat) -> Seq<
    nat,
>
    decreases count,
{
    if count == 0 {
        Seq::empty()
    } else {
        let before = anchors(samples, width, step, thresh, (count - 1) as nat);
        let start = ((count - 1) * step) as nat;
        if is_quiet(window(samples, start as int, width as int), thresh) {
            before.push(start)
        } else {
            before
        }
    }
}

/// What holds of a list of anchors: they ascend strictly, none lies beyond
/// `last`, and each one starts a quiet window.
pub open spec fn anchored(a: Seq<nat>, samples: Seq<i32>, width: nat, thresh: u32, last: int) -> bool {
    &&& forall|i: int, j: int| 0 <= i < j < a.len() ==> a[i] < a[j]
    &&& forall|i: int| 0 <= i < a.len() ==> (#[trigger] a[i]) <= last
    &&& forall|i: int|
        0 <= i < a.len() ==> is_quiet(window(samples, (#[trigger] a[i]) as int, width as int), thresh)
}

/// The anchors among the first `count` candidates ascend strictly, lie at or
/// below the last candidate, and each one starts a quiet window.
pub proof fn lemma_anchors(samples: Seq<i32>, width: nat, step: nat, thresh: u32, count: nat)
    requires
        step > 0,
    ensures
        anchored(
            anchors(samples, width, step, thresh, count),
            samples,
            width,
            thresh,
            (count - 1) * step,
        ),
    decreases count,
{
    if count > 0 {
        let fewer = (count - 1) as nat;
        lemma_anchors(samples, width, step, thresh, fewer);
        assert((fewer - 1) * step < fewer * step) by (nonlinear_arith)
            requires
                step > 0,
        ;
        let a = anchors(samples, width, step, thresh, count);
        let b = anchors(samples, width, step, thresh, fewer);
        assert(a == b || a == b.push((fewer * step) as nat));
        assert forall|i: int| 0 <= i < a.len() implies (#[trigger] a[i]) <= fewer * step
            && is_quiet(window(samples, a[i] as int, width as int), thresh) by {
            if i < b.len() {
                assert(a[i] == b[i]);
            }
        }
        assert forall|i: int, j: int| 0 <= i < j < a.len() implies a[i] < a[j] by {
            assert(a[i] == b[i]);
            if j < b.len() {
                assert(a[j] == b[j]);
            }
        }
    }
}

/// Every quiet candidate is among the anchors.
pub proof fn lemma_quiet_candidate_is_anchor(
    samples: Seq<i32>,
    width: nat,
    step: nat,
    thresh: u32,
    count: nat,
    k: nat,
)
    requires
        k < count,
        is_quiet(window(samples, (k * step) as int, width as int), thresh),
    ensures
        anchors(samples, width, step, thresh, count).contains((k * step) as nat),
    decreases count,
{
    let a = anchors(samples, width, step, thresh, count);
    let b = anchors(samples, width, step, thresh, (count - 1) as nat);
    if k == count - 1 {
        assert(a == b.push((k * step) as nat));
        assert(a[a.len() - 1] == (k * step) as nat);
    } else {
        lemma_quiet_candidate_is_anchor(samples, width, step, thresh, (count - 1) as nat, k);
        let i = choose|i: int| 0 <= i < b.len() && b[i] == (k * step) as nat;
        assert(a[i] == b[i]);
    }
}

/// A list of sample positions as mathematical numbers.
pub open spec fn as_nats(positions: Seq<usize>) -> Seq<nat> {
    positions.map_values(|a: usize| a as nat)
}

/// The candidate starts `0, step, 2·step, …` up to and including `last_start`.
pub fn window_starts(last_start: usize, step: usize) -> (starts: Vec<usize>)
    requires
        step > 0,
    ensures
        starts@.len() == last_start as nat / step as nat + 1,
        forall|k: int| 0 <= k < starts@.len() ==> #[trigger] starts@[k] == k * step,
        forall|k: int| 0 <= k < starts@.len() ==> #[trigger] starts@[k] <= last_start,
{
    let mut starts: Vec<usize> = Vec::new();
    let mut pos: usize = 0;
    starts.push(pos);
    while last_start - pos >= step
        invariant
            step > 0,
            pos <= last_start,
            starts@.len() >= 1,
            pos == (starts@.len() - 1) * step,
            forall|k: int| 0 <= k < starts@.len() ==> #[trigger] starts@[k] == k * step,
            forall|k: int| 0 <= k < starts@.len() ==> #[trigger] starts@[k] <= last_start,
        decreases last_start - pos,
    {
        proof {
            let n = starts@.len() as int;
            assert(n * step == (n - 1) * step + step) by (nonlinear_arith);
        }
        pos = pos + step;
        starts.push(pos);
    }
    proof {
        let q = starts@.len() - 1;
        vstd::arithmetic::div_mod::lemma_fundamental_div_mod_converse(
            last_start as int,
            step as int,
            q,
            last_start - pos,
        );
    }
    starts
}

/// Tells of every candidate window whether it is quiet, in parallel.
///
/// Trusted: the body is rayon's `par_iter().map(..).collect()` on the list of
/// starts, with `window_is_quiet` as the function that is mapped. The contract
/// claims of rayon that collecting a mapped slice iterator into a `Vec` yields
/// one item for each item of the slice, in the order of the slice, so that the
/// flag at each position is what `window_is_quiet` returns for the start at
/// that position.
#[verifier::external_body]
fn par_quiet_flags(samples: &[i32], starts: &Vec<usize>, width: usize, thresh: u32) -> (flags: Vec<
    bool,
>)
    requires
        forall|k: int| 0 <= k < starts@.len() ==> #[trigger] starts@[k] <= samples@.len(),
    ensures
        flags@.len() == starts@.len(),
        forall|k: int|
            0 <= k < starts@.len() ==> #[trigger] flags@[k] == is_quiet(
                window(samples@, starts@[k] as int, width as int),
                thresh,
            ),
{
    starts.par_iter().map(|&start| window_is_quiet(samples, start, width, thresh)).collect()
}

/// The anchors of silence among the candidate starts `0, step, 2·step, …` up
/// to and including `last_start`.
pub fn find_anchors(samples: &[i32], width: usize, step: usize, thresh: u32, last_start: usize) -> (found:
    Vec<usize>)
    requires
        step > 0,
        last_start <= samples@.len(),
    ensures
        as_nats(found@) == anchors(
            samples@,
            width as nat,
            step as nat,
            thresh,
            last_start as nat / step as nat + 1,
        ),
{
    let starts = window_starts(last_start, step);
    let flags = par_quiet_flags(samples, &starts, width, thresh);
    let mut found: Vec<usize> = Vec::new();
    let mut k: usize = 0;
    while k < starts.len()
        invariant
            k <= starts@.len(),
            flags@.len() == starts@.len(),
            forall|j: int| 0 <= j < starts@.len() ==> #[trigger] starts@[j] == j * step,
            forall|j: int|
                0 <= j < starts@.len() ==> #[trigger] flags@[j] == is_quiet(
                    window(samples@, starts@[j] as int, width as int),
                    thresh,
                ),
            as_nats(found@) == anchors(
                samples@,
                width as nat,
                step as nat,
                thresh,
                k as nat,
            ),
        decreases starts@.len() - k,
    {
        let ghost before = as_nats(found@);
        if flags[k] {
            found.push(starts[k]);
            assert(as_nats(found@) =~= before.push(starts@[k as int] as nat));
        }
        k = k + 1;
    }
    found
}

} // verus!
