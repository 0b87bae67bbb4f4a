//! Time ranges in milliseconds and what it means for them to be in order.

use vstd::prelude::*;

verus! {

/// A half-open stretch of time `[start, end)` in milliseconds from the start
/// of a buffer.
pub struct Span {
    pub start: nat,
    pub end: nat,
}

/// The span that a `[start_ms, end_ms]` pair stands for.
pub open spec fn span_of(range: [usize; 2]) -> Span {
    Span { start: range[0] as nat, end: range[1] as nat }
}

/// The spans that a list of `[start_ms, end_ms]` pairs stands for.
pub open spec fn spans(ranges: Seq<[usize; 2]>) -> Seq<Span> {
    Seq::new(ranges.len(), |i: int| span_of(ranges[i]))
}

/// Every span ends no earlier than it starts and no later than `limit`, and
/// each span starts no earlier than the one before it ends.
pub open spec fn in_order(s: Seq<Span>, limit: nat) -> bool {
    &&& forall|i: int| 0 <= i < s.len() ==> (#[trigger] s[i]).start <= s[i].end <= limit
    &&& forall|i: int| 0 <= i < s.len() - 1 ==> (#[trigger] s[i]).end <= s[i + 1].start
}

/// The spans cover `[from, to)` exactly: the first starts at `from`, each one
/// starts where the one before it ends, and the last ends at `to`. No span runs
/// backwards. An empty list covers only an empty stretch.
pub open spec fn tiles(s: Seq<Span>, from: nat, to: nat) -> bool {
    if s.len() == 0 {
        from == to
    } else {
        &&& s[0].start == from
        &&& s.last().end == to
        &&& forall|i: int| 0 <= i < s.len() ==> (#[trigger] s[i]).start <= s[i].end
        &&& forall|i: int| 0 <= i < s.len() - 1 ==> (#[trigger] s[i]).end == s[i + 1].start
    }
}

/// Takes items from `a` and `b` in turn, starting with `a`; when one list
/// runs out, the rest of the other follows.
pub open spec fn alternate(a: Seq<Span>, b: Seq<Span>) -> Seq<Span>
    decreases a.len() + b.len(),
{
    if a.len() == 0 {
        b
    } else {
        seq![a[0]] + alternate(b, a.drop_first())
    }
}

/// The sum of the lengths of the spans.
pub open spec fn total_length(s: Seq<Span>) -> int
    decreases s.len(),
{
    if s.len() == 0 {
        0
    } else {
        (s[0].end - s[0].start) + total_length(s.drop_first())
    }
}

/// Whether two spans have no point in common but, at most, an end.
pub open spec fn apart(a: Span, b: Span) -> bool {
    a.end <= b.start || b.end <= a.start
}

/// Spans that cover a stretch exactly are as long together as the stretch.
pub proof fn lemma_tiles_length(s: Seq<Span>, from: nat, to: nat)
    requires
        tiles(s, from, to),
    ensures
        total_length(s) == to - from,
    decreases s.len(),
{
    if s.len() > 0 {
        let rest = s.drop_first();
        if rest.len() > 0 {
            assert(rest[0] == s[1]);
            assert(s[0].end == s[1].start);
            assert(rest.last() == s.last());
            assert forall|i: int| 0 <= i < rest.len() implies (#[trigger] rest[i]).start
                <= rest[i].end by {
                assert(rest[i] == s[i + 1]);
            }
            assert forall|i: int| 0 <= i < rest.len() - 1 implies (#[trigger] rest[i]).end
                == rest[i + 1].start by {
                assert(rest[i] == s[i + 1]);
                assert(rest[i + 1] == s[i + 2]);
            }
        } else {
            assert(s.last() == s[0]);
        }
        lemma_tiles_length(rest, s[0].end, to);
    }
}

/// Two lists taken in turn are as long together as the two lists.
pub proof fn lemma_alternate_length(a: Seq<Span>, b: Seq<Span>)
    ensures
        total_length(alternate(a, b)) == total_length(a) + total_length(b),
    decreases a.len() + b.len(),
{
    if a.len() > 0 {
        let rest = alternate(b, a.drop_first());
        let all = alternate(a, b);
        assert(all == seq![a[0]] + rest);
        assert(all.drop_first() =~= rest);
        assert(all[0] == a[0]);
        lemma_alternate_length(b, a.drop_first());
    }
}

/// In a list that is in order, an earlier span starts and ends no later than
/// a later one.
pub proof fn lemma_in_order_far(s: Seq<Span>, limit: nat, i: int, k: int)
    requires
        in_order(s, limit),
        0 <= i <= k < s.len(),
    ensures
        s[i].start <= s[k].start,
        s[i].end <= s[k].end,
    decreases k - i,
{
    if i < k {
        lemma_in_order_far(s, limit, i, k - 1);
        assert(s[k - 1].start <= s[k - 1].end);
        assert(s[k - 1].end <= s[k].start);
        assert(s[k].start <= s[k].end);
    }
}

} // verus!
