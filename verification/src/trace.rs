//! The execution trace: labelled half-open intervals on the simulated
//! timeline, merged where neighbours carry the same label.

use vstd::prelude::*;

verus! {

/// What the CPU did during a segment.
#[derive(Clone, Copy, Debug, PartialEq, Eq, Structural)]
pub enum Label {
    /// No job was ready.
    Idle,
    /// The job with this identifier held the CPU.
    Job(u64),
}

/// The interval `[start, end)` of the timeline with its label.
#[derive(Clone, Copy, Debug, PartialEq, Eq, Structural)]
pub struct TraceSegment {
    pub start: u64,
    pub end: u64,
    pub label: Label,
}

/// A segment over unbounded ticks: the model of a `TraceSegment`.
pub struct Segment {
    pub start: int,
    pub end: int,
    pub label: Label,
}

impl View for TraceSegment {
    type V = Segment;

    open spec fn view(&self) -> Segment {
        Segment { start: self.start as int, end: self.end as int, label: self.label }
    }
}

/// The model of a stored trace.
pub open spec fn segments(trace: Seq<TraceSegment>) -> Seq<Segment> {
    trace.map_values(|t: TraceSegment| t@)
}

/// Appends a segment, or stretches the last one where it carries the same
/// label and ends where the new one starts.
pub open spec fn append_segment(trace: Seq<Segment>, seg: Segment) -> Seq<Segment> {
    if trace.len() > 0 && trace.last().label == seg.label && trace.last().end == seg.start {
        trace.drop_last().push(Segment { end: seg.end, ..trace.last() })
    } else {
        trace.push(seg)
    }
}

/// The tick at which the trace ends; zero for the empty trace.
pub open spec fn span_end(trace: Seq<Segment>) -> int {
    if trace.len() == 0 {
        0
    } else {
        trace.last().end
    }
}

/// Segments are non-empty, start at tick zero, follow one another without gap
/// or overlap, and neighbours never share a label.
pub open spec fn well_formed(trace: Seq<Segment>) -> bool {
    &&& forall|i: int| 0 <= i < trace.len() ==> (#[trigger] trace[i]).start < trace[i].end
    &&& trace.len() > 0 ==> trace[0].start == 0
    &&& forall|i: int, j: int|
        0 <= i && j == i + 1 && j < trace.len() ==> (#[trigger] trace[i]).end == (
        #[trigger] trace[j]).start && trace[i].label != trace[j].label
}

/// The length of a segment if a job ran in it, else zero.
pub open spec fn busy_len(seg: Segment) -> int {
    if seg.label is Job {
        seg.end - seg.start
    } else {
        0
    }
}

/// The length of a segment if the CPU idled in it, else zero.
pub open spec fn idle_len(seg: Segment) -> int {
    if seg.label is Idle {
        seg.end - seg.start
    } else {
        0
    }
}

/// Total length of the segments in which a job ran.
pub open spec fn busy_ticks(trace: Seq<Segment>) -> int
    decreases trace.len(),
{
    if trace.len() == 0 {
        0
    } else {
        busy_ticks(trace.drop_last()) + busy_len(trace.last())
    }
}

/// Total length of the idle segments.
pub open spec fn idle_ticks(trace: Seq<Segment>) -> int
    decreases trace.len(),
{
    if trace.len() == 0 {
        0
    } else {
        idle_ticks(trace.drop_last()) + idle_len(trace.last())
    }
}

/// Appending keeps a trace well formed when the new segment is non-empty and
/// starts where the trace ends.
pub proof fn lemma_append_well_formed(trace: Seq<Segment>, seg: Segment)
    requires
        well_formed(trace),
        seg.start == span_end(trace),
        seg.start < seg.end,
    ensures
        well_formed(append_segment(trace, seg)),
        span_end(append_segment(trace, seg)) == seg.end,
        append_segment(trace, seg).len() > 0,
        append_segment(trace, seg).last().label == seg.label,
{
    let out = append_segment(trace, seg);
    if trace.len() > 0 && trace.last().label == seg.label && trace.last().end == seg.start {
        let n = trace.len() - 1;
        assert(out.len() == trace.len());
        assert forall|i: int| 0 <= i < out.len() implies (#[trigger] out[i]).start < out[i].end by {
            if i < n {
                assert(out[i] == trace[i]);
            }
        }
        assert forall|i: int, j: int| 0 <= i && j == i + 1 && j < out.len() implies (
        #[trigger] out[i]).end == (#[trigger] out[j]).start && out[i].label != out[j].label by {
            assert(out[i] == trace[i]);
            if j < n {
                assert(out[j] == trace[j]);
            } else {
                assert(trace[j].start == out[j].start && trace[j].label == out[j].label);
            }
        }
    } else {
        assert forall|i: int, j: int| 0 <= i && j == i + 1 && j < out.len() implies (
        #[trigger] out[i]).end == (#[trigger] out[j]).start && out[i].label != out[j].label by {
            if j < trace.len() {
                assert(out[i] == trace[i] && out[j] == trace[j]);
            }
        }
    }
}

/// Appending adds the new segment's length to the matching total and leaves
/// the other one alone.
pub proof fn lemma_append_ticks(trace: Seq<Segment>, seg: Segment)
    ensures
        busy_ticks(append_segment(trace, seg)) == busy_ticks(trace) + busy_len(seg),
        idle_ticks(append_segment(trace, seg)) == idle_ticks(trace) + idle_len(seg),
{
    let out = append_segment(trace, seg);
    if trace.len() > 0 && trace.last().label == seg.label && trace.last().end == seg.start {
        assert(out.drop_last() =~= trace.drop_last());
    } else {
        assert(out.drop_last() =~= trace);
    }
}

/// A well-formed trace is covered exactly by its busy and idle segments.
pub proof fn lemma_ticks_cover(trace: Seq<Segment>)
    requires
        well_formed(trace),
    ensures
        busy_ticks(trace) + idle_ticks(trace) == span_end(trace),
        busy_ticks(trace) >= 0,
        idle_ticks(trace) >= 0,
    decreases trace.len(),
{
    if trace.len() > 0 {
        let rest = trace.drop_last();
        assert forall|i: int, j: int| 0 <= i && j == i + 1 && j < rest.len() implies (
        #[trigger] rest[i]).end == (#[trigger] rest[j]).start && rest[i].label != rest[j].label by {
            assert(rest[i] == trace[i] && rest[j] == trace[j]);
        }
        assert forall|i: int| 0 <= i < rest.len() implies (#[trigger] rest[i]).start
            < rest[i].end by {
            assert(rest[i] == trace[i]);
        }
        if rest.len() > 0 {
            assert(rest[0] == trace[0]);
            let i = rest.len() - 1;
            assert(trace[i].end == trace[i + 1].start);
            assert(rest.last() == trace[i]);
        }
        lemma_ticks_cover(rest);
        assert(trace.last().start < trace.last().end);
    }
}

/// Total length of the segments that carry `label`.
pub open spec fn ticks_of(trace: Seq<Segment>, label: Label) -> int
    decreases trace.len(),
{
    if trace.len() == 0 {
        0
    } else {
        ticks_of(trace.drop_last(), label) + if trace.last().label == label {
            trace.last().end - trace.last().start
        } else {
            0
        }
    }
}

/// Appending adds the new segment's length to the total of its label and
/// leaves the totals of all other labels alone.
pub proof fn lemma_append_ticks_of(trace: Seq<Segment>, seg: Segment, label: Label)
    ensures
        ticks_of(append_segment(trace, seg), label) == ticks_of(trace, label) + if seg.label
            == label {
            seg.end - seg.start
        } else {
            0
        },
{
    let out = append_segment(trace, seg);
    if trace.len() > 0 && trace.last().label == seg.label && trace.last().end == seg.start {
        assert(out.drop_last() =~= trace.drop_last());
    } else {
        assert(out.drop_last() =~= trace);
    }
}

/// What appending does to a trace: all but the last segment stay, and the
/// last one is the new segment or the old last one stretched to its end.
pub proof fn lemma_append_shape(trace: Seq<Segment>, seg: Segment)
    ensures
        ({
            let out = append_segment(trace, seg);
            &&& out.len() >= 1
            &&& forall|k: int|
                0 <= k < out.len() - 1 ==> k < trace.len() && #[trigger] out[k] == trace[k]
            &&& out.last().label == seg.label
            &&& out.last().end == seg.end
            &&& (out.len() == trace.len() + 1 && out.last().start == seg.start) || (trace.len() > 0
                && out.len() == trace.len() && trace.last().label == seg.label
                && trace.last().end == seg.start && out.last().start == trace.last().start)
        }),
{
}

/// In a well-formed trace no segment starts before tick zero or ends after
/// the trace does.
pub proof fn lemma_segment_bounds(trace: Seq<Segment>, k: int)
    requires
        well_formed(trace),
        0 <= k < trace.len(),
    ensures
        0 <= trace[k].start < trace[k].end <= span_end(trace),
    decreases trace.len(),
{
    if trace.len() > 1 {
        let rest = trace.drop_last();
        assert forall|i: int, j: int| 0 <= i && j == i + 1 && j < rest.len() implies (
        #[trigger] rest[i]).end == (#[trigger] rest[j]).start && rest[i].label != rest[j].label by {
            assert(rest[i] == trace[i] && rest[j] == trace[j]);
        }
        assert forall|i: int| 0 <= i < rest.len() implies (#[trigger] rest[i]).start
            < rest[i].end by {
            assert(rest[i] == trace[i]);
        }
        assert(rest[0] == trace[0]);
        let last = trace.len() - 1;
        assert(trace[last - 1].end == trace[last].start);
        assert(rest.last() == trace[last - 1]);
        assert(trace[last].start < trace[last].end);
        if k < last {
            lemma_segment_bounds(rest, k);
            assert(rest[k] == trace[k]);
        } else {
            lemma_segment_bounds(rest, last - 1);
        }
    } else {
        assert(trace[0].start < trace[0].end);
    }
}

/// Records that the CPU carried `label` during `[start, end)`, merging with
/// the last segment where the two belong together.
pub fn record(trace: &mut Vec<TraceSegment>, start: u64, end: u64, label: Label)
    ensures
        segments(final(trace)@) == append_segment(
            segments(old(trace)@),
            Segment { start: start as int, end: end as int, label },
        ),
{
    let n: usize = trace.len();
    if n > 0 && trace[n - 1].label == label && trace[n - 1].end == start {
        let last = trace[n - 1];
        trace.set(n - 1, TraceSegment { start: last.start, end, label: last.label });
        assert(segments(trace@) =~= append_segment(
            segments(old(trace)@),
            Segment { start: start as int, end: end as int, label },
        ));
    } else {
        trace.push(TraceSegment { start, end, label });
        assert(segments(trace@) =~= append_segment(
            segments(old(trace)@),
            Segment { start: start as int, end: end as int, label },
        ));
    }
}

} // verus!
