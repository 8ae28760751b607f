//! The range splitter: divides a requested time range into ordered,
//! disjoint sub-ranges, each small enough for one exchange request.
//!
//! The cursor walks from `start`; each emitted sub-range ends at most
//! `max_span` later (capped at `end`), and the next one starts a full
//! `step` after the previous end.  Both bounds of a request are treated
//! as inclusive by the exchanges, so restarting exactly at the previous
//! end would fetch its boundary candle twice; the extra `step` avoids
//! that duplication.

use vstd::prelude::*;

use crate::cli::{spec_max_span_ms, spec_step_ms, Interval};

verus! {

/// One bounded slice of the requested time span, both ends in
/// milliseconds since the Unix epoch, both inclusive.
#[derive(Clone, Copy, Debug, PartialEq, Eq, Structural)]
pub struct TimeRange {
    pub start: i64,
    pub end: i64,
}

/// The sub-ranges the splitter emits for `[start, end]`, as pairs of
/// instants: empty when the range is, else `(start, min(start + span, end))`
/// followed by the sub-ranges for the rest of the span, one `step` past
/// the emitted end.
pub open spec fn spec_split(start: int, end: int, step: int, span: int) -> Seq<(int, int)>
    decreases (if start >= end { 0int } else { end - start }),
        when 1 <= step && 0 <= span
{
    if start >= end {
        Seq::empty()
    } else {
        let sub_end = if start + span < end {
            start + span
        } else {
            end
        };
        seq![(start, sub_end)] + spec_split(sub_end + step, end, step, span)
    }
}

/// The pair view of a produced sub-range vector.
pub open spec fn spec_ranges_view(v: Seq<TimeRange>) -> Seq<(int, int)> {
    v.map_values(|r: TimeRange| (r.start as int, r.end as int))
}

/// Every emitted sub-range is well-formed, spans at most `span`, and
/// stays inside `[start, end]`.
pub proof fn lemma_split_pieces(start: int, end: int, step: int, span: int)
    requires
        1 <= step,
        0 <= span,
    ensures
        forall|i: int|
            0 <= i < spec_split(start, end, step, span).len() ==> {
                let r = #[trigger] spec_split(start, end, step, span)[i];
                start <= r.0 <= r.1 <= end && r.1 - r.0 <= span
            },
    decreases (if start >= end { 0int } else { end - start }),
{
    if start < end {
        let sub_end = if start + span < end {
            start + span
        } else {
            end
        };
        lemma_split_pieces(sub_end + step, end, step, span);
        let s = spec_split(start, end, step, span);
        let rest = spec_split(sub_end + step, end, step, span);
        assert(s == seq![(start, sub_end)] + rest);
        assert forall|i: int| 0 <= i < s.len() implies {
            let r = #[trigger] s[i];
            start <= r.0 <= r.1 <= end && r.1 - r.0 <= span
        } by {
            if i > 0 {
                assert(s[i] == rest[i - 1]);
            }
        }
    }
}

/// Adjacent sub-ranges leave a gap of exactly one `step`: each one
/// starts one `step` after the previous end.  With that, the pieces are
/// pairwise disjoint and ordered ascending.
pub proof fn lemma_split_adjacent(start: int, end: int, step: int, span: int)
    requires
        1 <= step,
        0 <= span,
    ensures
        forall|i: int|
            1 <= i < spec_split(start, end, step, span).len() ==> (#[trigger] spec_split(
                start,
                end,
                step,
                span,
            )[i]).0 == spec_split(start, end, step, span)[i - 1].1 + step,
    decreases (if start >= end { 0int } else { end - start }),
{
    if start < end {
        let sub_end = if start + span < end {
            start + span
        } else {
            end
        };
        lemma_split_adjacent(sub_end + step, end, step, span);
        lemma_split_bounds(sub_end + step, end, step, span);
        let s = spec_split(start, end, step, span);
        let rest = spec_split(sub_end + step, end, step, span);
        assert(s == seq![(start, sub_end)] + rest);
        assert forall|i: int| 1 <= i < s.len() implies (#[trigger] s[i]).0 == s[i - 1].1 + step by {
            if i == 1 {
                assert(rest.len() > 0);
                assert(s[1] == rest[0]);
                assert(rest[0].0 == sub_end + step);
                assert(s[0].1 == sub_end);
            } else {
                assert(s[i] == rest[i - 1]);
                assert(s[i - 1] == rest[i - 2]);
                assert(rest[i - 1].0 == rest[i - 2].1 + step);
            }
        }
    }
}

/// The pieces are pairwise disjoint: an earlier one ends strictly before
/// a later one starts.
pub proof fn lemma_split_disjoint(start: int, end: int, step: int, span: int)
    requires
        1 <= step,
        0 <= span,
    ensures
        forall|i: int, j: int|
            0 <= i < j < spec_split(start, end, step, span).len() ==> (#[trigger] spec_split(
                start,
                end,
                step,
                span,
            )[i]).1 < (#[trigger] spec_split(start, end, step, span)[j]).0,
    decreases (if start >= end { 0int } else { end - start }),
{
    if start < end {
        let sub_end = if start + span < end {
            start + span
        } else {
            end
        };
        lemma_split_disjoint(sub_end + step, end, step, span);
        lemma_split_pieces(sub_end + step, end, step, span);
        let s = spec_split(start, end, step, span);
        let rest = spec_split(sub_end + step, end, step, span);
        assert(s == seq![(start, sub_end)] + rest);
        assert forall|i: int, j: int| 0 <= i < j < s.len() implies (#[trigger] s[i]).1 < (
        #[trigger] s[j]).0 by {
            if i == 0 {
                assert(s[j] == rest[j - 1]);
            } else {
                assert(s[i] == rest[i - 1]);
                assert(s[j] == rest[j - 1]);
            }
        }
    }
}

/// Coverage: every instant of `[start, end)` lies in some sub-range
/// widened by the boundary gap, that is in `[r.start, r.end + step)`.
/// The instant `end` itself is covered as well unless the cursor lands
/// exactly on `end`, in which case the final boundary candle is outside
/// every sub-range; `lemma_split_bounds` pins the reachable ends.
pub proof fn lemma_split_covers(start: int, end: int, step: int, span: int, t: int)
    requires
        1 <= step,
        0 <= span,
        start <= t < end,
    ensures
        exists|i: int|
            0 <= i < spec_split(start, end, step, span).len() && (#[trigger] spec_split(
                start,
                end,
                step,
                span,
            )[i]).0 <= t < spec_split(start, end, step, span)[i].1 + step,
    decreases (if start >= end { 0int } else { end - start }),
{
    let s = spec_split(start, end, step, span);
    let sub_end = if start + span < end {
        start + span
    } else {
        end
    };
    assert(s == seq![(start, sub_end)] + spec_split(sub_end + step, end, step, span));
    if t < sub_end + step {
        assert(s[0].0 <= t < s[0].1 + step);
    } else {
        lemma_split_covers(sub_end + step, end, step, span, t);
        let rest = spec_split(sub_end + step, end, step, span);
        let i = choose|i: int| 0 <= i < rest.len() && (#[trigger] rest[i]).0 <= t < rest[i].1 + step;
        assert(s[i + 1] == rest[i]);
        assert(s[i + 1].0 <= t < s[i + 1].1 + step);
    }
}

/// For a non-empty split the first piece starts at `start`, and the last
/// piece ends at `end` or one `step` short of covering it: `end` lies in
/// `(last.end - step, last.end]` shifted by the gap, exactly
/// `last.end <= end <= last.end + step`.
pub proof fn lemma_split_bounds(start: int, end: int, step: int, span: int)
    requires
        1 <= step,
        0 <= span,
    ensures
        spec_split(start, end, step, span).len() == 0 <==> start >= end,
        spec_split(start, end, step, span).len() > 0 ==> spec_split(start, end, step, span)[0].0
            == start,
        spec_split(start, end, step, span).len() > 0 ==> {
            let last = spec_split(start, end, step, span).last();
            last.1 <= end <= last.1 + step
        },
    decreases (if start >= end { 0int } else { end - start }),
{
    if start < end {
        let sub_end = if start + span < end {
            start + span
        } else {
            end
        };
        lemma_split_bounds(sub_end + step, end, step, span);
        let s = spec_split(start, end, step, span);
        let rest = spec_split(sub_end + step, end, step, span);
        assert(s == seq![(start, sub_end)] + rest);
        if rest.len() > 0 {
            assert(s.last() == rest.last());
        }
    }
}

/// Splits a time range into sub-ranges suitable for one exchange request
/// each (at most the interval's candle cap per request).
///
/// Returns the ordered sub-ranges of `[start, end]`: the first starts at
/// `start`, each spans at most the interval's `max_span`, each later one
/// starts one `step` after the previous end, and an empty range yields no
/// sub-range at all.
pub fn split_intervals(start: i64, end: i64, interval: &Interval) -> (r: Vec<TimeRange>)
    requires
        start <= end,
        end + spec_max_span_ms(*interval) + spec_step_ms(*interval) <= i64::MAX,
    ensures
        spec_ranges_view(r@) == spec_split(
            start as int,
            end as int,
            spec_step_ms(*interval),
            spec_max_span_ms(*interval),
        ),
        r@.len() == 0 <==> start == end,
{
    let step: i64 = interval.step_ms();
    let span: i64 = interval.max_span_ms();
    let ghost g_step = spec_step_ms(*interval);
    let ghost g_span = spec_max_span_ms(*interval);
    let mut intervals: Vec<TimeRange> = Vec::new();
    let mut current_start: i64 = start;

    proof {
        lemma_split_bounds(start as int, end as int, g_step, g_span);
    }

    while current_start < end
        invariant
            start <= current_start,
            current_start <= end + g_step,
            end + g_span + g_step <= i64::MAX,
            step as int == g_step,
            span as int == g_span,
            1 <= g_step,
            0 <= g_span,
            spec_split(start as int, end as int, g_step, g_span) == spec_ranges_view(intervals@)
                + spec_split(current_start as int, end as int, g_step, g_span),
        decreases end as int + g_step - current_start,
    {
        let current_end: i64 = if current_start + span < end {
            current_start + span
        } else {
            end
        };
        let ghost old_view = spec_ranges_view(intervals@);
        intervals.push(TimeRange { start: current_start, end: current_end });
        proof {
            assert(spec_ranges_view(intervals@) =~= old_view + seq![
                (current_start as int, current_end as int),
            ]);
            assert(spec_split(current_start as int, end as int, g_step, g_span) == seq![
                (current_start as int, current_end as int),
            ] + spec_split(current_end as int + g_step, end as int, g_step, g_span));
            assert(spec_split(start as int, end as int, g_step, g_span) =~= spec_ranges_view(
                intervals@,
            ) + spec_split(current_end as int + g_step, end as int, g_step, g_span));
        }
        current_start = current_end + step;
    }

    proof {
        assert(spec_split(current_start as int, end as int, g_step, g_span) =~= Seq::empty());
        assert(spec_split(start as int, end as int, g_step, g_span) =~= spec_ranges_view(
            intervals@,
        ));
        if start < end {
            assert(spec_split(start as int, end as int, g_step, g_span).len() > 0);
        }
    }
    intervals
}

} // verus!
