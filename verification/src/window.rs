//! The events that start inside a time window.

use crate::event::{sorted_by_time, Event};
use vstd::prelude::*;

verus! {

/// The lower edge of the window of the given width around `center`.
pub open spec fn window_start(center: i64, width: u64) -> int {
    center - width / 2
}

/// The upper edge of the window of the given width around `center`.
pub open spec fn window_end(center: i64, width: u64) -> int {
    center + width / 2
}

/// Whether an instant lies in the window, both edges included.
pub open spec fn in_window(time: i64, center: i64, width: u64) -> bool {
    window_start(center, width) <= time <= window_end(center, width)
}

/// Whether the events before index `lo` start before `bound` and all others
/// at or after it.
pub open spec fn is_lower_bound(events: Seq<Event>, bound: int, lo: int) -> bool {
    &&& 0 <= lo <= events.len()
    &&& forall|i: int| 0 <= i < lo ==> events[i].raw.time < bound
    &&& forall|i: int| lo <= i < events.len() ==> events[i].raw.time >= bound
}

/// Whether `lo` is where a walk from the start first meets an event that
/// starts at or after `bound`, or the end of the timeline if it meets none.
pub open spec fn is_first_reached(events: Seq<Event>, bound: int, lo: int) -> bool {
    &&& 0 <= lo <= events.len()
    &&& forall|i: int| 0 <= i < lo ==> events[i].raw.time < bound
    &&& lo < events.len() ==> events[lo].raw.time >= bound
}

/// On a sorted timeline the binary search and the walk from the start find
/// the same index.
pub proof fn law_search_agrees_with_scan(events: Seq<Event>, bound: int, found: int, reached: int)
    requires
        sorted_by_time(events),
        is_lower_bound(events, bound, found),
        is_first_reached(events, bound, reached),
    ensures
        found == reached,
{
    if found < reached {
        assert(events[found].raw.time < bound);
    } else if reached < found {
        assert(events[reached].raw.time >= bound);
    }
}

/// Binary search for the first event that starts at or after `bound`.
pub fn lower_bound(events: &Vec<Event>, bound: i128) -> (lo: usize)
    requires
        sorted_by_time(events@),
    ensures
        is_lower_bound(events@, bound as int, lo as int),
{
    let mut lo: usize = 0;
    let mut hi: usize = events.len();
    while lo < hi
        invariant
            lo <= hi <= events.len(),
            sorted_by_time(events@),
            forall|i: int| 0 <= i < lo ==> events[i].raw.time < bound,
            forall|i: int| hi <= i < events.len() ==> events[i].raw.time >= bound,
        decreases hi - lo,
    {
        let mid: usize = lo + (hi - lo) / 2;
        if (events[mid].raw.time as i128) < bound {
            lo = mid + 1;
        } else {
            hi = mid;
        }
    }
    lo
}

/// The same index found by walking the timeline from its start.
pub fn lower_bound_linear(events: &Vec<Event>, bound: i128) -> (lo: usize)
    ensures
        is_first_reached(events@, bound as int, lo as int),
{
    let mut lo: usize = 0;
    while lo < events.len() && (events[lo].raw.time as i128) < bound
        invariant
            lo <= events.len(),
            forall|i: int| 0 <= i < lo ==> events[i].raw.time < bound,
        decreases events.len() - lo,
    {
        lo = lo + 1;
    }
    lo
}

/// The events of a sorted timeline that start at or after `from` and at or
/// before `to`, as a half-open range of indices.
///
/// The lower end is found by binary search, the upper end by walking forward
/// from it, so the cost is logarithmic in the timeline plus linear in the
/// result.
pub fn slice_between(events: &Vec<Event>, from: i128, to: i128) -> (range: (usize, usize))
    requires
        sorted_by_time(events@),
    ensures
        range.0 <= range.1 <= events.len(),
        forall|i: int|
            0 <= i < events.len() ==> (range.0 <= i < range.1 <==> from <= (
            #[trigger] events[i]).raw.time <= to),
{
    let lo = lower_bound(events, from);
    let mut hi: usize = lo;
    while hi < events.len() && (events[hi].raw.time as i128) <= to
        invariant
            lo <= hi <= events.len(),
            sorted_by_time(events@),
            forall|i: int| lo <= i < hi ==> events[i].raw.time <= to,
        decreases events.len() - hi,
    {
        hi = hi + 1;
    }
    (lo, hi)
}

/// The events of a sorted timeline that start inside the window of the given
/// width around `center`, as a half-open range of indices.
pub fn window_slice(events: &Vec<Event>, center: i64, width: u64) -> (range: (usize, usize))
    requires
        sorted_by_time(events@),
    ensures
        range.0 <= range.1 <= events.len(),
        forall|i: int|
            0 <= i < events.len() ==> (range.0 <= i < range.1 <==> in_window(
                (#[trigger] events[i]).raw.time,
                center,
                width,
            )),
{
    let half: i128 = (width / 2) as i128;
    slice_between(events, center as i128 - half, center as i128 + half)
}

/// Whether an event is still running at the instant `from` or later: the
/// test that tells, among the events that start before a window ends, those
/// that overlap it.
pub fn ends_at_or_after(event: &Event, from: i128) -> (yes: bool)
    ensures
        yes == (event.raw.end_time() >= from),
{
    event.raw.time as i128 + event.raw.duration as i128 >= from
}

} // verus!
