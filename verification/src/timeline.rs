//! Where the events of the timeline stand in the content region.
//!
//! Positions are counted in screen units from the top left corner of the
//! content region: to the right in time, downwards by process.

use crate::arith::clamp_int;
use crate::event::{sorted_by_time, Event};
use crate::viewport::{pixel_at, ViewportState, UNITS_PER_PIXEL};
use crate::window::slice_between;
use vstd::prelude::*;

verus! {

/// How long before the left edge of the view an event may start and still
/// be looked at: half a second.
pub const LOOK_BACK: i64 = 500_000_000;

/// The shortest duration that an event is drawn with: one nanosecond.
pub const MIN_DRAWN_DURATION: i64 = 1;

/// A box in the content region that is drawn wider than this gets an
/// outline: two pixels.
pub const OUTLINE_MIN_WIDTH: i64 = 2_000;

/// A rectangle in the content region, in screen units.
#[derive(Clone, Copy, Debug, PartialEq, Eq, Structural)]
pub struct EventRect {
    pub left: i64,
    pub top: i64,
    pub right: i64,
    pub bottom: i64,
}

impl EventRect {
    /// Whether a point lies in the rectangle, its edges included.
    pub open spec fn holds(&self, x: i64, y: i64) -> bool {
        self.left <= x <= self.right && self.top <= y <= self.bottom
    }

    /// Tests [`Self::holds`].
    pub fn contains(&self, x: i64, y: i64) -> (inside: bool)
        ensures
            inside == self.holds(x, y),
    {
        self.left <= x && x <= self.right && self.top <= y && y <= self.bottom
    }

    /// Whether the rectangle is wide enough for an outline.
    pub fn has_outline(&self) -> (wide: bool)
        ensures
            wide == (self.right - self.left > OUTLINE_MIN_WIDTH),
    {
        self.right as i128 - self.left as i128 > OUTLINE_MIN_WIDTH as i128
    }
}

/// The instant up to which an event is drawn: its end, or its start and the
/// shortest drawn duration if it ends before that.
pub open spec fn drawn_end(e: Event) -> int {
    if e.raw.duration < MIN_DRAWN_DURATION {
        e.raw.time + MIN_DRAWN_DURATION
    } else {
        e.raw.time + e.raw.duration
    }
}

/// The screen position of an instant that may lie beyond the range of
/// `i64`, limited to that range.
pub open spec fn screen_x(v: ViewportState, t: int, width: int) -> int {
    clamp_int(pixel_at(v.start as int, v.span(), t, width), i64::MIN as int, i64::MAX as int)
}

/// The top of the row of process `pe`.
pub open spec fn row_top_of(v: ViewportState, pe: u32) -> int {
    pe * v.track_height - v.scroll
}

/// The box of an event in a content region of the given size: from its
/// start to its drawn end, cut off at the left and right edges of the
/// region, and one pixel inside its row at the top and at the bottom. An
/// event that lies wholly outside the region has no box.
pub open spec fn rect_of(v: ViewportState, e: Event, width: int, height: int) -> Option<EventRect> {
    let x_start = screen_x(v, e.raw.time as int, width);
    let x_end = screen_x(v, drawn_end(e), width);
    let y_start = row_top_of(v, e.source_pe);
    let y_end = y_start + v.track_height;
    if x_end < 0 || x_start > width || y_end < 0 || y_start > height {
        None
    } else {
        Some(
            EventRect {
                left: (if x_start < 0 {
                    0
                } else {
                    x_start
                }) as i64,
                top: (y_start + UNITS_PER_PIXEL) as i64,
                right: (if x_end > width {
                    width
                } else {
                    x_end
                }) as i64,
                bottom: (y_end - UNITS_PER_PIXEL) as i64,
            },
        )
    }
}

/// The top of the row of process `pe`, counted from the top of the content
/// region.
pub fn row_top(view: &ViewportState, pe: u32) -> (y: i128)
    requires
        view.wf(),
    ensures
        y == row_top_of(*view, pe),
        -0x8000_0000_0000_0000 <= y <= 0x1_8000_0000_0000_0000,
{
    assert(0 <= pe * view.track_height <= 0x1_0000_0000_0000_0000) by (nonlinear_arith)
        requires
            0 <= pe < 0x1_0000_0000,
            8000 <= view.track_height <= 100000,
    ;
    (pe as i128) * (view.track_height as i128) - view.scroll as i128
}

/// Where an instant that may lie beyond the range of `i64` stands on the
/// screen.
pub fn wide_time_to_pixel(view: &ViewportState, t: i128, width: i32) -> (x: i64)
    requires
        view.wf(),
        width > 0,
        -0x1_0000_0000_0000_0000 < t < 0x1_0000_0000_0000_0000,
    ensures
        x == screen_x(*view, t as int, width as int),
{
    let span: i128 = view.end as i128 - view.start as i128;
    let offset: i128 = t - view.start as i128;
    assert(-0x1_0000_0000_0000_0000_0000_0000 < offset * width
        < 0x1_0000_0000_0000_0000_0000_0000) by (nonlinear_arith)
        requires
            -0x2_0000_0000_0000_0000 < offset < 0x2_0000_0000_0000_0000,
            0 < width < 0x8000_0000,
    ;
    crate::arith::clamp_to_i64(crate::arith::floor_div(offset * (width as i128), span))
}

/// The box in which an event is drawn, if any of it lies in the content
/// region.
pub fn event_rect(view: &ViewportState, event: &Event, width: i32, height: i32) -> (rect: Option<
    EventRect,
>)
    requires
        view.wf(),
        width > 0,
        event.raw.wf(),
    ensures
        rect == rect_of(*view, *event, width as int, height as int),
{
    let time: i128 = event.raw.time as i128;
    let end: i128 = if event.raw.duration < MIN_DRAWN_DURATION {
        time + MIN_DRAWN_DURATION as i128
    } else {
        time + event.raw.duration as i128
    };
    let x_start: i64 = wide_time_to_pixel(view, time, width);
    let x_end: i64 = wide_time_to_pixel(view, end, width);
    let y_start: i128 = row_top(view, event.source_pe);
    let y_end: i128 = y_start + view.track_height as i128;
    if x_end < 0 || x_start > width as i64 || y_end < 0 || y_start > height as i128 {
        return None;
    }
    Some(
        EventRect {
            left: if x_start < 0 {
                0
            } else {
                x_start
            },
            top: (y_start + UNITS_PER_PIXEL as i128) as i64,
            right: if x_end > width as i64 {
                width as i64
            } else {
                x_end
            },
            bottom: (y_end - UNITS_PER_PIXEL as i128) as i64,
        },
    )
}

/// The events that may show in the view: those that start no earlier than
/// [`LOOK_BACK`] before its left edge and no later than its right edge, as a
/// half-open range of indices.
pub fn visible_range(events: &Vec<Event>, view: &ViewportState) -> (range: (usize, usize))
    requires
        sorted_by_time(events@),
    ensures
        range.0 <= range.1 <= events.len(),
        forall|i: int|
            0 <= i < events.len() ==> (range.0 <= i < range.1 <==> view.start - LOOK_BACK <= (
            #[trigger] events[i]).raw.time <= view.end),
{
    slice_between(events, view.start as i128 - LOOK_BACK as i128, view.end as i128)
}

/// Whether the event at index `k` is drawn under the point (`x`, `y`).
pub open spec fn is_under(events: Seq<Event>, v: ViewportState, width: int, height: int, x: i64, y: i64, k: int) -> bool {
    match rect_of(v, events[k], width, height) {
        Some(rect) => rect.holds(x, y),
        None => false,
    }
}

/// The event under the pointer: of the events with indices from `lo` up to
/// `hi` whose boxes hold the point, the last, which is drawn on top.
pub fn hovered_event(
    events: &Vec<Event>,
    lo: usize,
    hi: usize,
    view: &ViewportState,
    width: i32,
    height: i32,
    x: i64,
    y: i64,
) -> (found: Option<usize>)
    requires
        lo <= hi <= events.len(),
        view.wf(),
        width > 0,
        forall|i: int| lo <= i < hi ==> (#[trigger] events[i]).raw.wf(),
    ensures
        match found {
            Some(k) => lo <= k < hi && is_under(events@, *view, width as int, height as int, x, y, k as int)
                && forall|j: int|
                k < j < hi ==> !is_under(events@, *view, width as int, height as int, x, y, j),
            None => forall|j: int|
                lo <= j < hi ==> !is_under(events@, *view, width as int, height as int, x, y, j),
        },
{
    let mut k: usize = hi;
    while k > lo
        invariant
            lo <= k <= hi <= events.len(),
            view.wf(),
            width > 0,
            forall|i: int| lo <= i < hi ==> (#[trigger] events[i]).raw.wf(),
            forall|j: int|
                k <= j < hi ==> !is_under(events@, *view, width as int, height as int, x, y, j),
        decreases k - lo,
    {
        k = k - 1;
        match event_rect(view, &events[k], width, height) {
            Some(rect) => {
                if rect.contains(x, y) {
                    return Some(k);
                }
            },
            None => {},
        }
    }
    None
}

} // verus!
