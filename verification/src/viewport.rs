//! The visible region of the timeline and the rules by which it moves.
//!
//! Horizontally the view shows the instants from `start` to `end`, in
//! nanoseconds. Vertically it shows one row per process; `scroll` says how
//! far into the rows the view begins. Lengths on screen are counted in
//! thousandths of a pixel, so that a slow zoom still makes progress.
//!
//! A zoom or a drag that would put an edge of the view outside the range of
//! `i64` is not made: the view stays as it was.

use crate::arith::{clamp_int, clamp_to_i64, fits_i64, floor_div, lemma_floor};
use vstd::prelude::*;

verus! {

/// Screen units in one pixel.
pub const UNITS_PER_PIXEL: i64 = 1000;

/// The shortest span of time that the view can show: one nanosecond.
pub const MIN_SPAN: i64 = 1;

/// The lowest height of a row, 8 pixels.
pub const TRACK_HEIGHT_MIN: i64 = 8_000;

/// The greatest height of a row, 100 pixels.
pub const TRACK_HEIGHT_MAX: i64 = 100_000;

/// The height of a row in a fresh view, 16 pixels.
pub const TRACK_HEIGHT_DEFAULT: i64 = 16_000;

/// The width of the event window in a fresh view, 10 milliseconds.
pub const WINDOW_DEFAULT: u64 = 10_000_000;

/// Playback speeds are counted in thousandths: this is real time.
pub const SPEED_UNIT: u32 = 1000;

/// The slowest playback: a tenth of real time.
pub const SPEED_MIN: u32 = 100;

/// The narrowest event window: 100 microseconds.
pub const WINDOW_MIN: u64 = 100_000;

/// How close to the end of the data the cursor must stand for playback to
/// start over: 10 microseconds.
pub const RESTART_MARGIN: i64 = 10_000;

/// The state of the view.
#[derive(Clone, Copy, Debug, PartialEq, Eq, Structural)]
pub struct ViewportState {
    /// The instant at the left edge.
    pub start: i64,
    /// The instant at the right edge.
    pub end: i64,
    /// How far the rows are scrolled, in screen units.
    pub scroll: i64,
    /// The height of one row, in screen units.
    pub track_height: i64,
    /// The instant that playback and the bandwidth view stand at.
    pub cursor_time: i64,
    /// The instant under the pointer, while it is over the rows.
    pub hover_time: Option<i64>,
    /// The width of the event window.
    pub window_size: u64,
    /// Whether the cursor is moving.
    pub playing: bool,
    /// The speed of playback, in thousandths of real time.
    pub speed: u32,
}

/// `start + x * span / width`: the instant that lies `x` screen units to the
/// right of the left edge, when `width` units show `span` nanoseconds.
pub open spec fn time_at(start: int, span: int, x: int, width: int) -> int {
    start + x * span / width
}

/// `(t - start) * width / span`: how many screen units to the right of the
/// left edge the instant `t` lies.
pub open spec fn pixel_at(start: int, span: int, t: int, width: int) -> int {
    (t - start) * width / span
}

/// The left edge after a zoom by `num / den` that keeps the instant under
/// the anchor where it is: `a - (a - start) * num / den`, where `a` is the
/// instant `anchor_x` units into a region `width` units wide.
pub open spec fn zoomed_start(start: int, end: int, anchor_x: int, width: int, num: int, den: int) -> int {
    let a = time_at(start, end - start, anchor_x, width);
    a - (a - start) * num / den
}

/// The right edge after such a zoom: `a + (end - a) * num / den`.
pub open spec fn zoomed_end(start: int, end: int, anchor_x: int, width: int, num: int, den: int) -> int {
    let a = time_at(start, end - start, anchor_x, width);
    a + (end - a) * num / den
}

/// A range that is shorter than the shortest span is replaced by one of
/// exactly that span around its midpoint; any other range stays.
pub open spec fn guarded(s: int, e: int) -> (int, int) {
    if e - s < MIN_SPAN {
        let first = (s + e) / 2 - MIN_SPAN / 2;
        (first, first + MIN_SPAN)
    } else {
        (s, e)
    }
}

/// The height of a row after a zoom by `num / den`, kept within the limits.
pub open spec fn zoomed_height(height: int, num: int, den: int) -> int {
    clamp_int(height * num / den, TRACK_HEIGHT_MIN as int, TRACK_HEIGHT_MAX as int)
}

/// The scroll offset that keeps the content under `anchor_y` in place when
/// the row height goes from `height` to `new_height`.
pub open spec fn zoomed_scroll(scroll: int, anchor_y: int, height: int, new_height: int) -> int {
    (anchor_y + scroll) * new_height / height - anchor_y
}

/// The time that a drag over `delta_x` units stands for.
pub open spec fn pan_shift(span: int, delta_x: int, width: int) -> int {
    delta_x * span / width
}

/// The furthest that the rows can be scrolled: the height of all rows less
/// the part of the content region below its first row, and never negative.
pub open spec fn max_scroll(process_count: int, row_height: int, track_height: int, content_height: int) -> int {
    let rest = process_count * row_height - (content_height - track_height);
    if rest < 0 {
        0
    } else {
        rest
    }
}

/// The edges of the view once it is brought back to the data: a view that
/// begins after the data ends is moved to begin at `max_time`, and a view
/// that ends before the data begins is moved to end at `min_time`. The span
/// stays, unless an edge would leave the range of `i64`; that edge stops at
/// the end of the range.
pub open spec fn range_in_data(start: int, end: int, min_time: int, max_time: int) -> (int, int) {
    let span = end - start;
    let (s1, e1) = if start > max_time {
        (max_time, clamp_int(max_time + span, i64::MIN as int, i64::MAX as int))
    } else {
        (start, end)
    };
    if e1 < min_time {
        (clamp_int(min_time - span, i64::MIN as int, i64::MAX as int), min_time)
    } else {
        (s1, e1)
    }
}

/// How far the cursor moves in `dt` nanoseconds at a speed given in
/// thousandths of real time.
pub open spec fn playback_step(dt: u64, speed: u32) -> int {
    dt * speed / 1000
}

/// The fastest playback for data that ends at `max_time`: as many times
/// real time as the data has seconds, at least real time itself.
pub open spec fn speed_limit(max_time: i64) -> int {
    clamp_int(max_time as int / 1_000_000, SPEED_UNIT as int, u32::MAX as int)
}

/// The widest event window for data from `min_time` to `max_time`: as long
/// as the data, at least the narrowest window.
pub open spec fn window_limit(min_time: i64, max_time: i64) -> int {
    if max_time - min_time > WINDOW_MIN {
        max_time - min_time
    } else {
        WINDOW_MIN as int
    }
}

/// Computes [`speed_limit`].
pub fn speed_limit_of(max_time: i64) -> (limit: u32)
    ensures
        limit == speed_limit(max_time),
{
    let seconds: i64 = if max_time < 0 {
        0
    } else {
        max_time / 1_000_000
    };
    if seconds < SPEED_UNIT as i64 {
        SPEED_UNIT
    } else if seconds > u32::MAX as i64 {
        u32::MAX
    } else {
        seconds as u32
    }
}

/// Computes [`window_limit`].
pub fn window_limit_of(min_time: i64, max_time: i64) -> (limit: u64)
    ensures
        limit == window_limit(min_time, max_time),
{
    let length: i128 = max_time as i128 - min_time as i128;
    if length > WINDOW_MIN as i128 {
        length as u64
    } else {
        WINDOW_MIN
    }
}

/// Where the pointer is and what it does.
#[derive(Clone, Copy, Debug, PartialEq, Eq, Structural)]
pub struct Pointer {
    /// Its distance from the left edge of the content region.
    pub x: i32,
    /// Whether it is over the rows.
    pub in_content: bool,
    /// Whether it is over the ruler above the rows.
    pub in_ruler: bool,
    /// Whether a click or a drag is going on.
    pub pressed: bool,
    /// Whether the modifier key is held.
    pub modifier: bool,
}

impl Pointer {
    /// Whether the pointer moves the cursor: it is pressed on the ruler, or
    /// on the rows while the modifier is held.
    pub open spec fn sets_cursor(&self) -> bool {
        self.pressed && (self.in_ruler || (self.in_content && self.modifier))
    }
}

impl ViewportState {
    /// The visible span of time.
    pub open spec fn span(&self) -> int {
        self.end - self.start
    }

    /// The view shows at least the shortest span, and its rows have a height
    /// within the limits.
    pub open spec fn wf(&self) -> bool {
        &&& self.end - self.start >= MIN_SPAN
        &&& TRACK_HEIGHT_MIN <= self.track_height <= TRACK_HEIGHT_MAX
    }

    /// Tests [`Self::wf`].
    pub fn is_valid(&self) -> (ok: bool)
        ensures
            ok == self.wf(),
    {
        self.end as i128 - self.start as i128 >= MIN_SPAN as i128
            && TRACK_HEIGHT_MIN <= self.track_height && self.track_height <= TRACK_HEIGHT_MAX
    }

    /// The view of a timeline that runs from `min_time` to `max_time`: all of
    /// it is visible, the cursor stands at its beginning and playback is
    /// stopped. A timeline shorter than the shortest span is shown in a view
    /// of exactly that span.
    pub fn new(min_time: i64, max_time: i64) -> (v: ViewportState)
        ensures
            v.wf(),
            min_time < max_time ==> v.start == min_time && v.end == max_time,
            min_time >= max_time ==> v.span() == MIN_SPAN && (v.start == min_time || (min_time
                == i64::MAX && v.end == min_time)),
            v.scroll == 0,
            v.track_height == TRACK_HEIGHT_DEFAULT,
            v.cursor_time == min_time,
            v.hover_time.is_none(),
            v.window_size == WINDOW_DEFAULT,
            !v.playing,
            v.speed == SPEED_UNIT,
    {
        let (start, end) = if min_time < max_time {
            (min_time, max_time)
        } else if min_time < i64::MAX {
            (min_time, min_time + MIN_SPAN)
        } else {
            (min_time - MIN_SPAN, min_time)
        };
        ViewportState {
            start,
            end,
            scroll: 0,
            track_height: TRACK_HEIGHT_DEFAULT,
            cursor_time: min_time,
            hover_time: None,
            window_size: WINDOW_DEFAULT,
            playing: false,
            speed: SPEED_UNIT,
        }
    }

    /// Where the instant `t` lies on a content region `width` units wide,
    /// counted from its left edge and limited to the range of `i64`.
    pub fn time_to_pixel(&self, t: i64, width: i32) -> (x: i64)
        requires
            self.wf(),
            width > 0,
        ensures
            x == clamp_int(
                pixel_at(self.start as int, self.span(), t as int, width as int),
                i64::MIN as int,
                i64::MAX as int,
            ),
    {
        let span: i128 = self.end as i128 - self.start as i128;
        let offset: i128 = t as i128 - self.start as i128;
        assert(-0x8000_0000_0000_0000_0000_0000 < offset * width < 0x8000_0000_0000_0000_0000_0000)
            by (nonlinear_arith)
            requires
                -0x1_0000_0000_0000_0000 < offset < 0x1_0000_0000_0000_0000,
                0 < width < 0x8000_0000,
        ;
        clamp_to_i64(floor_div(offset * (width as i128), span))
    }

    /// The instant that lies `x` units to the right of the left edge of a
    /// content region `width` units wide, limited to the range of `i64`.
    pub fn pixel_to_time(&self, x: i32, width: i32) -> (t: i64)
        requires
            self.wf(),
            width > 0,
        ensures
            t == clamp_int(
                time_at(self.start as int, self.span(), x as int, width as int),
                i64::MIN as int,
                i64::MAX as int,
            ),
    {
        let span: i128 = self.end as i128 - self.start as i128;
        assert(-0x8000_0000_0000_0000_0000_0000 < x * span < 0x8000_0000_0000_0000_0000_0000)
            by (nonlinear_arith)
            requires
                0 < span < 0x1_0000_0000_0000_0000,
                -0x8000_0000 <= x < 0x8000_0000,
        ;
        clamp_to_i64(self.start as i128 + floor_div((x as i128) * span, width as i128))
    }

    /// Whether two views differ in nothing but their edges in time.
    pub open spec fn same_but_range(&self, other: &ViewportState) -> bool {
        &&& self.scroll == other.scroll
        &&& self.track_height == other.track_height
        &&& self.same_session(other)
    }

    /// Whether two views agree on cursor, hover, window and playback.
    pub open spec fn same_session(&self, other: &ViewportState) -> bool {
        &&& self.cursor_time == other.cursor_time
        &&& self.hover_time == other.hover_time
        &&& self.window_size == other.window_size
        &&& self.playing == other.playing
        &&& self.speed == other.speed
    }

    /// Zooms in time by the factor `num / den` around the instant that lies
    /// `anchor_x` units into a content region `width` units wide. That
    /// instant keeps its place on screen. A factor below one zooms in.
    ///
    /// The view never becomes shorter than the shortest span.
    #[verifier::rlimit(40)]
    pub fn zoom_time(&mut self, anchor_x: i32, width: i32, num: i32, den: i32)
        requires
            old(self).wf(),
            width > 0,
            num > 0,
            den > 0,
        ensures
            final(self).wf(),
            final(self).same_but_range(old(self)),
            ({
                let s = zoomed_start(
                    old(self).start as int,
                    old(self).end as int,
                    anchor_x as int,
                    width as int,
                    num as int,
                    den as int,
                );
                let e = zoomed_end(
                    old(self).start as int,
                    old(self).end as int,
                    anchor_x as int,
                    width as int,
                    num as int,
                    den as int,
                );
                let (gs, ge) = guarded(s, e);
                if fits_i64(gs) && fits_i64(ge) {
                    final(self).start == gs && final(self).end == ge
                } else {
                    final(self).start == old(self).start && final(self).end == old(self).end
                }
            }),
            num == den ==> *final(self) == *old(self),
    {
        let start: i128 = self.start as i128;
        let end: i128 = self.end as i128;
        let span: i128 = end - start;
        proof {
            if num == den {
                let a = time_at(start as int, span as int, anchor_x as int, width as int);
                vstd::arithmetic::div_mod::lemma_div_multiples_vanish(a - start, den as int);
                vstd::arithmetic::div_mod::lemma_div_multiples_vanish(end - a, den as int);
                assert((a - start) * num == den * (a - start)) by (nonlinear_arith)
                    requires
                        num == den,
                ;
                assert((end - a) * num == den * (end - a)) by (nonlinear_arith)
                    requires
                        num == den,
                ;
            }
        }
        assert(-0x8000_0000_0000_0000_0000_0000 < anchor_x * span < 0x8000_0000_0000_0000_0000_0000)
            by (nonlinear_arith)
            requires
                0 < span < 0x1_0000_0000_0000_0000,
                -0x8000_0000 <= anchor_x < 0x8000_0000,
        ;
        let reach: i128 = floor_div((anchor_x as i128) * span, width as i128);
        let a: i128 = start + reach;
        let before: i128 = a - start;
        let after: i128 = end - a;
        assert(-0x4000_0000_0000_0000_0000_0000_0000_0000 < before * num
            < 0x4000_0000_0000_0000_0000_0000_0000_0000) by (nonlinear_arith)
            requires
                -0x8000_0000_0000_0000_0000_0000 < before < 0x8000_0000_0000_0000_0000_0000,
                0 < num < 0x8000_0000,
        ;
        assert(-0x4000_0000_0000_0000_0000_0000_0000_0000 < after * num
            < 0x4000_0000_0000_0000_0000_0000_0000_0000) by (nonlinear_arith)
            requires
                -0x8000_0001_0000_0000_0000_0000 < after < 0x8000_0001_0000_0000_0000_0000,
                0 < num < 0x8000_0000,
        ;
        let s: i128 = a - floor_div(before * (num as i128), den as i128);
        let e: i128 = a + floor_div(after * (num as i128), den as i128);
        let (gs, ge) = if e - s < MIN_SPAN as i128 {
            let first: i128 = s + floor_div(e - s, 2) - (MIN_SPAN / 2) as i128;
            (first, first + MIN_SPAN as i128)
        } else {
            (s, e)
        };
        if i64::MIN as i128 <= gs && gs <= i64::MAX as i128 && i64::MIN as i128 <= ge && ge
            <= i64::MAX as i128 {
            self.start = gs as i64;
            self.end = ge as i64;
        }
    }

    /// Zooms the rows by the factor `num / den`, keeping the height of a row
    /// within its limits, and scrolls so that the content `anchor_y` units
    /// below the top of the content region keeps its place.
    pub fn zoom_track_height(&mut self, anchor_y: i32, num: i32, den: i32)
        requires
            old(self).wf(),
            num > 0,
            den > 0,
        ensures
            final(self).wf(),
            final(self).start == old(self).start,
            final(self).end == old(self).end,
            final(self).same_session(old(self)),
            final(self).track_height == zoomed_height(
                old(self).track_height as int,
                num as int,
                den as int,
            ),
            final(self).scroll == clamp_int(
                zoomed_scroll(
                    old(self).scroll as int,
                    anchor_y as int,
                    old(self).track_height as int,
                    final(self).track_height as int,
                ),
                i64::MIN as int,
                i64::MAX as int,
            ),
    {
        let height: i128 = self.track_height as i128;
        assert(0 < height * num < 0x1_0000_0000_0000) by (nonlinear_arith)
            requires
                8000 <= height <= 100000,
                0 < num < 0x8000_0000,
        ;
        let scaled: i128 = floor_div(height * (num as i128), den as i128);
        let new_height: i128 = if scaled < TRACK_HEIGHT_MIN as i128 {
            TRACK_HEIGHT_MIN as i128
        } else if scaled > TRACK_HEIGHT_MAX as i128 {
            TRACK_HEIGHT_MAX as i128
        } else {
            scaled
        };
        let in_content: i128 = anchor_y as i128 + self.scroll as i128;
        assert(-0x1_0000_0000_0000_0000_0000_0000 < in_content * new_height
            < 0x1_0000_0000_0000_0000_0000_0000) by (nonlinear_arith)
            requires
                -0x1_0000_0000_0000_0000 < in_content < 0x1_0000_0000_0000_0000,
                8000 <= new_height <= 100000,
        ;
        let moved: i128 = floor_div(in_content * new_height, height) - anchor_y as i128;
        self.track_height = new_height as i64;
        self.scroll = clamp_to_i64(moved);
    }

    /// Drags the view by `delta_x` units across a content region `width`
    /// units wide and by `delta_y` units down: the time under the pointer
    /// and the rows follow it.
    pub fn pan(&mut self, delta_x: i32, delta_y: i32, width: i32)
        requires
            old(self).wf(),
            width > 0,
        ensures
            final(self).wf(),
            final(self).track_height == old(self).track_height,
            final(self).same_session(old(self)),
            final(self).scroll == clamp_int(
                old(self).scroll - delta_y,
                i64::MIN as int,
                i64::MAX as int,
            ),
            ({
                let shift = pan_shift(old(self).span(), delta_x as int, width as int);
                if fits_i64(old(self).start - shift) && fits_i64(old(self).end - shift) {
                    final(self).start == old(self).start - shift && final(self).end == old(
                        self,
                    ).end - shift
                } else {
                    final(self).start == old(self).start && final(self).end == old(self).end
                }
            }),
    {
        let start: i128 = self.start as i128;
        let end: i128 = self.end as i128;
        let span: i128 = end - start;
        assert(-0x8000_0000_0000_0000_0000_0000 < delta_x * span < 0x8000_0000_0000_0000_0000_0000)
            by (nonlinear_arith)
            requires
                0 < span < 0x1_0000_0000_0000_0000,
                -0x8000_0000 <= delta_x < 0x8000_0000,
        ;
        let shift: i128 = floor_div((delta_x as i128) * span, width as i128);
        let s: i128 = start - shift;
        let e: i128 = end - shift;
        if i64::MIN as i128 <= s && s <= i64::MAX as i128 && i64::MIN as i128 <= e && e
            <= i64::MAX as i128 {
            self.start = s as i64;
            self.end = e as i64;
        }
        self.scroll = clamp_to_i64(self.scroll as i128 - delta_y as i128);
    }

    /// Brings the view back to the data after a change: in time as
    /// [`range_in_data`] says, and in the rows by limiting the scroll offset
    /// to the interval from zero to [`max_scroll`]. `track_height` is the
    /// height that a row had when the content region was laid out.
    pub fn clamp_to_data(
        &mut self,
        min_time: i64,
        max_time: i64,
        process_count: u32,
        track_height: i64,
        content_height: i32,
    )
        requires
            old(self).wf(),
        ensures
            final(self).wf(),
            final(self).track_height == old(self).track_height,
            final(self).same_session(old(self)),
            (final(self).start as int, final(self).end as int) == range_in_data(
                old(self).start as int,
                old(self).end as int,
                min_time as int,
                max_time as int,
            ),
            final(self).scroll == clamp_int(
                old(self).scroll as int,
                0,
                max_scroll(
                    process_count as int,
                    old(self).track_height as int,
                    track_height as int,
                    content_height as int,
                ),
            ),
    {
        let span: i128 = self.end as i128 - self.start as i128;
        if self.start > max_time {
            self.start = max_time;
            self.end = clamp_to_i64(max_time as i128 + span);
        }
        if self.end < min_time {
            self.end = min_time;
            self.start = clamp_to_i64(min_time as i128 - span);
        }
        assert(0 <= process_count * self.track_height <= 0x1_0000_0000_0000_0000) by (nonlinear_arith)
            requires
                0 <= process_count < 0x1_0000_0000,
                8000 <= self.track_height <= 100000,
        ;
        let rows: i128 = (process_count as i128) * (self.track_height as i128);
        let rest: i128 = rows - (content_height as i128 - track_height as i128);
        let limit: i128 = if rest < 0 {
            0
        } else {
            rest
        };
        if self.scroll < 0 {
            self.scroll = 0;
        } else if self.scroll as i128 > limit {
            self.scroll = limit as i64;
        }
    }

    /// Moves the cursor on by `dt` nanoseconds of real time while playback
    /// runs. A cursor that passes `max_time` is put there and playback
    /// stops. Returns whether playback was running, that is, whether the
    /// next frame is wanted at once.
    pub fn advance(&mut self, dt: u64, max_time: i64) -> (was_playing: bool)
        ensures
            was_playing == old(self).playing,
            final(self).start == old(self).start,
            final(self).end == old(self).end,
            final(self).scroll == old(self).scroll,
            final(self).track_height == old(self).track_height,
            final(self).hover_time == old(self).hover_time,
            final(self).window_size == old(self).window_size,
            final(self).speed == old(self).speed,
            !old(self).playing ==> *final(self) == *old(self),
            old(self).playing ==> ({
                let moved = old(self).cursor_time + playback_step(dt, old(self).speed);
                if moved > max_time {
                    final(self).cursor_time == max_time && !final(self).playing
                } else {
                    final(self).cursor_time == moved && final(self).playing
                }
            }),
    {
        if !self.playing {
            return false;
        }
        assert(0 <= dt * self.speed < 0x1_0000_0000_0000_0000_0000_0000) by (nonlinear_arith)
            requires
                0 <= dt < 0x1_0000_0000_0000_0000,
                0 <= self.speed < 0x1_0000_0000,
        ;
        let step: i128 = ((dt as i128) * (self.speed as i128)) / 1000;
        let moved: i128 = self.cursor_time as i128 + step;
        if moved > max_time as i128 {
            self.cursor_time = max_time;
            self.playing = false;
        } else {
            self.cursor_time = moved as i64;
        }
        true
    }

    /// The play button: starts playback when it is stopped and stops it when
    /// it runs. Starting with the cursor at the end of the data, or within
    /// [`RESTART_MARGIN`] of it, puts the cursor back to `min_time` first.
    pub fn toggle_play(&mut self, min_time: i64, max_time: i64)
        ensures
            final(self).start == old(self).start,
            final(self).end == old(self).end,
            final(self).scroll == old(self).scroll,
            final(self).track_height == old(self).track_height,
            final(self).hover_time == old(self).hover_time,
            final(self).window_size == old(self).window_size,
            final(self).speed == old(self).speed,
            final(self).playing == !old(self).playing,
            final(self).cursor_time == (if !old(self).playing && old(self).cursor_time >= max_time
                - RESTART_MARGIN {
                min_time
            } else {
                old(self).cursor_time
            }),
    {
        if !self.playing && self.cursor_time as i128 >= max_time as i128 - RESTART_MARGIN as i128 {
            self.cursor_time = min_time;
        }
        self.playing = !self.playing;
    }

    /// Sets the speed of playback, limited to the interval from
    /// [`SPEED_MIN`] to [`speed_limit`].
    pub fn set_speed(&mut self, speed: u32, max_time: i64)
        ensures
            final(self).speed == clamp_int(speed as int, SPEED_MIN as int, speed_limit(max_time)),
            final(self).start == old(self).start,
            final(self).end == old(self).end,
            final(self).scroll == old(self).scroll,
            final(self).track_height == old(self).track_height,
            final(self).cursor_time == old(self).cursor_time,
            final(self).hover_time == old(self).hover_time,
            final(self).window_size == old(self).window_size,
            final(self).playing == old(self).playing,
    {
        let limit: u32 = speed_limit_of(max_time);
        self.speed = if speed < SPEED_MIN {
            SPEED_MIN
        } else if speed > limit {
            limit
        } else {
            speed
        };
    }

    /// Sets the width of the event window, limited to the interval from
    /// [`WINDOW_MIN`] to [`window_limit`].
    pub fn set_window_size(&mut self, size: u64, min_time: i64, max_time: i64)
        ensures
            final(self).window_size == clamp_int(
                size as int,
                WINDOW_MIN as int,
                window_limit(min_time, max_time),
            ),
            final(self).start == old(self).start,
            final(self).end == old(self).end,
            final(self).scroll == old(self).scroll,
            final(self).track_height == old(self).track_height,
            final(self).cursor_time == old(self).cursor_time,
            final(self).hover_time == old(self).hover_time,
            final(self).speed == old(self).speed,
            final(self).playing == old(self).playing,
    {
        let limit: u64 = window_limit_of(min_time, max_time);
        self.window_size = if size < WINDOW_MIN {
            WINDOW_MIN
        } else if size > limit {
            limit
        } else {
            size
        };
    }

    /// Follows the pointer. While it is over the rows, the hover time is the
    /// instant under it; otherwise there is none. A pointer that
    /// [sets the cursor](Pointer::sets_cursor) puts it at the instant under
    /// the pointer, limited to the data.
    pub fn track_pointer(&mut self, pointer: Option<Pointer>, width: i32, min_time: i64, max_time: i64)
        requires
            old(self).wf(),
            width > 0,
            min_time <= max_time,
        ensures
            final(self).start == old(self).start,
            final(self).end == old(self).end,
            final(self).scroll == old(self).scroll,
            final(self).track_height == old(self).track_height,
            final(self).window_size == old(self).window_size,
            final(self).playing == old(self).playing,
            final(self).speed == old(self).speed,
            final(self).hover_time == (match pointer {
                Some(p) => if p.in_content {
                    Some(
                        clamp_int(
                            time_at(old(self).start as int, old(self).span(), p.x as int, width as int),
                            i64::MIN as int,
                            i64::MAX as int,
                        ) as i64,
                    )
                } else {
                    None
                },
                None => None,
            }),
            final(self).cursor_time == (match pointer {
                Some(p) => if p.sets_cursor() {
                    clamp_int(
                        time_at(old(self).start as int, old(self).span(), p.x as int, width as int),
                        min_time as int,
                        max_time as int,
                    ) as i64
                } else {
                    old(self).cursor_time
                },
                None => old(self).cursor_time,
            }),
    {
        match pointer {
            Some(p) => {
                let t: i64 = self.pixel_to_time(p.x, width);
                if p.in_content {
                    self.hover_time = Some(t);
                } else {
                    self.hover_time = None;
                }
                if p.pressed && (p.in_ruler || (p.in_content && p.modifier)) {
                    self.cursor_time = if t < min_time {
                        min_time
                    } else if t > max_time {
                        max_time
                    } else {
                        t
                    };
                }
            },
            None => {
                self.hover_time = None;
            },
        }
    }
}

/// An instant in view, taken to the screen and back, returns at or before
/// itself, and earlier by less than the time of one screen unit plus one
/// nanosecond: the two maps are inverses up to the rounding of each.
pub proof fn law_time_pixel_round_trip(v: ViewportState, t: i64, width: i32)
    requires
        v.wf(),
        width > 0,
        v.start <= t <= v.end,
    ensures
        ({
            let x = pixel_at(v.start as int, v.span(), t as int, width as int);
            let back = time_at(v.start as int, v.span(), x, width as int);
            &&& 0 <= x <= width
            &&& v.start <= back <= t
            &&& (t - back) * width < v.span() + width
        }),
{
    let span = v.span();
    let w = width as int;
    let off = t - v.start;
    let x = off * w / span;
    let reach = x * span / w;
    vstd::arithmetic::div_mod::lemma_fundamental_div_mod(off * w, span);
    vstd::arithmetic::div_mod::lemma_fundamental_div_mod(x * span, w);
    assert(0 <= off * w <= span * w) by (nonlinear_arith)
        requires
            0 <= off <= span,
            w > 0,
    ;
    assert(0 <= x <= w) by (nonlinear_arith)
        requires
            0 <= off * w <= span * w,
            off * w == span * x + (off * w) % span,
            0 <= (off * w) % span < span,
            span > 0,
    ;
    assert(0 <= reach && reach * w <= x * span && x * span < reach * w + w) by (nonlinear_arith)
        requires
            x * span == w * reach + (x * span) % w,
            0 <= (x * span) % w < w,
            x >= 0,
            span > 0,
    ;
    assert(reach <= off && (off - reach) * w < span + w) by (nonlinear_arith)
        requires
            reach * w <= x * span,
            x * span < reach * w + w,
            off * w == span * x + (off * w) % span,
            0 <= (off * w) % span < span,
            w > 0,
    ;
}

/// A pixel of the content region, taken to its instant and back, returns
/// to itself when every screen unit shows at least a nanosecond.
pub proof fn law_pixel_time_round_trip(v: ViewportState, x: i32, width: i32)
    requires
        v.wf(),
        width > 0,
        0 <= x <= width,
        v.span() >= width,
    ensures
        ({
            let t = time_at(v.start as int, v.span(), x as int, width as int);
            &&& v.start <= t <= v.end
            &&& pixel_at(v.start as int, v.span(), t, width as int) <= x
            &&& x - pixel_at(v.start as int, v.span(), t, width as int) <= 1
        }),
{
    let span = v.span();
    let w = width as int;
    let xi = x as int;
    let reach = xi * span / w;
    let back = reach * w / span;
    vstd::arithmetic::div_mod::lemma_fundamental_div_mod(xi * span, w);
    vstd::arithmetic::div_mod::lemma_fundamental_div_mod(reach * w, span);
    assert(0 <= reach <= span) by (nonlinear_arith)
        requires
            xi * span == w * reach + (xi * span) % w,
            0 <= (xi * span) % w < w,
            0 <= xi <= w,
            span > 0,
    ;
    assert(back <= xi && xi - back <= 1) by (nonlinear_arith)
        requires
            xi * span == w * reach + (xi * span) % w,
            0 <= (xi * span) % w < w,
            reach * w == span * back + (reach * w) % span,
            0 <= (reach * w) % span < span,
            span >= w,
            w > 0,
    ;
}

/// A zoom by `num / den` and then by `den / num` around the same anchor
/// brings both edges back to where they were, up to rounding: each edge
/// returns within `3 * (num + den)^2 / (num * den)` nanoseconds of itself.
///
/// The edges are those of [`zoomed_start`] and [`zoomed_end`], which
/// [`ViewportState::zoom_time`] sets whenever the zoom neither reaches the
/// shortest span nor leaves the range of `i64`.
#[verifier::rlimit(40)]
pub proof fn law_zoom_then_inverse(start: int, end: int, anchor_x: int, width: int, num: int, den: int)
    requires
        start < end,
        0 <= anchor_x <= width,
        width > 0,
        num > 0,
        den > 0,
    ensures
        ({
            let s1 = zoomed_start(start, end, anchor_x, width, num, den);
            let e1 = zoomed_end(start, end, anchor_x, width, num, den);
            let s2 = zoomed_start(s1, e1, anchor_x, width, den, num);
            let e2 = zoomed_end(s1, e1, anchor_x, width, den, num);
            &&& num * den * (s2 - start) <= 3 * (num + den) * (num + den)
            &&& num * den * (start - s2) <= 3 * (num + den) * (num + den)
            &&& num * den * (e2 - end) <= 3 * (num + den) * (num + den)
            &&& num * den * (end - e2) <= 3 * (num + den) * (num + den)
        }),
{
    let x = anchor_x;
    let w = width;
    let n = num;
    let d = den;
    let span = end - start;
    // The first zoom.
    let l = x * span / w;
    let r = span - l;
    let l1 = l * n / d;
    let r1 = r * n / d;
    let a = start + l;
    let s1 = a - l1;
    let e1 = a + r1;
    let span1 = e1 - s1;
    assert(span1 == l1 + r1);
    assert(a == time_at(start, span, x, w));
    assert(a - start == l && end - a == r);
    assert(s1 == zoomed_start(start, end, x, w, n, d));
    assert(e1 == zoomed_end(start, end, x, w, n, d));
    // The second zoom.
    let aa = x * span1 / w;
    let bb = span1 - aa;
    let a2 = aa * d / n;
    let b2 = bb * d / n;
    let anchor2 = s1 + aa;
    assert(anchor2 == time_at(s1, span1, x, w));
    assert(anchor2 - s1 == aa && e1 - anchor2 == bb);
    let s2 = anchor2 - a2;
    let e2 = anchor2 + b2;
    assert(s2 == zoomed_start(s1, e1, x, w, d, n));
    assert(e2 == zoomed_end(s1, e1, x, w, d, n));
    lemma_floor(x * span, w);
    lemma_floor(l * n, d);
    lemma_floor(r * n, d);
    lemma_floor(x * span1, w);
    lemma_floor(aa * d, n);
    lemma_floor(bb * d, n);
    let delta = aa - l1;
    // How far the anchor moved between the zooms.
    assert(d * span1 <= span * n && span * n < d * span1 + 2 * d) by (nonlinear_arith)
        requires
            d * l1 <= l * n < d * l1 + d,
            d * r1 <= r * n < d * r1 + d,
            span1 == l1 + r1,
            span == l + r,
    ;
    assert(w * (aa * d) <= x * (span * n)) by (nonlinear_arith)
        requires
            w * aa <= x * span1,
            d * span1 <= span * n,
            x >= 0,
            d > 0,
    ;
    assert(x * (span * n) < (w * l + w) * n) by (nonlinear_arith)
        requires
            x * span < w * l + w,
            n > 0,
    ;
    assert(aa * d < l * n + n) by (nonlinear_arith)
        requires
            w * (aa * d) <= x * (span * n),
            x * (span * n) < (w * l + w) * n,
            w > 0,
    ;
    assert(d * delta < d + n) by (nonlinear_arith)
        requires
            aa * d < l * n + n,
            l * n < d * l1 + d,
            delta == aa - l1,
    ;
    assert(x * (span1 * d) >= x * (span * n) - 2 * (x * d)) by (nonlinear_arith)
        requires
            span * n < d * span1 + 2 * d,
            x >= 0,
    ;
    assert(x * (span * n) >= (w * l) * n) by (nonlinear_arith)
        requires
            w * l <= x * span,
            n > 0,
    ;
    assert(w * (aa * d) > x * (span1 * d) - w * d) by (nonlinear_arith)
        requires
            x * span1 < w * aa + w,
            d > 0,
    ;
    assert(x * d <= w * d) by (nonlinear_arith)
        requires
            x <= w,
            d > 0,
    ;
    assert(aa * d > l * n - 3 * d) by (nonlinear_arith)
        requires
            w * (aa * d) > x * (span1 * d) - w * d,
            x * (span1 * d) >= x * (span * n) - 2 * (x * d),
            x * (span * n) >= (w * l) * n,
            x * d <= w * d,
            w > 0,
    ;
    assert(delta >= -2) by (nonlinear_arith)
        requires
            aa * d > l * n - 3 * d,
            d * l1 <= l * n,
            delta == aa - l1,
            d > 0,
    ;
    // The left edge.
    let ds = s2 - start;
    assert(ds == l - l1 + aa - a2);
    assert((n - d) * delta <= n * ds && n * ds < (n - d) * delta + n + d) by (nonlinear_arith)
        requires
            ds == l - l1 + aa - a2,
            n * a2 <= aa * d < n * a2 + n,
            d * l1 <= l * n < d * l1 + d,
            delta == aa - l1,
    ;
    // The right edge.
    let de = e2 - end;
    assert(de == aa - l1 + b2 - r);
    assert((n - d) * delta - n - d < n * de && n * de <= (n - d) * delta) by (nonlinear_arith)
        requires
            de == aa - l1 + b2 - r,
            n * b2 <= bb * d < n * b2 + n,
            d * r1 <= r * n < d * r1 + d,
            bb == l1 + r1 - aa,
            delta == aa - l1,
    ;
    lemma_within_tolerance(n, d, delta, n * ds, n + d);
    lemma_within_tolerance(n, d, delta, n * de, n + d);
    assert(n * d * ds == d * (n * ds) && n * d * de == d * (n * de)) by (nonlinear_arith);
    assert(n * d * (start - s2) == -(n * d * ds) && n * d * (end - e2) == -(n * d * de))
        by (nonlinear_arith)
        requires
            ds == s2 - start,
            de == e2 - end,
    ;
    let bound = 3 * (n + d) * (n + d);
    assert(-3 * (n + d) * (n + d) == -bound) by (nonlinear_arith)
        requires
            bound == 3 * (n + d) * (n + d),
    ;
    assert(n * d * (s2 - start) <= bound);
    assert(n * d * (start - s2) <= bound);
    assert(n * d * (e2 - end) <= bound);
    assert(n * d * (end - e2) <= bound);
}

/// The arithmetic behind [`law_zoom_then_inverse`]: a value `v` that lies
/// within `slack` of `(n - d) * delta`, where `delta` is at least -2 and
/// `d * delta` is below `d + n`, is small once it is multiplied by `d`.
proof fn lemma_within_tolerance(n: int, d: int, delta: int, v: int, slack: int)
    requires
        n > 0,
        d > 0,
        slack == n + d,
        delta >= -2,
        d * delta < d + n,
        (n - d) * delta - slack <= v <= (n - d) * delta + slack,
    ensures
        -3 * (n + d) * (n + d) <= d * v <= 3 * (n + d) * (n + d),
{
    let base = (n - d) * delta;
    assert(d * base == (n - d) * (d * delta)) by (nonlinear_arith)
        requires
            base == (n - d) * delta,
    ;
    if n >= d {
        assert(d * base <= (n - d) * (d + n)) by (nonlinear_arith)
            requires
                d * base == (n - d) * (d * delta),
                d * delta < d + n,
                n - d >= 0,
        ;
        assert(d * base >= -2 * d * (n - d)) by (nonlinear_arith)
            requires
                d * base == (n - d) * (d * delta),
                delta >= -2,
                n - d >= 0,
                d > 0,
        ;
    } else {
        assert(d * base >= (n - d) * (d + n)) by (nonlinear_arith)
            requires
                d * base == (n - d) * (d * delta),
                d * delta < d + n,
                n - d < 0,
        ;
        assert(d * base <= 2 * d * (d - n)) by (nonlinear_arith)
            requires
                d * base == (n - d) * (d * delta),
                delta >= -2,
                n - d < 0,
                d > 0,
        ;
    }
    assert(d * base - d * slack <= d * v && d * v <= d * base + d * slack) by (nonlinear_arith)
        requires
            base - slack <= v <= base + slack,
            d > 0,
    ;
    assert(-3 * (n + d) * (n + d) <= d * base - d * slack && d * base + d * slack <= 3 * (n + d) * (n
        + d)) by (nonlinear_arith)
        requires
            n > 0,
            d > 0,
            slack == n + d,
            n >= d ==> -2 * d * (n - d) <= d * base <= (n - d) * (d + n),
            n < d ==> (n - d) * (d + n) <= d * base <= 2 * d * (d - n),
    ;
}

} // verus!
