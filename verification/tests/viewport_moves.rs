use pe_timeline::viewport::{
    Pointer, ViewportState, MIN_SPAN, RESTART_MARGIN, SPEED_MIN, SPEED_UNIT, TRACK_HEIGHT_DEFAULT,
    TRACK_HEIGHT_MAX, TRACK_HEIGHT_MIN, WINDOW_DEFAULT, WINDOW_MIN,
};

const SECOND: i64 = 1_000_000_000;

fn view(start: i64, end: i64) -> ViewportState {
    let v = ViewportState::new(start, end);
    assert!(v.is_valid());
    v
}

#[test]
fn a_fresh_view_shows_all_of_the_data() {
    let v = ViewportState::new(5 * SECOND, 9 * SECOND);
    assert_eq!((v.start, v.end), (5 * SECOND, 9 * SECOND));
    assert_eq!(v.cursor_time, 5 * SECOND);
    assert_eq!(v.scroll, 0);
    assert_eq!(v.track_height, TRACK_HEIGHT_DEFAULT);
    assert_eq!(v.window_size, WINDOW_DEFAULT);
    assert_eq!(v.speed, SPEED_UNIT);
    assert_eq!(v.hover_time, None);
    assert!(!v.playing);
}

#[test]
fn a_fresh_view_of_an_instant_has_the_shortest_span() {
    let v = ViewportState::new(7, 7);
    assert_eq!((v.start, v.end), (7, 7 + MIN_SPAN));
    assert!(v.is_valid());
    let v = ViewportState::new(i64::MAX, i64::MAX);
    assert_eq!((v.start, v.end), (i64::MAX - MIN_SPAN, i64::MAX));
    assert!(v.is_valid());
    let v = ViewportState::new(9, 3);
    assert_eq!((v.start, v.end), (9, 10));
}

#[test]
fn is_valid_tells_a_broken_view() {
    let mut v = view(0, SECOND);
    v.end = v.start;
    assert!(!v.is_valid());
    let mut v = view(0, SECOND);
    v.track_height = TRACK_HEIGHT_MIN - 1;
    assert!(!v.is_valid());
    let mut v = view(0, SECOND);
    v.track_height = TRACK_HEIGHT_MAX + 1;
    assert!(!v.is_valid());
}

#[test]
fn zoom_by_one_changes_nothing() {
    let mut v = view(3 * SECOND, 11 * SECOND);
    let before = v;
    v.zoom_time(250_000, 1_000_000, 1, 1);
    assert_eq!(v, before);
    v.zoom_time(-120_000, 1_000_000, 65_536, 65_536);
    assert_eq!(v, before);
}

#[test]
fn zoom_keeps_the_instant_under_the_anchor() {
    let mut v = view(0, 1000);
    // The anchor a quarter into the region stands at 250; halving the span keeps it there.
    v.zoom_time(250, 1000, 1, 2);
    assert_eq!((v.start, v.end), (125, 625));
    assert_eq!(v.pixel_to_time(250, 1000), 250);
}

#[test]
fn zoom_out_doubles_the_span_around_the_anchor() {
    let mut v = view(1000, 2000);
    v.zoom_time(500, 1000, 2, 1);
    assert_eq!((v.start, v.end), (500, 2500));
}

#[test]
fn zoom_with_the_anchor_left_of_the_region() {
    let mut v = view(1000, 2000);
    // 100 units left of a region of 1000 units: the anchor instant is 900.
    v.zoom_time(-100, 1000, 1, 2);
    assert_eq!((v.start, v.end), (950, 1450));
}

#[test]
fn zoom_never_goes_below_the_shortest_span() {
    let mut v = view(100, 104);
    v.zoom_time(500, 1000, 1, 1000);
    assert_eq!(v.end - v.start, MIN_SPAN);
    assert_eq!((v.start, v.end), (102, 103));
    assert!(v.is_valid());
}

#[test]
fn zoom_and_its_inverse_return_within_tolerance() {
    for &(num, den) in &[(1, 2), (2, 1), (3, 7), (65_000, 65_536), (66_000, 65_536), (1, 100)] {
        for &anchor in &[0, 1, 333, 500, 999, 1000] {
            let start: i64 = 17 * SECOND + 3;
            let end: i64 = 29 * SECOND + 11;
            let mut v = view(start, end);
            v.zoom_time(anchor, 1000, num, den);
            v.zoom_time(anchor, 1000, den, num);
            let n = num as i128;
            let d = den as i128;
            let tolerance = 3 * (n + d) * (n + d);
            assert!(n * d * ((v.start - start) as i128).abs() <= tolerance);
            assert!(n * d * ((v.end - end) as i128).abs() <= tolerance);
        }
    }
}

#[test]
fn zoom_that_would_leave_the_range_is_not_made() {
    let mut v = view(i64::MIN, i64::MAX);
    let before = v;
    v.zoom_time(500, 1000, 2, 1);
    assert_eq!(v, before);
}

#[test]
fn time_and_pixel_maps_are_inverse_up_to_rounding() {
    let v = view(2 * SECOND, 5 * SECOND);
    let width = 800_000;
    let span = v.end - v.start;
    for step in 0..=64 {
        let t = v.start + span / 64 * step;
        let x = v.time_to_pixel(t, width);
        assert!(0 <= x && x <= width as i64);
        let back = v.pixel_to_time(x as i32, width);
        assert!(back <= t);
        assert!((t - back) as i128 * (width as i128) < span as i128 + width as i128);
    }
}

#[test]
fn time_to_pixel_is_affine() {
    let v = view(1000, 3000);
    assert_eq!(v.time_to_pixel(1000, 500), 0);
    assert_eq!(v.time_to_pixel(3000, 500), 500);
    assert_eq!(v.time_to_pixel(2000, 500), 250);
    assert_eq!(v.time_to_pixel(1001, 500), 0);
    assert_eq!(v.time_to_pixel(999, 500), -1);
    assert_eq!(v.time_to_pixel(5000, 500), 1000);
}

#[test]
fn pixel_to_time_is_affine() {
    let v = view(1000, 3000);
    assert_eq!(v.pixel_to_time(0, 500), 1000);
    assert_eq!(v.pixel_to_time(500, 500), 3000);
    assert_eq!(v.pixel_to_time(125, 500), 1500);
    assert_eq!(v.pixel_to_time(-1, 500), 996);
    assert_eq!(v.pixel_to_time(1, 3), 1666);
}

#[test]
fn maps_stay_within_the_range_of_time() {
    let v = view(i64::MIN, i64::MAX);
    assert_eq!(v.pixel_to_time(2000, 1000), i64::MAX);
    assert_eq!(v.pixel_to_time(-2000, 1000), i64::MIN);
    let v = view(0, 1);
    assert_eq!(v.time_to_pixel(i64::MAX, i32::MAX), i64::MAX);
    assert_eq!(v.time_to_pixel(i64::MIN, i32::MAX), i64::MIN);
}

#[test]
fn pan_moves_time_against_the_drag_and_scrolls() {
    let mut v = view(1000, 3000);
    v.scroll = 40;
    // 100 of 500 units are a fifth of the span: 400 nanoseconds.
    v.pan(100, 15, 500);
    assert_eq!((v.start, v.end), (600, 2600));
    assert_eq!(v.scroll, 25);
    v.pan(-50, -5, 500);
    assert_eq!((v.start, v.end), (800, 2800));
    assert_eq!(v.scroll, 30);
}

#[test]
fn pan_that_would_leave_the_range_moves_the_rows_only() {
    let mut v = view(i64::MIN, i64::MIN + 1000);
    v.pan(10, 3, 100);
    assert_eq!((v.start, v.end), (i64::MIN, i64::MIN + 1000));
    assert_eq!(v.scroll, -3);
    let mut v = view(0, 1000);
    v.scroll = i64::MIN + 1;
    v.pan(0, 5, 100);
    assert_eq!(v.scroll, i64::MIN);
}

#[test]
fn zoom_track_height_scales_within_its_limits() {
    let mut v = view(0, SECOND);
    v.zoom_track_height(0, 3, 2);
    assert_eq!(v.track_height, 24_000);
    v.zoom_track_height(0, 100, 1);
    assert_eq!(v.track_height, TRACK_HEIGHT_MAX);
    v.zoom_track_height(0, 1, 1000);
    assert_eq!(v.track_height, TRACK_HEIGHT_MIN);
    assert!(v.is_valid());
}

#[test]
fn zoom_track_height_keeps_the_content_under_the_anchor() {
    let mut v = view(0, SECOND);
    v.scroll = 10_000;
    // The anchor 30 pixels down stands 40 pixels into the content; at twice the height
    // that content lies 80 pixels in, so the rows scroll to 50 pixels.
    v.zoom_track_height(30_000, 2, 1);
    assert_eq!(v.track_height, 32_000);
    assert_eq!(v.scroll, 50_000);
    assert_eq!((v.start, v.end), (0, SECOND));
}

#[test]
fn clamp_moves_a_view_that_left_the_data() {
    let mut v = view(100, 150);
    v.clamp_to_data(10, 60, 4, v.track_height, 400_000);
    assert_eq!((v.start, v.end), (60, 110));
    let mut v = view(-100, -50);
    v.clamp_to_data(10, 60, 4, v.track_height, 400_000);
    assert_eq!((v.start, v.end), (-40, 10));
    let mut v = view(20, 30);
    v.clamp_to_data(10, 60, 4, v.track_height, 400_000);
    assert_eq!((v.start, v.end), (20, 30));
    // A view that touches the data at one instant stays.
    let mut v = view(60, 90);
    v.clamp_to_data(10, 60, 4, v.track_height, 400_000);
    assert_eq!((v.start, v.end), (60, 90));
}

#[test]
fn clamp_stops_at_the_end_of_the_time_range() {
    let mut v = view(i64::MAX - 10, i64::MAX);
    v.clamp_to_data(0, i64::MAX - 20, 1, v.track_height, 100_000);
    assert_eq!((v.start, v.end), (i64::MAX - 20, i64::MAX - 10));
    let mut v = view(0, i64::MAX);
    v.clamp_to_data(-5, -1, 1, v.track_height, 100_000);
    assert_eq!((v.start, v.end), (-1, i64::MAX - 1));
    let mut v = view(i64::MIN, -100);
    v.clamp_to_data(-10, 50, 1, v.track_height, 100_000);
    assert_eq!((v.start, v.end), (i64::MIN + 90, -10));
}

#[test]
fn clamp_limits_the_scroll_to_the_rows() {
    // 10 rows of 16 pixels are 160 pixels; a region of 100 pixels leaves 84 below its
    // first row, so the rows scroll by 76 pixels at most.
    let mut v = view(0, SECOND);
    v.scroll = 500_000;
    v.clamp_to_data(0, SECOND, 10, v.track_height, 100_000);
    assert_eq!(v.scroll, 76_000);
    v.scroll = -3;
    v.clamp_to_data(0, SECOND, 10, v.track_height, 100_000);
    assert_eq!(v.scroll, 0);
    // Rows that fit in the region do not scroll.
    v.scroll = 9_000;
    v.clamp_to_data(0, SECOND, 2, v.track_height, 100_000);
    assert_eq!(v.scroll, 0);
}

#[test]
fn playback_advances_by_elapsed_time_times_speed() {
    let min_time = 4 * SECOND;
    let max_time = 10 * SECOND;
    let mut v = view(min_time, max_time);
    v.speed = 2 * SPEED_UNIT;
    v.toggle_play(min_time, max_time);
    assert!(v.playing);
    assert!(v.advance(100_000_000, max_time));
    assert_eq!(v.cursor_time, min_time + 200_000_000);
    assert!(v.playing);
}

#[test]
fn playback_stops_at_the_end_of_the_data() {
    let min_time = 4 * SECOND;
    let max_time = 4 * SECOND + 150_000_000;
    let mut v = view(min_time, max_time);
    v.speed = 2 * SPEED_UNIT;
    v.playing = true;
    assert!(v.advance(100_000_000, max_time));
    assert_eq!(v.cursor_time, max_time);
    assert!(!v.playing);
    assert!(!v.advance(100_000_000, max_time));
    assert_eq!(v.cursor_time, max_time);
}

#[test]
fn playback_that_reaches_the_end_exactly_goes_on() {
    let mut v = view(0, 200_000_000);
    v.speed = 2 * SPEED_UNIT;
    v.playing = true;
    v.advance(100_000_000, 200_000_000);
    assert_eq!(v.cursor_time, 200_000_000);
    assert!(v.playing);
}

#[test]
fn a_stopped_view_does_not_advance() {
    let mut v = view(0, SECOND);
    let before = v;
    assert!(!v.advance(SECOND as u64, SECOND));
    assert_eq!(v, before);
}

#[test]
fn playback_does_not_overflow() {
    let mut v = view(0, SECOND);
    v.cursor_time = i64::MAX - 1;
    v.speed = u32::MAX;
    v.playing = true;
    v.advance(u64::MAX, i64::MAX);
    assert_eq!(v.cursor_time, i64::MAX);
    assert!(!v.playing);
}

#[test]
fn play_at_the_end_starts_over() {
    let mut v = view(2 * SECOND, 8 * SECOND);
    v.cursor_time = 8 * SECOND - RESTART_MARGIN;
    v.toggle_play(2 * SECOND, 8 * SECOND);
    assert!(v.playing);
    assert_eq!(v.cursor_time, 2 * SECOND);
}

#[test]
fn play_before_the_end_goes_on_from_the_cursor() {
    let mut v = view(2 * SECOND, 8 * SECOND);
    v.cursor_time = 8 * SECOND - RESTART_MARGIN - 1;
    v.toggle_play(2 * SECOND, 8 * SECOND);
    assert!(v.playing);
    assert_eq!(v.cursor_time, 8 * SECOND - RESTART_MARGIN - 1);
    v.cursor_time = 8 * SECOND;
    v.toggle_play(2 * SECOND, 8 * SECOND);
    assert!(!v.playing);
    assert_eq!(v.cursor_time, 8 * SECOND);
}

#[test]
fn hover_follows_the_pointer_over_the_rows() {
    let mut v = view(1000, 3000);
    let over_rows = Pointer { x: 125, in_content: true, in_ruler: false, pressed: false, modifier: false };
    v.track_pointer(Some(over_rows), 500, 0, 10_000);
    assert_eq!(v.hover_time, Some(1500));
    assert_eq!(v.cursor_time, 1000);
    let beside = Pointer { x: -20, in_content: false, in_ruler: false, pressed: true, modifier: true };
    v.track_pointer(Some(beside), 500, 0, 10_000);
    assert_eq!(v.hover_time, None);
    assert_eq!(v.cursor_time, 1000);
    v.track_pointer(Some(over_rows), 500, 0, 10_000);
    v.track_pointer(None, 500, 0, 10_000);
    assert_eq!(v.hover_time, None);
}

#[test]
fn a_press_on_the_ruler_sets_the_cursor() {
    let mut v = view(1000, 3000);
    let on_ruler = Pointer { x: 250, in_content: false, in_ruler: true, pressed: true, modifier: false };
    v.track_pointer(Some(on_ruler), 500, 0, 10_000);
    assert_eq!(v.cursor_time, 2000);
    assert_eq!(v.hover_time, None);
    let not_pressed = Pointer { x: 0, in_content: false, in_ruler: true, pressed: false, modifier: false };
    v.track_pointer(Some(not_pressed), 500, 0, 10_000);
    assert_eq!(v.cursor_time, 2000);
}

#[test]
fn a_press_on_the_rows_needs_the_modifier() {
    let mut v = view(1000, 3000);
    let plain = Pointer { x: 250, in_content: true, in_ruler: false, pressed: true, modifier: false };
    v.track_pointer(Some(plain), 500, 0, 10_000);
    assert_eq!(v.cursor_time, 1000);
    let with_modifier = Pointer { x: 250, in_content: true, in_ruler: false, pressed: true, modifier: true };
    v.track_pointer(Some(with_modifier), 500, 0, 10_000);
    assert_eq!(v.cursor_time, 2000);
    assert_eq!(v.hover_time, Some(2000));
}

#[test]
fn the_cursor_stays_within_the_data() {
    let mut v = view(1000, 3000);
    let far_right = Pointer { x: 500, in_content: false, in_ruler: true, pressed: true, modifier: false };
    v.track_pointer(Some(far_right), 500, 1200, 2500);
    assert_eq!(v.cursor_time, 2500);
    let far_left = Pointer { x: 0, in_content: false, in_ruler: true, pressed: true, modifier: false };
    v.track_pointer(Some(far_left), 500, 1200, 2500);
    assert_eq!(v.cursor_time, 1200);
}

#[test]
fn speed_is_limited_by_the_length_of_the_data() {
    let mut v = view(0, SECOND);
    v.set_speed(50, 5 * SECOND);
    assert_eq!(v.speed, SPEED_MIN);
    v.set_speed(3_000, 5 * SECOND);
    assert_eq!(v.speed, 3_000);
    v.set_speed(9_000, 5 * SECOND);
    assert_eq!(v.speed, 5_000);
    // Data shorter than a second still plays at real time.
    v.set_speed(9_000, SECOND / 2);
    assert_eq!(v.speed, SPEED_UNIT);
    v.set_speed(9_000, -SECOND);
    assert_eq!(v.speed, SPEED_UNIT);
    v.set_speed(u32::MAX, i64::MAX);
    assert_eq!(v.speed, u32::MAX);
}

#[test]
fn window_is_limited_by_the_length_of_the_data() {
    let mut v = view(0, SECOND);
    v.set_window_size(5, 2 * SECOND, 5 * SECOND);
    assert_eq!(v.window_size, WINDOW_MIN);
    v.set_window_size(SECOND as u64, 2 * SECOND, 5 * SECOND);
    assert_eq!(v.window_size, SECOND as u64);
    v.set_window_size(u64::MAX, 2 * SECOND, 5 * SECOND);
    assert_eq!(v.window_size, 3 * SECOND as u64);
    v.set_window_size(7 * WINDOW_MIN, 5, 6);
    assert_eq!(v.window_size, WINDOW_MIN);
    v.set_window_size(u64::MAX, i64::MIN, i64::MAX);
    assert_eq!(v.window_size, u64::MAX);
}
