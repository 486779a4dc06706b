use pe_timeline::event::{Event, RawEvent};
use pe_timeline::timeline::{
    event_rect, hovered_event, row_top, visible_range, wide_time_to_pixel, EventRect, LOOK_BACK,
};
use pe_timeline::viewport::ViewportState;

fn event(source_pe: u32, time: i64, duration: i64) -> Event {
    Event {
        source_pe,
        raw: RawEvent {
            time,
            function: String::from("f"),
            duration,
            target_pe: -1,
            bytes_rx: 0,
            bytes_tx: 0,
            stacktrace: String::new(),
            extra: None,
            symboltrace: None,
        },
    }
}

// A view of 1000 nanoseconds on a region of 1000 pixels by 100 pixels.
const WIDTH: i32 = 1_000_000;
const HEIGHT: i32 = 100_000;

#[test]
fn an_event_is_drawn_in_the_row_of_its_process() {
    let v = ViewportState::new(0, 1000);
    let rect = event_rect(&v, &event(2, 100, 300), WIDTH, HEIGHT).unwrap();
    assert_eq!(rect, EventRect { left: 100_000, top: 33_000, right: 400_000, bottom: 47_000 });
    assert!(rect.has_outline());
}

#[test]
fn an_event_without_duration_is_drawn_one_nanosecond_long() {
    let v = ViewportState::new(0, 1000);
    let rect = event_rect(&v, &event(0, 100, 0), WIDTH, HEIGHT).unwrap();
    assert_eq!(rect, EventRect { left: 100_000, top: 1_000, right: 101_000, bottom: 15_000 });
    assert!(!rect.has_outline());
}

#[test]
fn a_box_is_cut_at_the_edges_of_the_region() {
    let v = ViewportState::new(1000, 2000);
    let rect = event_rect(&v, &event(0, 500, 2000), WIDTH, HEIGHT).unwrap();
    assert_eq!((rect.left, rect.right), (0, WIDTH as i64));
    let rect = event_rect(&v, &event(0, 1900, 2000), WIDTH, HEIGHT).unwrap();
    assert_eq!((rect.left, rect.right), (900_000, WIDTH as i64));
}

#[test]
fn an_event_outside_the_region_has_no_box() {
    let v = ViewportState::new(1000, 2000);
    assert_eq!(event_rect(&v, &event(0, 100, 200), WIDTH, HEIGHT), None);
    assert_eq!(event_rect(&v, &event(0, 2001, 200), WIDTH, HEIGHT), None);
    // Row 7 begins 112 pixels down: below a region of 100 pixels.
    assert_eq!(event_rect(&v, &event(7, 1500, 10), WIDTH, HEIGHT), None);
    let mut v = v;
    v.scroll = 16_001;
    assert_eq!(event_rect(&v, &event(0, 1500, 10), WIDTH, HEIGHT), None);
    assert!(event_rect(&v, &event(7, 1500, 10), WIDTH, HEIGHT).is_some());
}

#[test]
fn an_event_that_touches_an_edge_has_a_box() {
    let v = ViewportState::new(1000, 2000);
    assert!(event_rect(&v, &event(0, 900, 100), WIDTH, HEIGHT).is_some());
    assert!(event_rect(&v, &event(0, 2000, 5), WIDTH, HEIGHT).is_some());
}

#[test]
fn rows_follow_the_scroll() {
    let mut v = ViewportState::new(0, 1000);
    assert_eq!(row_top(&v, 0), 0);
    assert_eq!(row_top(&v, 3), 48_000);
    v.scroll = 20_000;
    assert_eq!(row_top(&v, 3), 28_000);
    assert_eq!(row_top(&v, 0), -20_000);
    v.scroll = i64::MIN;
    assert_eq!(row_top(&v, u32::MAX), u32::MAX as i128 * 16_000 + (1i128 << 63));
}

#[test]
fn instants_beyond_the_range_have_a_place_on_screen() {
    let v = ViewportState::new(i64::MAX - 1000, i64::MAX);
    assert_eq!(wide_time_to_pixel(&v, i64::MAX as i128 + 500, 1000), 1500);
    assert_eq!(wide_time_to_pixel(&v, i64::MAX as i128 - 1000, 1000), 0);
}

#[test]
fn the_visible_range_looks_back_half_a_second() {
    let events: Vec<Event> =
        [0, 499_999_999, 500_000_000, 1_000_000_000, 1_500_000_000, 2_000_000_000, 2_000_000_001]
            .iter()
            .map(|t| event(0, *t, 0))
            .collect();
    let v = ViewportState::new(1_000_000_000, 2_000_000_000);
    assert_eq!(LOOK_BACK, 500_000_000);
    assert_eq!(visible_range(&events, &v), (2, 6));
}

#[test]
fn the_event_under_the_pointer_is_the_last_that_holds_it() {
    let v = ViewportState::new(0, 1000);
    let events = vec![event(0, 100, 300), event(0, 200, 300), event(1, 200, 300), event(0, 600, 100)];
    assert_eq!(hovered_event(&events, 0, 4, &v, WIDTH, HEIGHT, 250_000, 8_000), Some(1));
    assert_eq!(hovered_event(&events, 0, 4, &v, WIDTH, HEIGHT, 150_000, 8_000), Some(0));
    assert_eq!(hovered_event(&events, 0, 4, &v, WIDTH, HEIGHT, 250_000, 24_000), Some(2));
    assert_eq!(hovered_event(&events, 0, 4, &v, WIDTH, HEIGHT, 550_000, 8_000), None);
    assert_eq!(hovered_event(&events, 0, 1, &v, WIDTH, HEIGHT, 250_000, 8_000), Some(0));
    assert_eq!(hovered_event(&events, 2, 2, &v, WIDTH, HEIGHT, 250_000, 8_000), None);
    // The pixel between two rows belongs to neither box.
    assert_eq!(hovered_event(&events, 0, 4, &v, WIDTH, HEIGHT, 250_000, 16_000), None);
}

#[test]
fn a_box_holds_its_edges() {
    let rect = EventRect { left: 10, top: 20, right: 30, bottom: 40 };
    assert!(rect.contains(10, 20));
    assert!(rect.contains(30, 40));
    assert!(rect.contains(20, 30));
    assert!(!rect.contains(9, 30));
    assert!(!rect.contains(31, 30));
    assert!(!rect.contains(20, 19));
    assert!(!rect.contains(20, 41));
    assert!(!EventRect { left: 0, top: 0, right: 2_000, bottom: 1 }.has_outline());
    assert!(EventRect { left: 0, top: 0, right: 2_001, bottom: 1 }.has_outline());
    assert!(EventRect { left: i64::MIN, top: 0, right: i64::MAX, bottom: 1 }.has_outline());
}
