use pe_timeline::event::RawEvent;
use pe_timeline::tooltip::{bandwidth, byte_label, stack_frames, ByteLabel};

fn raw(received: u64, sent: u64, duration: i64) -> RawEvent {
    RawEvent {
        time: 0,
        function: String::from("f"),
        duration,
        target_pe: 1,
        bytes_rx: received,
        bytes_tx: sent,
        stacktrace: String::new(),
        extra: None,
        symboltrace: None,
    }
}

fn frames(trace: &str) -> Vec<&str> {
    stack_frames(trace.as_bytes()).iter().map(|(a, b)| &trace[*a..*b]).collect()
}

#[test]
fn the_label_names_the_directions_that_moved_bytes() {
    assert_eq!(byte_label(&raw(0, 0, 5)), ByteLabel::Silent);
    assert_eq!(byte_label(&raw(7, 0, 5)), ByteLabel::Received { bytes: 7 });
    assert_eq!(byte_label(&raw(0, 9, 5)), ByteLabel::Sent { bytes: 9 });
    assert_eq!(byte_label(&raw(7, 9, 5)), ByteLabel::Both { total: 16, received: 7, sent: 9 });
    assert_eq!(
        byte_label(&raw(u64::MAX, u64::MAX, 5)),
        ByteLabel::Both { total: 2 * (u64::MAX as u128), received: u64::MAX, sent: u64::MAX }
    );
}

#[test]
fn bandwidth_is_bytes_per_nanosecond_in_hundredths() {
    // 3000 bytes in 2000 nanoseconds are 1.5 gigabytes per second.
    assert_eq!(bandwidth(&raw(1000, 2000, 2000)), Some(150));
    // One byte in a second.
    assert_eq!(bandwidth(&raw(0, 1, 1_000_000_000)), Some(0));
    assert_eq!(bandwidth(&raw(1, 0, 3)), Some(33));
    assert_eq!(bandwidth(&raw(u64::MAX, u64::MAX, 1)), Some(200 * (u64::MAX as u128)));
}

#[test]
fn no_bandwidth_without_bytes_or_duration() {
    assert_eq!(bandwidth(&raw(0, 0, 2000)), None);
    assert_eq!(bandwidth(&raw(5, 5, 0)), None);
    assert_eq!(bandwidth(&raw(5, 5, -1)), None);
}

#[test]
fn frames_are_separated_by_bars() {
    assert_eq!(frames("main|work|shmem_put"), vec!["main", "work", "shmem_put"]);
    assert_eq!(frames("main"), vec!["main"]);
    assert_eq!(stack_frames(b"ab|c"), vec![(0, 2), (3, 4)]);
}

#[test]
fn blank_frames_are_left_out() {
    assert_eq!(frames(""), Vec::<&str>::new());
    assert_eq!(frames("|"), Vec::<&str>::new());
    assert_eq!(frames("||"), Vec::<&str>::new());
    assert_eq!(frames(" | \t|\r\n"), Vec::<&str>::new());
    assert_eq!(frames("a||b"), vec!["a", "b"]);
    assert_eq!(frames("|a|"), vec!["a"]);
    assert_eq!(frames("a|  |b| "), vec!["a", "b"]);
}

#[test]
fn frames_keep_their_white_space() {
    assert_eq!(frames(" a |b "), vec![" a ", "b "]);
    assert_eq!(frames("caf\u{e9}|na\u{ef}ve"), vec!["caf\u{e9}", "na\u{ef}ve"]);
}
