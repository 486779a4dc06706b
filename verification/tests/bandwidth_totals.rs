use pe_timeline::bandwidth::{
    aggregate, apply_transfer, key_of, node_totals, position_of, record_transfer, PairLedger,
    PairTotals,
};
use pe_timeline::event::{Event, RawEvent};
use pe_timeline::window::window_slice;

fn transfer(source_pe: u32, target_pe: i32, time: i64, sent: u64, received: u64) -> Event {
    Event {
        source_pe,
        raw: RawEvent {
            time,
            function: String::from("put"),
            duration: 0,
            target_pe,
            bytes_rx: received,
            bytes_tx: sent,
            stacktrace: String::new(),
            extra: None,
            symboltrace: None,
        },
    }
}

fn pair(out: &Vec<PairTotals>, source: u32, target: u32) -> (u128, u128) {
    match position_of(out, source, target) {
        Some(k) => (out[k].sent, out[k].received),
        None => (0, 0),
    }
}

fn sample() -> Vec<Event> {
    vec![
        transfer(0, 1, 10, 500, 0),
        transfer(1, 0, 20, 30, 7),
        transfer(2, -1, 30, 999, 999),
        transfer(2, 2, 40, 111, 222),
        transfer(0, 1, 50, 5, 60),
        transfer(2, 0, 60, 0, 0),
        transfer(1, 2, 70, 0, 9),
    ]
}

#[test]
fn one_send_between_three_processes() {
    // Process 0 sends 500 bytes to process 1 at one second; processes 1 and 2 log
    // calls that move nothing, well away from it.
    let second: i64 = 1_000_000_000;
    let events = vec![
        transfer(1, -1, 0, 0, 0),
        transfer(0, 1, second, 500, 0),
        transfer(2, -1, 3 * second, 0, 0),
    ];
    let (lo, hi) = window_slice(&events, second, second as u64);
    assert_eq!((lo, hi), (1, 2));
    let pairs = aggregate(&events, lo, hi, true, true);
    assert_eq!(pairs.len(), 1);
    assert_eq!(pair(&pairs, 0, 1), (500, 0));
    let around = node_totals(&pairs, 0);
    assert_eq!(around.nodes.len(), 1);
    assert_eq!(around.nodes[0].node, 1);
    assert_eq!(around.nodes[0].total(), 500);
    assert_eq!(around.max_total, 500);
}

#[test]
fn sent_goes_to_the_pair_and_received_to_the_mirrored_pair() {
    let events = sample();
    let pairs = aggregate(&events, 0, events.len(), true, true);
    // (0,1): sent 500 + 5 by process 0; received 7 by process 1 from process 0.
    assert_eq!(pair(&pairs, 0, 1), (505, 7));
    // (1,0): sent 30 by process 1; received 60 by process 0 from process 1.
    assert_eq!(pair(&pairs, 1, 0), (30, 60));
    // (2,1): nothing sent; process 1 received 9 from process 2.
    assert_eq!(pair(&pairs, 2, 1), (0, 9));
    assert_eq!(pairs.len(), 3);
}

#[test]
fn events_without_a_peer_or_with_themselves_as_peer_do_not_count() {
    let events = vec![transfer(2, -1, 0, 999, 999), transfer(2, 2, 1, 111, 222), transfer(3, -7, 2, 1, 1)];
    assert!(aggregate(&events, 0, events.len(), true, true).is_empty());
}

#[test]
fn sum_over_pairs_equals_sum_over_counting_events() {
    let events = sample();
    let pairs = aggregate(&events, 0, events.len(), true, true);
    let sent: u128 = pairs.iter().map(|p| p.sent).sum();
    let received: u128 = pairs.iter().map(|p| p.received).sum();
    assert_eq!(sent, 500 + 30 + 5);
    assert_eq!(received, 7 + 60 + 9);
}

#[test]
fn each_filter_selects_its_direction() {
    let events = sample();
    let both = aggregate(&events, 0, events.len(), true, true);
    let only_tx = aggregate(&events, 0, events.len(), true, false);
    let only_rx = aggregate(&events, 0, events.len(), false, true);
    let neither = aggregate(&events, 0, events.len(), false, false);
    assert!(neither.is_empty());
    for a in 0..3 {
        for b in 0..3 {
            assert_eq!(pair(&only_tx, a, b), (pair(&both, a, b).0, 0));
            assert_eq!(pair(&only_rx, a, b), (0, pair(&both, a, b).1));
        }
    }
    // (2,1) holds received bytes only: transmit alone has no entry for it.
    assert_eq!(position_of(&only_tx, 2, 1), None);
    assert!(position_of(&only_rx, 2, 1).is_some());
}

#[test]
fn one_count_per_call_is_transmit_plus_mirrored_receive() {
    let events = sample();
    let only_tx = aggregate(&events, 0, events.len(), true, false);
    let only_rx = aggregate(&events, 0, events.len(), false, true);
    for s in 0..3u32 {
        for t in 0..3u32 {
            let undirected: u128 = events
                .iter()
                .filter(|e| e.raw.target_pe >= 0 && e.source_pe != e.raw.target_pe as u32)
                .filter(|e| e.source_pe == s && e.raw.target_pe as u32 == t)
                .map(|e| e.raw.bytes_tx as u128 + e.raw.bytes_rx as u128)
                .sum();
            assert_eq!(undirected, pair(&only_tx, s, t).0 + pair(&only_rx, t, s).1);
        }
    }
}

#[test]
fn aggregate_looks_at_its_slice_only() {
    let events = sample();
    let pairs = aggregate(&events, 1, 2, true, true);
    assert_eq!(pairs.len(), 2);
    assert_eq!(pair(&pairs, 1, 0), (30, 0));
    assert_eq!(pair(&pairs, 0, 1), (0, 7));
    assert!(aggregate(&events, 3, 3, true, true).is_empty());
}

#[test]
fn totals_beyond_64_bits_do_not_wrap() {
    let events = vec![transfer(0, 1, 0, u64::MAX, 0), transfer(0, 1, 1, u64::MAX, 0), transfer(0, 1, 2, 2, 0)];
    let pairs = aggregate(&events, 0, 3, true, true);
    assert_eq!(pair(&pairs, 0, 1), (2 * (u64::MAX as u128) + 2, 0));
}

#[test]
fn record_transfer_adds_to_an_entry_or_makes_one() {
    let mut out: Vec<PairTotals> = Vec::new();
    record_transfer(&mut out, 4, 2, 10, 0);
    record_transfer(&mut out, 2, 4, 0, 3);
    record_transfer(&mut out, 4, 2, 5, 1);
    assert_eq!(out.len(), 2);
    assert_eq!(pair(&out, 4, 2), (15, 1));
    assert_eq!(pair(&out, 2, 4), (0, 3));
}

#[test]
fn node_totals_join_both_directions_around_the_focus() {
    let events = sample();
    let pairs = aggregate(&events, 0, events.len(), true, true);
    let around = node_totals(&pairs, 0);
    // Process 1 shares (0,1) and (1,0) with process 0.
    assert_eq!(around.nodes.len(), 1);
    assert_eq!(around.nodes[0].node, 1);
    assert_eq!(around.nodes[0].sent, 505 + 30);
    assert_eq!(around.nodes[0].received, 7 + 60);
    assert_eq!(around.max_total, 602);

    let around = node_totals(&pairs, 1);
    let mut nodes: Vec<(u32, u128, u128)> =
        around.nodes.iter().map(|n| (n.node, n.sent, n.received)).collect();
    nodes.sort();
    assert_eq!(nodes, vec![(0, 535, 67), (2, 0, 9)]);
    assert_eq!(around.max_total, 602);
}

#[test]
fn node_totals_without_a_touching_pair_are_empty() {
    let events = sample();
    let pairs = aggregate(&events, 0, events.len(), true, true);
    let around = node_totals(&pairs, 7);
    assert!(around.nodes.is_empty());
    assert_eq!(around.max_total, 0);
}

#[test]
fn node_totals_cap_at_the_largest_value() {
    let pairs = vec![
        PairTotals { source: 0, target: 1, sent: u128::MAX, received: 1 },
        PairTotals { source: 1, target: 0, sent: 5, received: 2 },
    ];
    let around = node_totals(&pairs, 0);
    assert_eq!(around.nodes.len(), 1);
    assert_eq!(around.nodes[0].sent, u128::MAX);
    assert_eq!(around.nodes[0].received, 3);
    assert_eq!(around.nodes[0].total(), u128::MAX);
    assert_eq!(around.max_total, u128::MAX);
}

#[test]
fn a_pair_is_filed_under_its_own_key() {
    assert_eq!(key_of(0, 0), 0);
    assert_eq!(key_of(0, 1), 1);
    assert_eq!(key_of(1, 0), 1 << 32);
    assert_eq!(key_of(u32::MAX, u32::MAX), u64::MAX);
    assert_ne!(key_of(1, 2), key_of(2, 1));
}

#[test]
fn a_ledger_finds_its_entries() {
    let mut ledger = PairLedger::new();
    assert_eq!(ledger.position(0, 1), None);
    ledger.record(4, 2, 10, 0);
    ledger.record(2, 4, 0, 3);
    ledger.record(4, 2, 5, 1);
    assert_eq!(ledger.entries.len(), 2);
    let at = ledger.position(4, 2).unwrap();
    assert_eq!(ledger.entries[at], PairTotals { source: 4, target: 2, sent: 15, received: 1 });
    let at = ledger.position(2, 4).unwrap();
    assert_eq!(ledger.entries[at], PairTotals { source: 2, target: 4, sent: 0, received: 3 });
    assert_eq!(ledger.position(4, 4), None);
    assert_eq!(ledger.position(2, 2), None);
}

#[test]
fn a_ledger_of_given_entries_knows_where_they_stand() {
    let pairs = vec![
        PairTotals { source: 7, target: 1, sent: 1, received: 2 },
        PairTotals { source: 1, target: 7, sent: 3, received: 4 },
        PairTotals { source: 0, target: 7, sent: 5, received: 6 },
    ];
    let ledger = PairLedger::from_entries(&pairs);
    assert_eq!(ledger.entries, pairs);
    for (k, p) in pairs.iter().enumerate() {
        assert_eq!(ledger.position(p.source, p.target), Some(k));
        assert_eq!(position_of(&pairs, p.source, p.target), Some(k));
    }
    assert_eq!(ledger.position(7, 0), None);
    assert_eq!(position_of(&pairs, 7, 0), None);
}

#[test]
fn a_transfer_is_applied_where_the_entry_was_found() {
    let mut out = vec![PairTotals { source: 1, target: 2, sent: 1, received: 1 }];
    apply_transfer(&mut out, Some(0), 1, 2, 4, 5);
    apply_transfer(&mut out, None, 2, 1, 6, 7);
    assert_eq!(
        out,
        vec![
            PairTotals { source: 1, target: 2, sent: 5, received: 6 },
            PairTotals { source: 2, target: 1, sent: 6, received: 7 }
        ]
    );
}
