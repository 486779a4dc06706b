//! Directed byte totals between processes over a slice of the timeline.
//!
//! An event counts when it names a peer (its target is not negative) other
//! than its own process. Its sent bytes go to the pair (source, target); its
//! received bytes go to the reversed pair (target, source), so that every
//! pair reads "from the first process to the second".
//!
//! The totals are kept in a list with one entry for each pair; while they are
//! added up, a hash map from the key of a pair to the place of its entry finds
//! the entry at once.

use crate::event::Event;
use std::collections::HashMap;
use vstd::prelude::*;

verus! {

/// The bytes that moved from `source` to `target`.
#[derive(Clone, Copy, Debug, PartialEq, Eq, Structural)]
pub struct PairTotals {
    pub source: u32,
    pub target: u32,
    pub sent: u128,
    pub received: u128,
}

/// Whether an entry belongs to the pair (`s`, `t`).
pub open spec fn is_pair(p: PairTotals, s: u32, t: u32) -> bool {
    p.source == s && p.target == t
}

/// Whether some entry belongs to the pair (`s`, `t`).
pub open spec fn has_pair(out: Seq<PairTotals>, s: u32, t: u32) -> bool {
    exists|k: int| 0 <= k < out.len() && is_pair(#[trigger] out[k], s, t)
}

/// The index of an entry for the pair (`s`, `t`), if there is one.
pub open spec fn pair_index(out: Seq<PairTotals>, s: u32, t: u32) -> int {
    choose|k: int| 0 <= k < out.len() && is_pair(#[trigger] out[k], s, t)
}

/// No pair has two entries.
pub open spec fn pairs_distinct(out: Seq<PairTotals>) -> bool {
    forall|i: int, j: int|
        0 <= i < out.len() && 0 <= j < out.len() && i != j ==> !is_pair(
            #[trigger] out[i],
            (#[trigger] out[j]).source,
            out[j].target,
        )
}

/// The sent total that the entries hold for a pair; zero without an entry.
pub open spec fn sent_in(out: Seq<PairTotals>, s: u32, t: u32) -> nat {
    if has_pair(out, s, t) {
        out[pair_index(out, s, t)].sent as nat
    } else {
        0
    }
}

/// The received total that the entries hold for a pair; zero without an entry.
pub open spec fn received_in(out: Seq<PairTotals>, s: u32, t: u32) -> nat {
    if has_pair(out, s, t) {
        out[pair_index(out, s, t)].received as nat
    } else {
        0
    }
}

/// What one event adds to the sent total of the pair (`s`, `t`).
pub open spec fn sent_by(e: Event, s: u32, t: u32) -> nat {
    if e.is_transfer() && e.source_pe == s && e.raw.target_pe == t {
        e.raw.bytes_tx as nat
    } else {
        0
    }
}

/// What one event adds to the received total of the pair (`s`, `t`): the
/// bytes that `t` received from `s`.
pub open spec fn received_by(e: Event, s: u32, t: u32) -> nat {
    if e.is_transfer() && e.raw.target_pe == s && e.source_pe == t {
        e.raw.bytes_rx as nat
    } else {
        0
    }
}

/// The sent bytes of all events for the pair (`s`, `t`).
pub open spec fn sent_total(events: Seq<Event>, s: u32, t: u32) -> nat
    decreases events.len(),
{
    if events.len() == 0 {
        0
    } else {
        sent_total(events.drop_last(), s, t) + sent_by(events.last(), s, t)
    }
}

/// The received bytes of all events for the pair (`s`, `t`).
pub open spec fn received_total(events: Seq<Event>, s: u32, t: u32) -> nat
    decreases events.len(),
{
    if events.len() == 0 {
        0
    } else {
        received_total(events.drop_last(), s, t) + received_by(events.last(), s, t)
    }
}

/// The sent total of a pair under the transmit filter.
pub open spec fn pair_sent(events: Seq<Event>, show_tx: bool, s: u32, t: u32) -> nat {
    if show_tx {
        sent_total(events, s, t)
    } else {
        0
    }
}

/// The received total of a pair under the receive filter.
pub open spec fn pair_received(events: Seq<Event>, show_rx: bool, s: u32, t: u32) -> nat {
    if show_rx {
        received_total(events, s, t)
    } else {
        0
    }
}

/// The sent bytes of one event, if it counts at all.
pub open spec fn event_sent(e: Event) -> nat {
    if e.is_transfer() {
        e.raw.bytes_tx as nat
    } else {
        0
    }
}

/// The received bytes of one event, if it counts at all.
pub open spec fn event_received(e: Event) -> nat {
    if e.is_transfer() {
        e.raw.bytes_rx as nat
    } else {
        0
    }
}

/// The sent bytes of all events that count.
pub open spec fn all_sent(events: Seq<Event>) -> nat
    decreases events.len(),
{
    if events.len() == 0 {
        0
    } else {
        all_sent(events.drop_last()) + event_sent(events.last())
    }
}

/// The received bytes of all events that count.
pub open spec fn all_received(events: Seq<Event>) -> nat
    decreases events.len(),
{
    if events.len() == 0 {
        0
    } else {
        all_received(events.drop_last()) + event_received(events.last())
    }
}

/// The sum of the sent totals of all entries.
pub open spec fn sum_sent(out: Seq<PairTotals>) -> nat
    decreases out.len(),
{
    if out.len() == 0 {
        0
    } else {
        sum_sent(out.drop_last()) + out.last().sent as nat
    }
}

/// The sum of the received totals of all entries.
pub open spec fn sum_received(out: Seq<PairTotals>) -> nat
    decreases out.len(),
{
    if out.len() == 0 {
        0
    } else {
        sum_received(out.drop_last()) + out.last().received as nat
    }
}

/// With distinct pairs, the entry at `k` is the one that `sent_in` and
/// `received_in` read for its pair.
pub proof fn lemma_entry_is_looked_up(out: Seq<PairTotals>, k: int)
    requires
        pairs_distinct(out),
        0 <= k < out.len(),
    ensures
        has_pair(out, out[k].source, out[k].target),
        pair_index(out, out[k].source, out[k].target) == k,
        sent_in(out, out[k].source, out[k].target) == out[k].sent,
        received_in(out, out[k].source, out[k].target) == out[k].received,
{
    let s = out[k].source;
    let t = out[k].target;
    assert(is_pair(out[k], s, t));
    let c = pair_index(out, s, t);
    assert(0 <= c < out.len() && is_pair(out[c], s, t));
    if c != k {
        assert(!is_pair(out[c], out[k].source, out[k].target));
    }
}

/// Changing the totals of one entry changes the sums by the same amounts.
pub proof fn lemma_sum_update(out: Seq<PairTotals>, k: int, p: PairTotals)
    requires
        0 <= k < out.len(),
    ensures
        sum_sent(out.update(k, p)) == sum_sent(out) - out[k].sent + p.sent,
        sum_received(out.update(k, p)) == sum_received(out) - out[k].received + p.received,
    decreases out.len(),
{
    let upd = out.update(k, p);
    if k == out.len() - 1 {
        assert(upd.drop_last() =~= out.drop_last());
    } else {
        lemma_sum_update(out.drop_last(), k, p);
        assert(upd.drop_last() =~= out.drop_last().update(k, p));
    }
}

/// What stands at index `k` once `sent` and `received` bytes were added to
/// the pair (`s`, `t`): the old entry, the old entry with the bytes added if it
/// is that pair's, or a new entry behind all the old ones.
pub open spec fn entry_after(
    before: Seq<PairTotals>,
    e: PairTotals,
    k: int,
    s: u32,
    t: u32,
    sent: u64,
    received: u64,
) -> bool {
    if k < before.len() {
        if is_pair(before[k], s, t) {
            e.source == s && e.target == t && e.sent == before[k].sent + sent && e.received
                == before[k].received + received
        } else {
            e == before[k]
        }
    } else {
        e.source == s && e.target == t && e.sent == sent && e.received == received
    }
}

/// Finds the entry of the pair (`s`, `t`).
pub fn position_of(out: &Vec<PairTotals>, s: u32, t: u32) -> (found: Option<usize>)
    ensures
        match found {
            Some(k) => k < out.len() && is_pair(out[k as int], s, t),
            None => !has_pair(out@, s, t),
        },
{
    let mut k: usize = 0;
    while k < out.len()
        invariant
            k <= out.len(),
            forall|j: int| 0 <= j < k ==> !is_pair(#[trigger] out[j], s, t),
        decreases out.len() - k,
    {
        if out[k].source == s && out[k].target == t {
            return Some(k);
        }
        k = k + 1;
    }
    None
}

/// Whether `after` is `before` with `sent` and `received` bytes added to the
/// pair (`s`, `t`): the pair has an entry, no other pair has won or lost one,
/// the totals of the pair have grown by the bytes and no others have changed,
/// and every entry stands where it stood.
pub open spec fn is_recorded(
    before: Seq<PairTotals>,
    after: Seq<PairTotals>,
    s: u32,
    t: u32,
    sent: u64,
    received: u64,
) -> bool {
    &&& pairs_distinct(after)
    &&& has_pair(after, s, t)
    &&& forall|a: u32, b: u32| has_pair(after, a, b) <==> has_pair(before, a, b) || (a == s && b == t)
    &&& forall|a: u32, b: u32|
        #![trigger sent_in(after, a, b)]
        sent_in(after, a, b) == sent_in(before, a, b) + (if a == s && b == t {
            sent as nat
        } else {
            0
        })
    &&& forall|a: u32, b: u32|
        #![trigger received_in(after, a, b)]
        received_in(after, a, b) == received_in(before, a, b) + (if a == s && b == t {
            received as nat
        } else {
            0
        })
    &&& sum_sent(after) == sum_sent(before) + sent
    &&& sum_received(after) == sum_received(before) + received
    &&& forall|k: int|
        0 <= k < after.len() ==> entry_after(before, #[trigger] after[k], k, s, t, sent, received)
}

/// Adds `sent` and `received` bytes to the pair (`s`, `t`), whose entry
/// stands at `found`, or makes its entry if there is none yet.
#[verifier::rlimit(40)]
pub fn apply_transfer(
    out: &mut Vec<PairTotals>,
    found: Option<usize>,
    s: u32,
    t: u32,
    sent: u64,
    received: u64,
)
    requires
        pairs_distinct(old(out)@),
        match found {
            Some(k) => k < old(out).len() && is_pair(old(out)[k as int], s, t),
            None => !has_pair(old(out)@, s, t),
        },
        forall|k: int|
            0 <= k < old(out).len() ==> (#[trigger] old(out)[k]).sent + sent <= u128::MAX
                && old(out)[k].received + received <= u128::MAX,
    ensures
        is_recorded(old(out)@, final(out)@, s, t, sent, received),
        found.is_some() ==> final(out).len() == old(out).len(),
        found.is_none() ==> final(out).len() == old(out).len() + 1,
{
    let ghost before = out@;
    match found {
        Some(k) => {
            let e = out[k];
            let p = PairTotals {
                source: s,
                target: t,
                sent: e.sent + sent as u128,
                received: e.received + received as u128,
            };
            out.set(k, p);
            proof {
                let after = out@;
                assert(after == before.update(k as int, p));
                lemma_sum_update(before, k as int, p);
                lemma_entry_is_looked_up(before, k as int);
                assert(pairs_distinct(after)) by {
                    assert forall|i: int, j: int|
                        0 <= i < after.len() && 0 <= j < after.len() && i != j implies !is_pair(
                        #[trigger] after[i],
                        (#[trigger] after[j]).source,
                        after[j].target,
                    ) by {
                        assert(!is_pair(before[i], before[j].source, before[j].target));
                    }
                }
                assert forall|a: u32, b: u32| has_pair(after, a, b) == has_pair(before, a, b) by {
                    if has_pair(before, a, b) {
                        let c = pair_index(before, a, b);
                        assert(is_pair(after[c], a, b));
                    }
                    if has_pair(after, a, b) {
                        let c = pair_index(after, a, b);
                        assert(is_pair(before[c], a, b));
                    }
                }
                assert forall|a: u32, b: u32|
                    sent_in(after, a, b) == sent_in(before, a, b) + (if a == s && b == t {
                        sent as nat
                    } else {
                        0
                    }) && received_in(after, a, b) == received_in(before, a, b) + (if a == s && b
                        == t {
                        received as nat
                    } else {
                        0
                    }) by {
                    if has_pair(before, a, b) {
                        let c = pair_index(before, a, b);
                        assert(is_pair(after[c], a, b));
                        lemma_entry_is_looked_up(after, c);
                        lemma_entry_is_looked_up(before, c);
                    }
                }
            }
        },
        None => {
            let p = PairTotals { source: s, target: t, sent: sent as u128, received: received as u128 };
            out.push(p);
            proof {
                let after = out@;
                let n = before.len() as int;
                assert(after == before.push(p));
                assert(after.drop_last() =~= before);
                assert(is_pair(after[n], s, t));
                assert(pairs_distinct(after)) by {
                    assert forall|i: int, j: int|
                        0 <= i < after.len() && 0 <= j < after.len() && i != j implies !is_pair(
                        #[trigger] after[i],
                        (#[trigger] after[j]).source,
                        after[j].target,
                    ) by {
                        if i < n && j < n {
                            assert(!is_pair(before[i], before[j].source, before[j].target));
                        } else if i < n {
                            assert(!is_pair(before[i], s, t));
                        } else {
                            assert(!is_pair(before[j], s, t));
                        }
                    }
                }
                assert forall|a: u32, b: u32|
                    has_pair(after, a, b) <==> has_pair(before, a, b) || (a == s && b == t) by {
                    if has_pair(before, a, b) {
                        let c = pair_index(before, a, b);
                        assert(is_pair(after[c], a, b));
                    }
                    if has_pair(after, a, b) {
                        let c = pair_index(after, a, b);
                        if c < n {
                            assert(is_pair(before[c], a, b));
                        }
                    }
                }
                assert forall|a: u32, b: u32|
                    sent_in(after, a, b) == sent_in(before, a, b) + (if a == s && b == t {
                        sent as nat
                    } else {
                        0
                    }) && received_in(after, a, b) == received_in(before, a, b) + (if a == s && b
                        == t {
                        received as nat
                    } else {
                        0
                    }) by {
                    if a == s && b == t {
                        lemma_entry_is_looked_up(after, n);
                    } else if has_pair(before, a, b) {
                        let c = pair_index(before, a, b);
                        assert(is_pair(after[c], a, b));
                        lemma_entry_is_looked_up(after, c);
                        lemma_entry_is_looked_up(before, c);
                    }
                }
            }
        },
    }
}

/// Adds `sent` and `received` bytes to the pair (`s`, `t`), making its entry
/// if there is none yet.
pub fn record_transfer(out: &mut Vec<PairTotals>, s: u32, t: u32, sent: u64, received: u64)
    requires
        pairs_distinct(old(out)@),
        forall|k: int|
            0 <= k < old(out).len() ==> (#[trigger] old(out)[k]).sent + sent <= u128::MAX
                && old(out)[k].received + received <= u128::MAX,
    ensures
        is_recorded(old(out)@, final(out)@, s, t, sent, received),
{
    let found = position_of(out, s, t);
    apply_transfer(out, found, s, t, sent, received);
}

/// The number under which a pair is filed: the source in the upper half,
/// the target in the lower.
pub open spec fn pair_key(s: u32, t: u32) -> u64 {
    (s as u64 * 0x1_0000_0000 + t as u64) as u64
}

/// Computes [`pair_key`].
pub fn key_of(s: u32, t: u32) -> (key: u64)
    ensures
        key == pair_key(s, t),
{
    s as u64 * 0x1_0000_0000 + t as u64
}

/// Whether the index files every entry under the key of its pair, and
/// nothing else.
pub open spec fn index_matches(index: Map<u64, usize>, entries: Seq<PairTotals>) -> bool {
    &&& forall|k: int|
        0 <= k < entries.len() ==> index.contains_key(
            pair_key((#[trigger] entries[k]).source, entries[k].target),
        ) && index[pair_key(entries[k].source, entries[k].target)] == k
    &&& forall|key: u64| #[trigger]
        index.contains_key(key) ==> index[key] < entries.len() && pair_key(
            entries[index[key] as int].source,
            entries[index[key] as int].target,
        ) == key
}

/// Pair totals with an index that finds the entry of a pair at once.
#[derive(Debug)]
pub struct PairLedger {
    /// The totals, one entry for each pair.
    pub entries: Vec<PairTotals>,
    /// Where the entry of each pair stands.
    pub index: HashMap<u64, usize>,
}

impl PairLedger {
    /// No pair has two entries, and the index knows where each entry
    /// stands.
    pub open spec fn wf(&self) -> bool {
        pairs_distinct(self.entries@) && index_matches(self.index@, self.entries@)
    }

    /// A ledger without entries.
    pub fn new() -> (ledger: PairLedger)
        ensures
            ledger.wf(),
            ledger.entries@ == Seq::<PairTotals>::empty(),
    {
        PairLedger { entries: Vec::new(), index: HashMap::new() }
    }

    /// Finds the entry of the pair (`s`, `t`).
    pub fn position(&self, s: u32, t: u32) -> (found: Option<usize>)
        requires
            self.wf(),
        ensures
            match found {
                Some(k) => k < self.entries.len() && is_pair(self.entries[k as int], s, t),
                None => !has_pair(self.entries@, s, t),
            },
    {
        broadcast use vstd::std_specs::hash::group_hash_axioms;

        let key = key_of(s, t);
        match self.index.get(&key) {
            Some(place) => {
                let k: usize = *place;
                assert(pair_key(self.entries[k as int].source, self.entries[k as int].target) == key);
                Some(k)
            },
            None => {
                proof {
                    if has_pair(self.entries@, s, t) {
                        let k = pair_index(self.entries@, s, t);
                        assert(is_pair(self.entries[k], s, t));
                        assert(self.index@.contains_key(
                            pair_key(self.entries[k].source, self.entries[k].target),
                        ));
                    }
                }
                None
            },
        }
    }

    /// Adds `sent` and `received` bytes to the pair (`s`, `t`), making its
    /// entry if there is none yet.
    #[verifier::rlimit(40)]
    pub fn record(&mut self, s: u32, t: u32, sent: u64, received: u64)
        requires
            old(self).wf(),
            forall|k: int|
                0 <= k < old(self).entries.len() ==> (#[trigger] old(self).entries[k]).sent + sent
                    <= u128::MAX && old(self).entries[k].received + received <= u128::MAX,
        ensures
            final(self).wf(),
            is_recorded(old(self).entries@, final(self).entries@, s, t, sent, received),
    {
        broadcast use vstd::std_specs::hash::group_hash_axioms;

        let ghost before = self.entries@;
        let ghost index_before = self.index@;
        let found = self.position(s, t);
        let n: usize = self.entries.len();
        apply_transfer(&mut self.entries, found, s, t, sent, received);
        let ghost after = self.entries@;
        match found {
            Some(k) => {
                proof {
                    assert forall|j: int| 0 <= j < after.len() implies (#[trigger] after[j]).source
                        == before[j].source && after[j].target == before[j].target by {
                        assert(entry_after(before, after[j], j, s, t, sent, received));
                    }
                    assert(index_matches(index_before, after)) by {
                        assert forall|j: int| 0 <= j < after.len() implies index_before.contains_key(
                            pair_key((#[trigger] after[j]).source, after[j].target),
                        ) && index_before[pair_key(after[j].source, after[j].target)] == j by {
                            assert(index_before.contains_key(
                                pair_key(before[j].source, before[j].target),
                            ));
                        }
                    }
                }
            },
            None => {
                let key = key_of(s, t);
                self.index.insert(key, n);
                proof {
                    let index_after = self.index@;
                    assert(entry_after(before, after[n as int], n as int, s, t, sent, received));
                    assert(!index_before.contains_key(key)) by {
                        if index_before.contains_key(key) {
                            let k = index_before[key] as int;
                            assert(is_pair(before[k], s, t));
                        }
                    }
                    assert forall|j: int| 0 <= j < after.len() implies index_after.contains_key(
                        pair_key((#[trigger] after[j]).source, after[j].target),
                    ) && index_after[pair_key(after[j].source, after[j].target)] == j by {
                        assert(entry_after(before, after[j], j, s, t, sent, received));
                        if j < n {
                            assert(after[j] == before[j]);
                            assert(index_before.contains_key(
                                pair_key(before[j].source, before[j].target),
                            ));
                            assert(!is_pair(before[j], s, t));
                        }
                    }
                    assert forall|other: u64| #[trigger]
                        index_after.contains_key(other) implies index_after[other] < after.len()
                        && pair_key(
                        after[index_after[other] as int].source,
                        after[index_after[other] as int].target,
                    ) == other by {
                        if other != key {
                            assert(index_before.contains_key(other));
                            let j = index_before[other] as int;
                            assert(entry_after(before, after[j], j, s, t, sent, received));
                            assert(!is_pair(before[j], s, t));
                        }
                    }
                }
            },
        }
    }

    /// A ledger of the given entries.
    pub fn from_entries(pairs: &Vec<PairTotals>) -> (ledger: PairLedger)
        requires
            pairs_distinct(pairs@),
        ensures
            ledger.wf(),
            ledger.entries@ == pairs@,
    {
        broadcast use vstd::std_specs::hash::group_hash_axioms;

        let mut entries: Vec<PairTotals> = Vec::new();
        let mut index: HashMap<u64, usize> = HashMap::new();
        let mut i: usize = 0;
        while i < pairs.len()
            invariant
                i <= pairs.len(),
                pairs_distinct(pairs@),
                entries@ == pairs@.subrange(0, i as int),
                index_matches(index@, entries@),
            decreases pairs.len() - i,
        {
            let p = pairs[i];
            let ghost before = entries@;
            let ghost index_before = index@;
            let key = key_of(p.source, p.target);
            entries.push(p);
            index.insert(key, i);
            proof {
                let after = entries@;
                let index_after = index@;
                assert(after =~= pairs@.subrange(0, i + 1));
                assert(!index_before.contains_key(key)) by {
                    if index_before.contains_key(key) {
                        let k = index_before[key] as int;
                        assert(before[k] == pairs[k]);
                        assert(!is_pair(pairs[k], pairs[i as int].source, pairs[i as int].target));
                    }
                }
                assert forall|j: int| 0 <= j < after.len() implies index_after.contains_key(
                    pair_key((#[trigger] after[j]).source, after[j].target),
                ) && index_after[pair_key(after[j].source, after[j].target)] == j by {
                    if j < i {
                        assert(after[j] == before[j]);
                        assert(index_before.contains_key(pair_key(before[j].source, before[j].target)));
                        assert(before[j] == pairs[j]);
                        assert(!is_pair(pairs[j], pairs[i as int].source, pairs[i as int].target));
                    }
                }
                assert forall|other: u64| #[trigger]
                    index_after.contains_key(other) implies index_after[other] < after.len()
                    && pair_key(
                    after[index_after[other] as int].source,
                    after[index_after[other] as int].target,
                ) == other by {
                    if other != key {
                        assert(index_before.contains_key(other));
                        let j = index_before[other] as int;
                        assert(after[j] == before[j]);
                    }
                }
            }
            i = i + 1;
        }
        assert(pairs@.subrange(0, pairs.len() as int) =~= pairs@);
        assert forall|a: int, b: int|
            0 <= a < entries.len() && 0 <= b < entries.len() && a != b implies !is_pair(
            #[trigger] entries@[a],
            (#[trigger] entries@[b]).source,
            entries@[b].target,
        ) by {
            assert(!is_pair(pairs[a], pairs[b].source, pairs[b].target));
        }
        PairLedger { entries, index }
    }
}

/// Whether `out` holds the totals of `events` under the two filters: no
/// pair twice; for every pair the filtered totals of its events, and zero
/// for a pair without an entry; no entry without bytes; and, over all
/// entries, as many sent and received bytes as the events hold.
pub open spec fn is_aggregate(out: Seq<PairTotals>, events: Seq<Event>, show_tx: bool, show_rx: bool) -> bool {
    &&& pairs_distinct(out)
    &&& forall|a: u32, b: u32|
        #![trigger sent_in(out, a, b)]
        sent_in(out, a, b) == pair_sent(events, show_tx, a, b)
    &&& forall|a: u32, b: u32|
        #![trigger received_in(out, a, b)]
        received_in(out, a, b) == pair_received(events, show_rx, a, b)
    &&& forall|k: int| 0 <= k < out.len() ==> (#[trigger] out[k]).sent + out[k].received > 0
    &&& sum_sent(out) == (if show_tx {
        all_sent(events)
    } else {
        0
    })
    &&& sum_received(out) == (if show_rx {
        all_received(events)
    } else {
        0
    })
}

/// The bytes, sent and received together, of the events in which `s` names
/// `t` as its peer: what a log that keeps one count per call would hold for
/// the pair.
pub open spec fn undirected_total(events: Seq<Event>, s: u32, t: u32) -> nat
    decreases events.len(),
{
    if events.len() == 0 {
        0
    } else {
        let e = events.last();
        undirected_total(events.drop_last(), s, t) + (if e.is_transfer() && e.source_pe == s
            && e.raw.target_pe == t {
            (e.raw.bytes_tx + e.raw.bytes_rx) as nat
        } else {
            0
        })
    }
}

/// With one filter off, the totals of the other direction are those that
/// both filters give, and the totals of its own direction are zero.
pub proof fn law_filters_select_direction(
    events: Seq<Event>,
    both: Seq<PairTotals>,
    only_tx: Seq<PairTotals>,
    only_rx: Seq<PairTotals>,
    a: u32,
    b: u32,
)
    requires
        is_aggregate(both, events, true, true),
        is_aggregate(only_tx, events, true, false),
        is_aggregate(only_rx, events, false, true),
    ensures
        sent_in(only_tx, a, b) == sent_in(both, a, b),
        received_in(only_tx, a, b) == 0,
        sent_in(only_rx, a, b) == 0,
        received_in(only_rx, a, b) == received_in(both, a, b),
        sum_sent(only_tx) == sum_sent(both) && sum_received(only_tx) == 0,
        sum_received(only_rx) == sum_received(both) && sum_sent(only_rx) == 0,
{
}

/// What a pair holds when each call has one count of bytes is what
/// transmit alone gives for the pair plus what receive alone gives for the
/// mirrored pair.
pub proof fn law_undirected_is_sum_of_directions(
    events: Seq<Event>,
    only_tx: Seq<PairTotals>,
    only_rx: Seq<PairTotals>,
    s: u32,
    t: u32,
)
    requires
        is_aggregate(only_tx, events, true, false),
        is_aggregate(only_rx, events, false, true),
    ensures
        undirected_total(events, s, t) == sent_in(only_tx, s, t) + received_in(only_rx, t, s),
{
    lemma_undirected_split(events, s, t);
}

/// The undirected total of a pair is its sent total plus the received total
/// of the mirrored pair.
pub proof fn lemma_undirected_split(events: Seq<Event>, s: u32, t: u32)
    ensures
        undirected_total(events, s, t) == sent_total(events, s, t) + received_total(events, t, s),
    decreases events.len(),
{
    if events.len() > 0 {
        lemma_undirected_split(events.drop_last(), s, t);
    }
}

/// The totals of every pair of processes over the events with indices from
/// `lo` up to `hi`, under the transmit and receive filters.
///
/// A pair has an entry exactly when its filtered total is not zero.
#[verifier::rlimit(40)]
pub fn aggregate(events: &Vec<Event>, lo: usize, hi: usize, show_tx: bool, show_rx: bool) -> (out:
    Vec<PairTotals>)
    requires
        lo <= hi <= events.len(),
    ensures
        is_aggregate(out@, events@.subrange(lo as int, hi as int), show_tx, show_rx),
{
    let mut ledger = PairLedger::new();
    let mut i: usize = lo;
    assert(events@.subrange(lo as int, lo as int) =~= Seq::<Event>::empty());
    while i < hi
        invariant
            lo <= i <= hi <= events.len(),
            ledger.wf(),
            forall|a: u32, b: u32|
                #![trigger sent_in(ledger.entries@, a, b)]
                sent_in(ledger.entries@, a, b) == pair_sent(
                    events@.subrange(lo as int, i as int),
                    show_tx,
                    a,
                    b,
                ),
            forall|a: u32, b: u32|
                #![trigger received_in(ledger.entries@, a, b)]
                received_in(ledger.entries@, a, b) == pair_received(
                    events@.subrange(lo as int, i as int),
                    show_rx,
                    a,
                    b,
                ),
            forall|k: int|
                0 <= k < ledger.entries.len() ==> (#[trigger] ledger.entries[k]).sent
                    + ledger.entries[k].received > 0,
            forall|k: int|
                0 <= k < ledger.entries.len() ==> (#[trigger] ledger.entries[k]).sent <= (i - lo)
                    * u64::MAX && ledger.entries[k].received <= (i - lo) * u64::MAX,
            sum_sent(ledger.entries@) == (if show_tx {
                all_sent(events@.subrange(lo as int, i as int))
            } else {
                0
            }),
            sum_received(ledger.entries@) == (if show_rx {
                all_received(events@.subrange(lo as int, i as int))
            } else {
                0
            }),
        decreases hi - i,
    {
        let ghost seen = events@.subrange(lo as int, i as int);
        let ghost next = events@.subrange(lo as int, i + 1);
        let e = &events[i];
        proof {
            assert(next.drop_last() =~= seen);
            assert(next.last() == *e);
            assert((i - lo) * u64::MAX + u64::MAX == (i + 1 - lo) * u64::MAX) by (nonlinear_arith);
            assert((i + 1 - lo) * u64::MAX <= usize::MAX * u64::MAX) by (nonlinear_arith)
                requires
                    i + 1 - lo <= usize::MAX,
            ;
        }
        if e.raw.target_pe >= 0 {
            let src: u32 = e.source_pe;
            let dst: u32 = e.raw.target_pe as u32;
            if src != dst {
                if show_tx && e.raw.bytes_tx > 0 {
                    ledger.record(src, dst, e.raw.bytes_tx, 0);
                }
                if show_rx && e.raw.bytes_rx > 0 {
                    ledger.record(dst, src, 0, e.raw.bytes_rx);
                }
            }
        }
        i = i + 1;
    }
    ledger.entries
}

/// What a focus process exchanged with one other process.
#[derive(Clone, Copy, Debug, PartialEq, Eq, Structural)]
pub struct NodeTotals {
    pub node: u32,
    pub sent: u128,
    pub received: u128,
}

/// The totals of every process that shares a pair with the focus process,
/// and the largest combined total among them.
#[derive(Clone, Debug)]
pub struct FocusTotals {
    pub nodes: Vec<NodeTotals>,
    pub max_total: u128,
}

/// The smaller of a sum and the largest `u128`.
pub open spec fn capped(x: int) -> int {
    if x > u128::MAX {
        u128::MAX as int
    } else {
        x
    }
}

/// Whether process `n` shares a pair with the focus process `h`.
pub open spec fn touches_focus(pairs: Seq<PairTotals>, h: u32, n: u32) -> bool {
    has_pair(pairs, h, n) || has_pair(pairs, n, h)
}

/// The sent totals of the pairs that join `n` and the focus process `h`.
pub open spec fn node_sent(pairs: Seq<PairTotals>, h: u32, n: u32) -> nat {
    sent_in(pairs, h, n) + (if n != h {
        sent_in(pairs, n, h)
    } else {
        0
    })
}

/// The received totals of the pairs that join `n` and the focus process `h`.
pub open spec fn node_received(pairs: Seq<PairTotals>, h: u32, n: u32) -> nat {
    received_in(pairs, h, n) + (if n != h {
        received_in(pairs, n, h)
    } else {
        0
    })
}

impl NodeTotals {
    /// Sent and received bytes together, capped at the largest `u128`.
    pub open spec fn spec_total(&self) -> int {
        capped(self.sent + self.received)
    }

    /// Sent and received bytes together.
    pub fn total(&self) -> (r: u128)
        ensures
            r == self.spec_total(),
    {
        self.sent.saturating_add(self.received)
    }
}

impl PairTotals {
    /// Sent and received bytes together, capped at the largest `u128`.
    pub open spec fn spec_total(&self) -> int {
        capped(self.sent + self.received)
    }

    /// Sent and received bytes together.
    pub fn total(&self) -> (r: u128)
        ensures
            r == self.spec_total(),
    {
        self.sent.saturating_add(self.received)
    }
}

/// Whether some entry is about process `n`.
pub open spec fn has_node(nodes: Seq<NodeTotals>, n: u32) -> bool {
    exists|k: int| 0 <= k < nodes.len() && (#[trigger] nodes[k]).node == n
}

/// No process has two entries.
pub open spec fn nodes_distinct(nodes: Seq<NodeTotals>) -> bool {
    forall|i: int, j: int|
        0 <= i < nodes.len() && 0 <= j < nodes.len() && i != j ==> (#[trigger] nodes[i]).node != (
        #[trigger] nodes[j]).node
}

/// Whether an entry joins the focus process `h` and process `n`.
pub open spec fn joins(p: PairTotals, h: u32, n: u32) -> bool {
    is_pair(p, h, n) || is_pair(p, n, h)
}

/// The totals per process around the focus process `h`.
///
/// A process has an entry exactly when it shares a pair with `h`; its totals
/// are those of the pair from `h` to it plus those of the pair from it to `h`.
/// `max_total` is the largest combined total of any entry, zero without one.
#[verifier::rlimit(40)]
pub fn node_totals(pairs: &Vec<PairTotals>, h: u32) -> (out: FocusTotals)
    requires
        pairs_distinct(pairs@),
    ensures
        nodes_distinct(out.nodes@),
        forall|n: u32| has_node(out.nodes@, n) <==> touches_focus(pairs@, h, n),
        forall|k: int|
            0 <= k < out.nodes.len() ==> {
                let e = #[trigger] out.nodes[k];
                e.sent == capped(node_sent(pairs@, h, e.node) as int) && e.received == capped(
                    node_received(pairs@, h, e.node) as int,
                )
            },
        forall|k: int|
            0 <= k < out.nodes.len() ==> (#[trigger] out.nodes[k]).spec_total() <= out.max_total,
        out.nodes.len() == 0 ==> out.max_total == 0,
        out.nodes.len() > 0 ==> exists|k: int|
            0 <= k < out.nodes.len() && (#[trigger] out.nodes[k]).spec_total() == out.max_total,
{
    let ledger = PairLedger::from_entries(pairs);
    let mut nodes: Vec<NodeTotals> = Vec::new();
    let mut max_total: u128 = 0;
    let mut i: usize = 0;
    while i < pairs.len()
        invariant
            i <= pairs.len(),
            pairs_distinct(pairs@),
            ledger.wf(),
            ledger.entries@ == pairs@,
            nodes_distinct(nodes@),
            forall|n: u32|
                has_node(nodes@, n) <==> exists|j: int| 0 <= j < i && joins(#[trigger] pairs[j], h, n),
            forall|k: int|
                0 <= k < nodes.len() ==> {
                    let e = #[trigger] nodes[k];
                    e.sent == capped(node_sent(pairs@, h, e.node) as int) && e.received == capped(
                        node_received(pairs@, h, e.node) as int,
                    )
                },
            forall|k: int| 0 <= k < nodes.len() ==> (#[trigger] nodes[k]).spec_total() <= max_total,
            nodes.len() == 0 ==> max_total == 0,
            nodes.len() > 0 ==> exists|k: int|
                0 <= k < nodes.len() && (#[trigger] nodes[k]).spec_total() == max_total,
        decreases pairs.len() - i,
    {
        let p = pairs[i];
        let ghost before = nodes@;
        proof {
            lemma_entry_is_looked_up(pairs@, i as int);
        }
        if p.source == h || p.target == h {
            let n: u32 = if p.source == h {
                p.target
            } else {
                p.source
            };
            let other: Option<usize> = if n == h {
                None
            } else if p.source == h {
                ledger.position(n, h)
            } else {
                ledger.position(h, n)
            };
            let first_here: bool = match other {
                Some(o) => i < o,
                None => true,
            };
            assert(joins(pairs[i as int], h, n));
            if first_here {
                let entry = match other {
                    Some(o) => {
                        proof {
                            lemma_entry_is_looked_up(pairs@, o as int);
                        }
                        NodeTotals {
                            node: n,
                            sent: p.sent.saturating_add(pairs[o].sent),
                            received: p.received.saturating_add(pairs[o].received),
                        }
                    },
                    None => NodeTotals { node: n, sent: p.sent, received: p.received },
                };
                proof {
                    assert(!has_node(before, n)) by {
                        if has_node(before, n) {
                            let j = choose|j: int| 0 <= j < i && joins(#[trigger] pairs[j], h, n);
                            assert(!is_pair(
                                pairs[j],
                                pairs[i as int].source,
                                pairs[i as int].target,
                            ));
                            match other {
                                Some(o) => {
                                    assert(!is_pair(
                                        pairs[j],
                                        pairs[o as int].source,
                                        pairs[o as int].target,
                                    ));
                                },
                                None => {},
                            }
                        }
                    }
                }
                let t = entry.total();
                nodes.push(entry);
                if t > max_total {
                    max_total = t;
                }
                proof {
                    let after = nodes@;
                    let last = before.len() as int;
                    assert(after == before.push(entry));
                    assert forall|k: int| 0 <= k < after.len() implies (#[trigger] after[k]).spec_total()
                        <= max_total by {
                        if k < last {
                            assert(after[k] == before[k]);
                        }
                    }
                    if t == max_total {
                        assert(after[last].spec_total() == max_total);
                    } else {
                        let w = choose|k: int|
                            0 <= k < before.len() && (#[trigger] before[k]).spec_total()
                                == max_total;
                        assert(after[w].spec_total() == max_total);
                    }
                    assert(nodes_distinct(after)) by {
                        assert forall|a: int, b: int|
                            0 <= a < after.len() && 0 <= b < after.len() && a != b implies (
                        #[trigger] after[a]).node != (#[trigger] after[b]).node by {
                            if a < last && b < last {
                                assert(before[a].node != before[b].node);
                            } else if a < last {
                                assert(before[a].node != n);
                            } else {
                                assert(before[b].node != n);
                            }
                        }
                    }
                    assert forall|m: u32|
                        has_node(after, m) <==> exists|j: int|
                            0 <= j < i + 1 && joins(#[trigger] pairs[j], h, m) by {
                        if has_node(after, m) {
                            let k = choose|k: int| 0 <= k < after.len() && (#[trigger] after[k]).node == m;
                            if k < last {
                                assert(before[k].node == m);
                                assert(has_node(before, m));
                                let j = choose|j: int| 0 <= j < i && joins(#[trigger] pairs[j], h, m);
                                assert(0 <= j < i + 1 && joins(pairs[j], h, m));
                            } else {
                                assert(joins(pairs[i as int], h, m));
                            }
                        }
                        if exists|j: int| 0 <= j < i + 1 && joins(#[trigger] pairs[j], h, m) {
                            let j = choose|j: int| 0 <= j < i + 1 && joins(#[trigger] pairs[j], h, m);
                            if j < i {
                                assert(has_node(before, m));
                                let k = choose|k: int|
                                    0 <= k < before.len() && (#[trigger] before[k]).node == m;
                                assert(after[k].node == m);
                            } else {
                                assert(m == n);
                                assert(after[last].node == m);
                            }
                        }
                    }
                    assert forall|k: int| 0 <= k < after.len() implies {
                        let e = #[trigger] after[k];
                        e.sent == capped(node_sent(pairs@, h, e.node) as int) && e.received
                            == capped(node_received(pairs@, h, e.node) as int)
                    } by {
                        if k < last {
                            assert(after[k] == before[k]);
                        }
                    }
                }
            } else {
                proof {
                    let o = other.unwrap() as int;
                    assert(joins(pairs[o], h, n));
                    assert forall|m: u32|
                        has_node(before, m) <==> exists|j: int|
                            0 <= j < i + 1 && joins(#[trigger] pairs[j], h, m) by {
                        if has_node(before, m) {
                            let j = choose|j: int| 0 <= j < i && joins(#[trigger] pairs[j], h, m);
                            assert(0 <= j < i + 1 && joins(pairs[j], h, m));
                        }
                        if exists|j: int| 0 <= j < i + 1 && joins(#[trigger] pairs[j], h, m) {
                            let j = choose|j: int| 0 <= j < i + 1 && joins(#[trigger] pairs[j], h, m);
                            if j == i {
                                assert(m == n);
                                assert(0 <= o < i && joins(pairs[o], h, m));
                            }
                        }
                    }
                }
            }
        } else {
            proof {
                assert forall|m: u32|
                    has_node(before, m) <==> exists|j: int|
                        0 <= j < i + 1 && joins(#[trigger] pairs[j], h, m) by {
                    if has_node(before, m) {
                        let j = choose|j: int| 0 <= j < i && joins(#[trigger] pairs[j], h, m);
                        assert(0 <= j < i + 1 && joins(pairs[j], h, m));
                    }
                    if exists|j: int| 0 <= j < i + 1 && joins(#[trigger] pairs[j], h, m) {
                        let j = choose|j: int| 0 <= j < i + 1 && joins(#[trigger] pairs[j], h, m);
                        assert(j < i);
                    }
                }
            }
        }
        i = i + 1;
    }
    proof {
        assert forall|n: u32| has_node(nodes@, n) <==> touches_focus(pairs@, h, n) by {
            if has_node(nodes@, n) {
                let j = choose|j: int| 0 <= j < i && joins(#[trigger] pairs[j], h, n);
                assert(is_pair(pairs[j], h, n) || is_pair(pairs[j], n, h));
            }
            if has_pair(pairs@, h, n) {
                let j = pair_index(pairs@, h, n);
                assert(joins(pairs[j], h, n));
            }
            if has_pair(pairs@, n, h) {
                let j = pair_index(pairs@, n, h);
                assert(joins(pairs[j], h, n));
            }
        }
    }
    FocusTotals { nodes, max_total }
}

} // verus!
