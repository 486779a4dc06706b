//! Sorting events by start time without changing the order of events that
//! start together: a merge sort.

use crate::event::{sorted_by_time, Event};
use std::collections::VecDeque;
use vstd::prelude::*;

verus! {

/// The events that start at the instant `t`, in their order.
pub open spec fn at_time(events: Seq<Event>, t: i64) -> Seq<Event>
    decreases events.len(),
{
    if events.len() == 0 {
        Seq::empty()
    } else {
        let before = at_time(events.drop_last(), t);
        if events.last().raw.time == t {
            before.push(events.last())
        } else {
            before
        }
    }
}

/// Whether `sorted` holds the events of `events` in the order of their start
/// times, events that start together in the order that they had.
pub open spec fn is_stable_sort(sorted: Seq<Event>, events: Seq<Event>) -> bool {
    &&& sorted_by_time(sorted)
    &&& sorted.to_multiset() == events.to_multiset()
    &&& forall|t: i64| at_time(sorted, t) == at_time(events, t)
}

/// Whether `merged` holds the events of `a` and `b`, and for every instant
/// those of `a` before those of `b`.
pub open spec fn is_merge(merged: Seq<Event>, a: Seq<Event>, b: Seq<Event>) -> bool {
    &&& merged.to_multiset() == a.to_multiset().add(b.to_multiset())
    &&& forall|t: i64| at_time(merged, t) == at_time(a, t) + at_time(b, t)
}

/// The events at an instant, after one more event.
pub proof fn lemma_at_time_push(events: Seq<Event>, e: Event, t: i64)
    ensures
        at_time(events.push(e), t) == if e.raw.time == t {
            at_time(events, t).push(e)
        } else {
            at_time(events, t)
        },
{
    assert(events.push(e).drop_last() =~= events);
}

/// The events at an instant of two sequences in a row.
pub proof fn lemma_at_time_concat(a: Seq<Event>, b: Seq<Event>, t: i64)
    ensures
        at_time(a + b, t) == at_time(a, t) + at_time(b, t),
    decreases b.len(),
{
    if b.len() == 0 {
        assert(a + b =~= a);
        assert(at_time(a, t) + at_time(b, t) =~= at_time(a, t));
    } else {
        lemma_at_time_concat(a, b.drop_last(), t);
        assert((a + b).drop_last() =~= a + b.drop_last());
        assert((a + b).last() == b.last());
        if b.last().raw.time == t {
            assert((at_time(a, t) + at_time(b.drop_last(), t)).push(b.last()) =~= at_time(a, t)
                + at_time(b.drop_last(), t).push(b.last()));
        }
    }
}

/// No events at an instant at which none starts.
pub proof fn lemma_at_time_none(events: Seq<Event>, t: i64)
    requires
        forall|i: int| 0 <= i < events.len() ==> (#[trigger] events[i]).raw.time != t,
    ensures
        at_time(events, t) == Seq::<Event>::empty(),
    decreases events.len(),
{
    if events.len() > 0 {
        assert forall|i: int| 0 <= i < events.drop_last().len() implies (
        #[trigger] events.drop_last()[i]).raw.time != t by {
            assert(events.drop_last()[i] == events[i]);
        }
        lemma_at_time_none(events.drop_last(), t);
        assert(events.last() == events[events.len() - 1]);
    }
}

/// Two sequences in a row hold the elements of both.
pub proof fn lemma_multiset_concat(a: Seq<Event>, b: Seq<Event>)
    ensures
        (a + b).to_multiset() == a.to_multiset().add(b.to_multiset()),
{
    vstd::seq_lib::lemma_multiset_commutative(a, b);
}

/// Merges two sorted runs of events into one. Of events that start together,
/// those of `a` come before those of `b`.
#[verifier::rlimit(40)]
pub fn merge(a: VecDeque<Event>, b: VecDeque<Event>) -> (out: VecDeque<Event>)
    requires
        sorted_by_time(a@),
        sorted_by_time(b@),
    ensures
        sorted_by_time(out@),
        is_merge(out@, a@, b@),
{
    let ghost a0 = a@;
    let ghost b0 = b@;
    let mut a = a;
    let mut b = b;
    let mut out: VecDeque<Event> = VecDeque::new();
    let ghost mut i: int = 0;
    let ghost mut j: int = 0;
    proof {
        assert(a0.subrange(0, a0.len() as int) =~= a0);
        assert(b0.subrange(0, b0.len() as int) =~= b0);
        assert(a0.subrange(0, 0) =~= Seq::<Event>::empty());
        assert(b0.subrange(0, 0) =~= Seq::<Event>::empty());
        assert(out@ =~= Seq::<Event>::empty());
        lemma_multiset_concat(Seq::<Event>::empty(), Seq::<Event>::empty());
        assert(Seq::<Event>::empty() + Seq::<Event>::empty() =~= Seq::<Event>::empty());
        assert forall|t: i64|
            at_time(out@, t) == at_time(a0.subrange(0, 0), t) + at_time(b0.subrange(0, 0), t) by {
            assert(at_time(Seq::<Event>::empty(), t) + at_time(Seq::<Event>::empty(), t)
                =~= at_time(Seq::<Event>::empty(), t));
        }
    }
    while a.len() > 0 && b.len() > 0
        invariant
            0 <= i <= a0.len(),
            0 <= j <= b0.len(),
            a@ == a0.subrange(i, a0.len() as int),
            b@ == b0.subrange(j, b0.len() as int),
            sorted_by_time(a0),
            sorted_by_time(b0),
            sorted_by_time(out@),
            forall|k: int, m: int|
                0 <= k < out.len() && i <= m < a0.len() ==> (#[trigger] out@[k]).raw.time <= (
                #[trigger] a0[m]).raw.time,
            forall|k: int, m: int|
                0 <= k < out.len() && j <= m < b0.len() ==> (#[trigger] out@[k]).raw.time <= (
                #[trigger] b0[m]).raw.time,
            forall|k: int, m: int|
                0 <= k < j && i <= m < a0.len() ==> (#[trigger] b0[k]).raw.time < (
                #[trigger] a0[m]).raw.time,
            is_merge(out@, a0.subrange(0, i), b0.subrange(0, j)),
        decreases a.len() + b.len(),
    {
        let ghost before = out@;
        let ghost taken_a = a0.subrange(0, i);
        let ghost taken_b = b0.subrange(0, j);
        assert(a@[0] == a0[i] && b@[0] == b0[j]);
        if b[0].raw.time < a[0].raw.time {
            let e = b.pop_front().unwrap();
            out.push_back(e);
            proof {
                assert(e == b0[j]);
                assert(b@ =~= b0.subrange(j + 1, b0.len() as int));
                let more_b = b0.subrange(0, j + 1);
                assert(more_b =~= taken_b.push(e));
                lemma_pushed(before, taken_a, taken_b, e, false);
                assert forall|k: int, m: int| 0 <= k < j + 1 && i <= m < a0.len() implies (
                #[trigger] b0[k]).raw.time < (#[trigger] a0[m]).raw.time by {
                    if k == j {
                        assert(a0[i].raw.time <= a0[m].raw.time);
                    }
                }
                assert forall|k: int, m: int| 0 <= k < out.len() && i <= m < a0.len() implies (
                #[trigger] out@[k]).raw.time <= (#[trigger] a0[m]).raw.time by {
                    if k == before.len() {
                        assert(a0[i].raw.time <= a0[m].raw.time);
                    } else {
                        assert(out@[k] == before[k]);
                    }
                }
                assert forall|k: int, m: int| 0 <= k < out.len() && j + 1 <= m < b0.len() implies (
                #[trigger] out@[k]).raw.time <= (#[trigger] b0[m]).raw.time by {
                    if k == before.len() {
                        assert(b0[j].raw.time <= b0[m].raw.time);
                    } else {
                        assert(out@[k] == before[k]);
                    }
                }
                assert(sorted_by_time(out@)) by {
                    assert forall|p: int, q: int| 0 <= p <= q < out.len() implies out@[p].raw.time
                        <= out@[q].raw.time by {
                        if q == before.len() {
                            if p < q {
                                assert(out@[p] == before[p]);
                                assert(before[p].raw.time <= b0[j].raw.time);
                            }
                        } else {
                            assert(out@[p] == before[p] && out@[q] == before[q]);
                        }
                    }
                }
                j = j + 1;
            }
        } else {
            let e = a.pop_front().unwrap();
            out.push_back(e);
            proof {
                assert(e == a0[i]);
                assert(a@ =~= a0.subrange(i + 1, a0.len() as int));
                let more_a = a0.subrange(0, i + 1);
                assert(more_a =~= taken_a.push(e));
                assert forall|k: int| 0 <= k < taken_b.len() implies (#[trigger] taken_b[k]).raw.time
                    != e.raw.time by {
                    assert(taken_b[k] == b0[k]);
                    assert(b0[k].raw.time < a0[i].raw.time);
                }
                lemma_at_time_none(taken_b, e.raw.time);
                lemma_pushed(before, taken_a, taken_b, e, true);
                assert forall|k: int, m: int| 0 <= k < out.len() && i + 1 <= m < a0.len() implies (
                #[trigger] out@[k]).raw.time <= (#[trigger] a0[m]).raw.time by {
                    if k == before.len() {
                        assert(a0[i].raw.time <= a0[m].raw.time);
                    } else {
                        assert(out@[k] == before[k]);
                    }
                }
                assert forall|k: int, m: int| 0 <= k < out.len() && j <= m < b0.len() implies (
                #[trigger] out@[k]).raw.time <= (#[trigger] b0[m]).raw.time by {
                    if k == before.len() {
                        assert(b0[j].raw.time <= b0[m].raw.time);
                    } else {
                        assert(out@[k] == before[k]);
                    }
                }
                assert(sorted_by_time(out@)) by {
                    assert forall|p: int, q: int| 0 <= p <= q < out.len() implies out@[p].raw.time
                        <= out@[q].raw.time by {
                        if q == before.len() {
                            if p < q {
                                assert(out@[p] == before[p]);
                                assert(before[p].raw.time <= a0[i].raw.time);
                            }
                        } else {
                            assert(out@[p] == before[p] && out@[q] == before[q]);
                        }
                    }
                }
                i = i + 1;
            }
        }
    }
    let ghost before = out@;
    let ghost rest_a = a@;
    let ghost rest_b = b@;
    out.append(&mut a);
    out.append(&mut b);
    proof {
        let taken_a = a0.subrange(0, i);
        let taken_b = b0.subrange(0, j);
        assert(out@ =~= before + rest_a + rest_b);
        assert(a0 =~= taken_a + rest_a);
        assert(b0 =~= taken_b + rest_b);
        lemma_multiset_concat(before, rest_a);
        lemma_multiset_concat(before + rest_a, rest_b);
        lemma_multiset_concat(taken_a, rest_a);
        lemma_multiset_concat(taken_b, rest_b);
        assert(out@.to_multiset() =~= a0.to_multiset().add(b0.to_multiset()));
        assert forall|t: i64| at_time(out@, t) == at_time(a0, t) + at_time(b0, t) by {
            lemma_at_time_concat(before, rest_a, t);
            lemma_at_time_concat(before + rest_a, rest_b, t);
            lemma_at_time_concat(taken_a, rest_a, t);
            lemma_at_time_concat(taken_b, rest_b, t);
            if rest_b.len() == 0 {
                // What is left of `a` starts after everything taken from `b`.
                if at_time(rest_a, t).len() > 0 && at_time(taken_b, t).len() > 0 {
                    assert forall|k: int| 0 <= k < taken_b.len() implies (
                    #[trigger] taken_b[k]).raw.time != t by {
                        assert(taken_b[k] == b0[k]);
                        lemma_at_time_some(rest_a, t);
                        let m = choose|m: int| 0 <= m < rest_a.len() && rest_a[m].raw.time == t;
                        assert(rest_a[m] == a0[i + m]);
                        assert(b0[k].raw.time < a0[i + m].raw.time);
                    }
                    lemma_at_time_none(taken_b, t);
                }
                assert(at_time(rest_b, t) =~= Seq::<Event>::empty());
                assert(at_time(taken_a, t) + at_time(taken_b, t) + at_time(rest_a, t) + at_time(
                    rest_b,
                    t,
                ) =~= at_time(taken_a, t) + at_time(rest_a, t) + (at_time(taken_b, t) + at_time(
                    rest_b,
                    t,
                )));
            } else {
                assert(rest_a.len() == 0);
                assert(at_time(rest_a, t) =~= Seq::<Event>::empty());
                assert(at_time(taken_a, t) + at_time(taken_b, t) + at_time(rest_a, t) + at_time(
                    rest_b,
                    t,
                ) =~= at_time(taken_a, t) + at_time(rest_a, t) + (at_time(taken_b, t) + at_time(
                    rest_b,
                    t,
                )));
            }
        }
        assert(sorted_by_time(out@)) by {
            assert forall|p: int, q: int| 0 <= p <= q < out.len() implies out@[p].raw.time
                <= out@[q].raw.time by {
                let n = before.len() as int;
                if q < n {
                    assert(out@[p] == before[p] && out@[q] == before[q]);
                } else if rest_b.len() == 0 {
                    assert(out@[q] == a0[i + (q - n)]);
                    if p < n {
                        assert(out@[p] == before[p]);
                    } else {
                        assert(out@[p] == a0[i + (p - n)]);
                    }
                } else {
                    assert(out@[q] == b0[j + (q - n)]);
                    if p < n {
                        assert(out@[p] == before[p]);
                    } else {
                        assert(out@[p] == b0[j + (p - n)]);
                    }
                }
            }
        }
    }
    out
}

/// Events at an instant come from events that start at it.
pub proof fn lemma_at_time_some(events: Seq<Event>, t: i64)
    requires
        at_time(events, t).len() > 0,
    ensures
        exists|m: int| 0 <= m < events.len() && events[m].raw.time == t,
    decreases events.len(),
{
    if events.len() > 0 {
        if events.last().raw.time == t {
            assert(events[events.len() - 1].raw.time == t);
        } else {
            lemma_at_time_some(events.drop_last(), t);
            let m = choose|m: int| 0 <= m < events.drop_last().len() && events.drop_last()[m].raw.time == t;
            assert(events[m].raw.time == t);
        }
    }
}

/// One step of a merge: an event taken from `a` (where nothing taken from
/// `b` starts with it) or from `b` keeps what is merged a merge of what
/// was taken.
pub proof fn lemma_pushed(merged: Seq<Event>, a: Seq<Event>, b: Seq<Event>, e: Event, from_a: bool)
    requires
        is_merge(merged, a, b),
        from_a ==> at_time(b, e.raw.time) == Seq::<Event>::empty(),
    ensures
        from_a ==> is_merge(merged.push(e), a.push(e), b),
        !from_a ==> is_merge(merged.push(e), a, b.push(e)),
{
    vstd::seq_lib::to_multiset_build(merged, e);
    vstd::seq_lib::to_multiset_build(a, e);
    vstd::seq_lib::to_multiset_build(b, e);
    if from_a {
        assert(merged.push(e).to_multiset() =~= a.push(e).to_multiset().add(b.to_multiset()));
        assert forall|t: i64| at_time(merged.push(e), t) == at_time(a.push(e), t) + at_time(b, t) by {
            lemma_at_time_push(merged, e, t);
            lemma_at_time_push(a, e, t);
            if e.raw.time == t {
                assert((at_time(a, t) + at_time(b, t)).push(e) =~= at_time(a, t).push(e) + at_time(
                    b,
                    t,
                ));
            }
        }
    } else {
        assert(merged.push(e).to_multiset() =~= a.to_multiset().add(b.push(e).to_multiset()));
        assert forall|t: i64| at_time(merged.push(e), t) == at_time(a, t) + at_time(b.push(e), t) by {
            lemma_at_time_push(merged, e, t);
            lemma_at_time_push(b, e, t);
            if e.raw.time == t {
                assert((at_time(a, t) + at_time(b, t)).push(e) =~= at_time(a, t) + at_time(b, t).push(
                    e,
                ));
            }
        }
    }
}

/// Sorts a run of events by start time, events that start together staying
/// in their order: each half is sorted by itself and the halves are merged.
pub fn sort_run(run: VecDeque<Event>) -> (out: VecDeque<Event>)
    ensures
        is_stable_sort(out@, run@),
    decreases run.len(),
{
    if run.len() <= 1 {
        return run;
    }
    let ghost whole = run@;
    let mut left = run;
    let middle: usize = left.len() / 2;
    let right = left.split_off(middle);
    let ghost first = left@;
    let ghost second = right@;
    let sorted_left = sort_run(left);
    let sorted_right = sort_run(right);
    let out = merge(sorted_left, sorted_right);
    proof {
        assert(whole =~= first + second);
        lemma_multiset_concat(first, second);
        assert forall|t: i64| at_time(out@, t) == at_time(whole, t) by {
            lemma_at_time_concat(first, second, t);
        }
    }
    out
}

/// Sorts events by start time in place. Events that start together keep
/// their order.
pub fn sort_by_time(events: &mut Vec<Event>)
    ensures
        is_stable_sort(final(events)@, old(events)@),
{
    let ghost given = events@;
    let mut run: VecDeque<Event> = VecDeque::new();
    assert(given.subrange(0, given.len() as int) =~= given);
    while events.len() > 0
        invariant
            events.len() <= given.len(),
            events@ == given.subrange(0, events.len() as int),
            run@ == given.subrange(events.len() as int, given.len() as int),
        decreases events.len(),
    {
        let ghost k = events.len() as int;
        let e = events.pop().unwrap();
        run.push_front(e);
        proof {
            assert(events@ =~= given.subrange(0, k - 1));
            assert(run@ =~= given.subrange(k - 1, given.len() as int));
        }
    }
    assert(run@ =~= given);
    let mut sorted = sort_run(run);
    let ghost result = sorted@;
    while sorted.len() > 0
        invariant
            sorted.len() <= result.len(),
            events@ == result.subrange(0, result.len() - sorted.len()),
            sorted@ == result.subrange(result.len() - sorted.len(), result.len() as int),
        decreases sorted.len(),
    {
        let ghost k = result.len() - sorted.len();
        let e = sorted.pop_front().unwrap();
        events.push(e);
        proof {
            assert(events@ =~= result.subrange(0, k + 1));
            assert(sorted@ =~= result.subrange(k + 1, result.len() as int));
        }
    }
    assert(events@ =~= result);
}

} // verus!
