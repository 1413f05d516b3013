//! What holds of every run of a controller: of any order in which children
//! are spawned and end, of any order in which their tokens come back, and of
//! a bulk cancellation while children come and go.

use crate::manager::{release_of, Release};
use crate::model::{
    batch_at, bound_after, lemma_batch_then_rest, lemma_descending_is_unique,
    lemma_released_valid, descending, released, spawned, valid, State,
};
use crate::registry::{in_range, lemma_without_properties, within, without};
use crate::teardown::{batch_size, teardown_of, Action, Phase};
use vstd::prelude::*;

verus! {

/// One thing that happens to a controller.
pub enum Event {
    /// A child is spawned.
    Spawn,
    /// The child with this id ends and gives its token back.
    Finish(u64),
}

/// The state after one event.
pub open spec fn after(s: State, event: Event) -> State {
    match event {
        Event::Spawn => spawned(s),
        Event::Finish(id) => released(s, id),
    }
}

/// The state after a run of events, the first one first.
pub open spec fn after_all(s: State, events: Seq<Event>) -> State
    decreases events.len(),
{
    if events.len() == 0 {
        s
    } else {
        after(after_all(s, events.drop_last()), events.last())
    }
}

/// The state after the children `ids` have ended, the first one first.
pub open spec fn released_all(s: State, ids: Seq<u64>) -> State
    decreases ids.len(),
{
    if ids.len() == 0 {
        s
    } else {
        released(released_all(s, ids.drop_last()), ids.last())
    }
}

/// Spawning a child leaves a valid state valid.
pub proof fn lemma_spawned_valid(s: State)
    requires
        valid(s),
    ensures
        valid(spawned(s)),
{
    reveal(descending);
    let t = spawned(s);
    if s.next_id < u64::MAX {
        assert forall|i: int, j: int| 0 <= i < j < t.live.len() implies t.live[i] > t.live[j] by {
            assert(t.live[j] == s.live[j - 1]);
            if i > 0 {
                assert(t.live[i] == s.live[i - 1]);
            }
        }
        assert forall|i: int| 0 <= i < t.live.len() implies t.live[i] < t.next_id by {
            if i > 0 {
                assert(t.live[i] == s.live[i - 1]);
            }
        }
    }
}

/// However spawns and ends of children follow one another, no id is
/// registered twice at any time, and every registered id is one that was
/// handed out.
pub proof fn lemma_ids_stay_unique(s: State, events: Seq<Event>)
    requires
        valid(s),
    ensures
        valid(after_all(s, events)),
        after_all(s, events).live.no_duplicates(),
    decreases events.len(),
{
    if events.len() > 0 {
        lemma_ids_stay_unique(s, events.drop_last());
        let before = after_all(s, events.drop_last());
        match events.last() {
            Event::Spawn => {
                lemma_spawned_valid(before);
            },
            Event::Finish(id) => {
                lemma_released_valid(before, id);
            },
        }
    }
    lemma_descending_is_unique(after_all(s, events).live);
}

/// After the children `ids` have ended, the registered children are those
/// that were registered and are not among `ids`.
pub proof fn lemma_released_all_live(s: State, ids: Seq<u64>)
    requires
        valid(s),
    ensures
        valid(released_all(s, ids)),
        released_all(s, ids).next_id == s.next_id,
        forall|x: u64| #[trigger]
            released_all(s, ids).live.contains(x) <==> s.live.contains(x) && !ids.contains(x),
    decreases ids.len(),
{
    if ids.len() > 0 {
        let init = ids.drop_last();
        let last = ids.last();
        lemma_released_all_live(s, init);
        let before = released_all(s, init);
        lemma_released_valid(before, last);
        lemma_without_properties(before.live, last);
        assert(ids == init.push(last));
        assert forall|x: u64| #[trigger]
            released_all(s, ids).live.contains(x) <==> s.live.contains(x) && !ids.contains(
                x,
            ) by {
            let now = released_all(s, ids).live;
            assert(now == without(before.live, last));
            if x != last {
                assert(now.contains(x) <==> before.live.contains(x));
                assert(before.live.contains(x) <==> s.live.contains(x) && !init.contains(x));
                if init.contains(x) {
                    let j = choose|j: int| 0 <= j < init.len() && init[j] == x;
                    assert(ids[j] == x);
                }
                if ids.contains(x) {
                    let j = choose|j: int| 0 <= j < ids.len() && ids[j] == x;
                    assert(init[j] == x);
                }
            } else {
                assert(ids[ids.len() - 1] == x);
            }
        }
    }
}

/// Once the token of every registered child has come back, in whatever
/// order and among whatever other tokens, no child is registered.
pub proof fn lemma_release_all_drains(s: State, ids: Seq<u64>)
    requires
        valid(s),
        forall|x: u64| s.live.contains(x) ==> ids.contains(x),
    ensures
        released_all(s, ids).live == Seq::<u64>::empty(),
{
    lemma_released_all_live(s, ids);
    let rest = released_all(s, ids).live;
    if rest.len() > 0 {
        assert(rest.contains(rest[0]));
    }
    assert(rest =~= Seq::<u64>::empty());
}

/// Of the tokens that come back outside an unwind, the first one for a
/// registered child is answered with a join of that child, and every other
/// one with nothing to do: each handle is joined once.
pub proof fn lemma_joined_once<H>(s: State, handles: Map<u64, H>, ids: Seq<u64>, at: int)
    requires
        valid(s),
        0 <= at < ids.len(),
    ensures
        release_of(released_all(s, ids.take(at)), handles, ids[at], false) == if s.live.contains(
            ids[at],
        ) && !ids.take(at).contains(ids[at]) {
            Release::Join(handles[ids[at]])
        } else {
            Release::Gone
        },
{
    lemma_released_all_live(s, ids.take(at));
}

/// Whether a bulk cancellation visits `id`, where it starts with the bound
/// `hi`, takes batches of `limit` ids, and finds the controller in the state
/// `trace[0]` at its first batch, in `trace[1]` at its second, and so on.
pub open spec fn visits(trace: Seq<State>, hi: u64, limit: nat, id: u64) -> bool
    decreases trace.len(),
{
    if trace.len() == 0 {
        false
    } else {
        let batch = batch_at(trace[0], hi, limit);
        batch.contains(id) || (batch.len() >= limit && visits(
            trace.drop_first(),
            bound_after(batch, hi),
            limit,
            id,
        ))
    }
}

/// Whether that bulk cancellation comes to its last batch, the one that is
/// not full, within the states of `trace`.
pub open spec fn ends(trace: Seq<State>, hi: u64, limit: nat) -> bool
    decreases trace.len(),
{
    if trace.len() == 0 {
        false
    } else {
        let batch = batch_at(trace[0], hi, limit);
        batch.len() < limit || ends(trace.drop_first(), bound_after(batch, hi), limit)
    }
}

/// A batch holds every registered id below the bound, or it is full and the
/// ids it leaves out lie below the next bound.
pub proof fn lemma_batch_misses_nothing(s: State, hi: u64, limit: nat, id: u64)
    requires
        valid(s),
        limit > 0,
        s.live.contains(id),
        id < hi,
    ensures
        batch_at(s, hi, limit).contains(id) || (batch_at(s, hi, limit).len() == limit && id
            < bound_after(batch_at(s, hi, limit), hi)),
{
    let batch = batch_at(s, hi, limit);
    let below = in_range(s.live, 0, hi);
    lemma_batch_then_rest(s, hi, limit);
    let at = choose|j: int| 0 <= j < s.live.len() && s.live[j] == id;
    s.live.lemma_filter_contains(within(0, hi), at);
    assert(below.contains(id));
    if batch.len() == limit {
        let rest = in_range(s.live, 0, bound_after(batch, hi));
        assert(below == batch + rest);
        let k = choose|k: int| 0 <= k < below.len() && below[k] == id;
        if k < batch.len() {
            assert(batch[k] == id);
        } else {
            assert(rest[k - batch.len()] == id);
            s.live.lemma_filter_pred(within(0, bound_after(batch, hi)), k - batch.len());
        }
    }
}

/// A bulk cancellation visits every child that is registered with an id
/// below its bound from its start to its end, whatever children are
/// spawned or end between its batches.
pub proof fn lemma_scan_visits(trace: Seq<State>, hi: u64, limit: nat, id: u64)
    requires
        limit > 0,
        forall|i: int| 0 <= i < trace.len() ==> valid(#[trigger] trace[i]),
        forall|i: int| 0 <= i < trace.len() ==> (#[trigger] trace[i]).live.contains(id),
        id < hi,
        ends(trace, hi, limit),
    ensures
        visits(trace, hi, limit, id),
    decreases trace.len(),
{
    if trace.len() > 0 {
        let batch = batch_at(trace[0], hi, limit);
        lemma_batch_then_rest(trace[0], hi, limit);
        lemma_batch_misses_nothing(trace[0], hi, limit, id);
        if !batch.contains(id) {
            let later = trace.drop_first();
            assert forall|i: int| 0 <= i < later.len() implies valid(#[trigger] later[i]) by {
                assert(later[i] == trace[i + 1]);
            }
            assert forall|i: int| 0 <= i < later.len() implies (#[trigger] later[i]).live.contains(
                id,
            ) by {
                assert(later[i] == trace[i + 1]);
            }
            lemma_scan_visits(later, bound_after(batch, hi), limit, id);
        }
    }
}

/// A bulk cancellation that starts at the controller's next id visits every
/// child that is registered from the start of the scan to its end, whatever
/// children are spawned or end between its batches.
pub proof fn lemma_scan_visits_every_live_id(trace: Seq<State>, limit: nat, id: u64)
    requires
        limit > 0,
        trace.len() > 0,
        forall|i: int| 0 <= i < trace.len() ==> valid(#[trigger] trace[i]),
        forall|i: int| 0 <= i < trace.len() ==> (#[trigger] trace[i]).live.contains(id),
        ends(trace, trace[0].next_id, limit),
    ensures
        visits(trace, trace[0].next_id, limit, id),
{
    let first = trace[0];
    assert(valid(first));
    let at = choose|j: int| 0 <= j < first.live.len() && first.live[j] == id;
    assert(first.live[at] < first.next_id);
    lemma_scan_visits(trace, first.next_id, limit, id);
}

/// A bulk cancellation comes to its end within as many batches as its bound
/// is high, and one more: children that are spawned meanwhile cannot
/// prolong it.
pub proof fn lemma_scan_ends(trace: Seq<State>, hi: u64, limit: nat)
    requires
        limit > 0,
        forall|i: int| 0 <= i < trace.len() ==> valid(#[trigger] trace[i]),
        trace.len() > hi,
    ensures
        ends(trace, hi, limit),
    decreases trace.len(),
{
    let batch = batch_at(trace[0], hi, limit);
    lemma_batch_then_rest(trace[0], hi, limit);
    if batch.len() >= limit {
        let later = trace.drop_first();
        assert forall|i: int| 0 <= i < later.len() implies valid(#[trigger] later[i]) by {
            assert(later[i] == trace[i + 1]);
        }
        lemma_scan_ends(later, bound_after(batch, hi), limit);
    }
}

/// The phase of a teardown after one step in each state of `trace`, the
/// first one first.
pub open spec fn phase_after(trace: Seq<State>, phase: Phase, unwinding: bool, limit: nat) -> Phase
    decreases trace.len(),
{
    if trace.len() == 0 {
        phase
    } else {
        phase_after(
            trace.drop_first(),
            teardown_of(trace[0], phase, unwinding, limit).0,
            unwinding,
            limit,
        )
    }
}

/// How many steps a teardown during an unwind has before it at most.
pub open spec fn steps_left(phase: Phase) -> nat {
    match phase {
        Phase::Cancelling(scan) => (scan.hi + 2) as nat,
        Phase::Draining => 1,
        Phase::Finished => 0,
    }
}

/// A teardown during an unwind never waits for a child.
pub proof fn lemma_unwinding_never_waits(s: State, phase: Phase, limit: nat)
    ensures
        teardown_of(s, phase, true, limit).1 != Action::Yield,
{
}

/// A teardown outside an unwind is over only once no child is registered.
pub proof fn lemma_finished_means_drained(s: State, phase: Phase, limit: nat)
    requires
        phase != Phase::Finished,
        teardown_of(s, phase, false, limit).0 == Phase::Finished,
    ensures
        s.live.len() == 0,
{
}

/// A teardown that is over stays over and asks for nothing.
pub proof fn lemma_finished_stays(s: State, unwinding: bool, limit: nat)
    ensures
        teardown_of(s, Phase::Finished, unwinding, limit) == (Phase::Finished, Action::Done),
{
}

/// Each step of a teardown during an unwind brings it nearer to its end.
pub proof fn lemma_unwinding_step_nears_end(s: State, phase: Phase, limit: nat)
    requires
        valid(s),
        phase != Phase::Finished,
    ensures
        steps_left(teardown_of(s, phase, true, limit).0) < steps_left(phase),
{
    match phase {
        Phase::Cancelling(scan) => {
            lemma_batch_then_rest(s, scan.hi, batch_size(limit));
        },
        _ => {},
    }
}

/// A teardown during an unwind is over after as many steps as its bound is
/// high, and two more, whatever children are spawned or end between its
/// steps: it cannot hang.
pub proof fn lemma_unwinding_teardown_ends(trace: Seq<State>, phase: Phase, limit: nat)
    requires
        forall|i: int| 0 <= i < trace.len() ==> valid(#[trigger] trace[i]),
        trace.len() >= steps_left(phase),
    ensures
        phase_after(trace, phase, true, limit) == Phase::Finished,
    decreases trace.len(),
{
    if trace.len() > 0 {
        let next = teardown_of(trace[0], phase, true, limit).0;
        if phase != Phase::Finished {
            lemma_unwinding_step_nears_end(trace[0], phase, limit);
        }
        let later = trace.drop_first();
        assert forall|i: int| 0 <= i < later.len() implies valid(#[trigger] later[i]) by {
            assert(later[i] == trace[i + 1]);
        }
        lemma_unwinding_teardown_ends(later, next, limit);
    }
}

} // verus!
