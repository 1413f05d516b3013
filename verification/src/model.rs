//! The controller as a mathematical state, and the steps that change it.

use crate::registry::{
    first_n, in_range, lemma_without_absent, lemma_without_at, within, without,
};
use vstd::prelude::*;

verus! {

/// What a controller is to its contracts: the id that the next child gets,
/// and the ids of the live children, the newest first.
pub struct State {
    pub next_id: u64,
    pub live: Seq<u64>,
}

/// Every id is greater than those behind it.
#[verifier::opaque]
pub open spec fn descending(ids: Seq<u64>) -> bool {
    forall|i: int, j: int| 0 <= i < j < ids.len() ==> ids[i] > ids[j]
}

/// The live ids were handed out in order and the next one is still unused.
pub open spec fn valid(s: State) -> bool {
    &&& descending(s.live)
    &&& forall|i: int| 0 <= i < s.live.len() ==> s.live[i] < s.next_id
}

/// The state of a controller that has spawned nothing yet.
pub open spec fn initial() -> State {
    State { next_id: 0, live: Seq::empty() }
}

/// Whether an id is left for another child.
pub open spec fn can_spawn(s: State) -> bool {
    s.next_id < u64::MAX
}

/// The state after one more child was spawned; where no id is left, the
/// state as it was.
pub open spec fn spawned(s: State) -> State {
    if can_spawn(s) {
        State { next_id: (s.next_id + 1) as u64, live: seq![s.next_id] + s.live }
    } else {
        s
    }
}

/// The state after the child `id` was deregistered.
pub open spec fn released(s: State, id: u64) -> State {
    State { next_id: s.next_id, live: without(s.live, id) }
}

/// One batch of a bulk cancellation: up to `limit` of the live ids below the
/// bound `hi`, the newest first.
pub open spec fn batch_at(s: State, hi: u64, limit: nat) -> Seq<u64> {
    first_n(in_range(s.live, 0, hi), limit)
}

/// The bound for the batch after `batch`: its last, and so its least, id.
pub open spec fn bound_after(batch: Seq<u64>, hi: u64) -> u64 {
    if batch.len() == 0 {
        hi
    } else {
        batch.last()
    }
}

/// Ids in descending order are all different.
pub proof fn lemma_descending_is_unique(ids: Seq<u64>)
    requires
        descending(ids),
    ensures
        ids.no_duplicates(),
{
    reveal(descending);
    assert forall|i: int, j: int| 0 <= i < ids.len() && 0 <= j < ids.len() && i != j implies ids[i]
        != ids[j] by {
        if i < j {
            assert(ids[i] > ids[j]);
        } else {
            assert(ids[j] > ids[i]);
        }
    }
}

/// Deregistering a child leaves a valid state valid.
pub proof fn lemma_released_valid(s: State, id: u64)
    requires
        valid(s),
    ensures
        valid(released(s, id)),
{
    reveal(descending);
    lemma_descending_is_unique(s.live);
    if s.live.contains(id) {
        let at = choose|j: int| 0 <= j < s.live.len() && s.live[j] == id;
        lemma_without_at(s.live, at);
        s.live.remove_ensures(at);
        let rest = s.live.remove(at);
        assert forall|i: int, j: int| 0 <= i < j < rest.len() implies rest[i] > rest[j] by {
            let a = if i < at { i } else { i + 1 };
            let b = if j < at { j } else { j + 1 };
            assert(rest[i] == s.live[a]);
            assert(rest[j] == s.live[b]);
        }
        assert forall|i: int| 0 <= i < rest.len() implies rest[i] < s.next_id by {
            let a = if i < at { i } else { i + 1 };
            assert(rest[i] == s.live[a]);
        }
    } else {
        lemma_without_absent(s.live, id);
    }
}

/// In a descending sequence the ids below a bound are the tail from some
/// position on: the position is returned.
pub proof fn lemma_below_is_tail(ids: Seq<u64>, hi: u64) -> (from: int)
    requires
        descending(ids),
    ensures
        0 <= from <= ids.len(),
        forall|j: int| 0 <= j < from ==> ids[j] >= hi,
        forall|j: int| from <= j < ids.len() ==> ids[j] < hi,
        in_range(ids, 0, hi) == ids.skip(from),
    decreases ids.len(),
{
    reveal(descending);
    if ids.len() == 0 {
        reveal(Seq::filter);
        assert(ids.skip(0) =~= ids);
        0
    } else {
        let init = ids.drop_last();
        let last = ids.last();
        assert(ids == init.push(last));
        assert(descending(init)) by {
            assert forall|i: int, j: int| 0 <= i < j < init.len() implies init[i] > init[j] by {
                assert(init[i] == ids[i] && init[j] == ids[j]);
            }
        }
        let at = lemma_below_is_tail(init, hi);
        init.lemma_filter_push(last, within(0, hi));
        if last < hi {
            assert(ids.skip(at) =~= init.skip(at).push(last));
            at
        } else {
            if at < init.len() {
                assert(init[at] == ids[at]);
                assert(ids[at] > ids[ids.len() - 1]);
            }
            assert(init.skip(at) =~= Seq::<u64>::empty());
            assert(ids.skip(ids.len() as int) =~= Seq::<u64>::empty());
            ids.len() as int
        }
    }
}

/// One batch splits the live ids below the bound in two: the batch, and the
/// live ids below the bound that the batch leaves behind. A batch that is not
/// full leaves none behind; a full one lowers the bound.
pub proof fn lemma_batch_then_rest(s: State, hi: u64, limit: nat)
    requires
        valid(s),
        limit > 0,
    ensures
        batch_at(s, hi, limit).len() <= limit,
        batch_at(s, hi, limit).len() < limit ==> in_range(s.live, 0, hi) == batch_at(s, hi, limit),
        batch_at(s, hi, limit).len() == limit ==> {
            &&& bound_after(batch_at(s, hi, limit), hi) < hi
            &&& in_range(s.live, 0, hi) == batch_at(s, hi, limit) + in_range(
                s.live,
                0,
                bound_after(batch_at(s, hi, limit), hi),
            )
        },
{
    reveal(descending);
    let ids = s.live;
    let below = in_range(ids, 0, hi);
    let batch = batch_at(s, hi, limit);
    let from = lemma_below_is_tail(ids, hi);
    if batch.len() == limit {
        let bound = bound_after(batch, hi);
        let cut = from + limit;
        assert(batch == below.take(limit as int));
        assert(bound == below[limit - 1]);
        assert(bound == ids[cut - 1]);
        let next = lemma_below_is_tail(ids, bound);
        assert(next == cut) by {
            if next < cut {
                assert(ids[cut - 1] < bound);
            }
            if next > cut {
                assert(ids[cut] >= bound);
                assert(ids[cut - 1] > ids[cut]);
            }
        }
        assert(below =~= batch + ids.skip(cut));
    }
}

/// A bulk cancellation that has visited `seen` and has the bound `hi` misses
/// nothing: the ids it has visited, then the live ids below its bound, are
/// the live ids.
#[verifier::opaque]
pub open spec fn covered(s: State, seen: Seq<u64>, hi: u64) -> bool {
    seen + in_range(s.live, 0, hi) == s.live
}

/// A bulk cancellation that starts at the next id has every live id before it.
pub proof fn lemma_scan_start(s: State)
    requires
        valid(s),
    ensures
        covered(s, Seq::empty(), s.next_id),
{
    reveal(covered);
    let from = lemma_below_is_tail(s.live, s.next_id);
    if from > 0 {
        assert(s.live[0] < s.next_id);
    }
    assert(s.live.skip(0) =~= s.live);
    assert(Seq::<u64>::empty() + s.live =~= s.live);
}

/// One batch keeps a bulk cancellation complete: after a full batch it still
/// misses nothing, with a lower bound; after a batch that is not full it has
/// visited every live id.
pub proof fn lemma_scan_step(s: State, seen: Seq<u64>, hi: u64, limit: nat)
    requires
        valid(s),
        limit > 0,
        covered(s, seen, hi),
    ensures
        batch_at(s, hi, limit).len() <= limit,
        batch_at(s, hi, limit).len() < limit ==> seen + batch_at(s, hi, limit) == s.live,
        batch_at(s, hi, limit).len() == limit ==> {
            &&& bound_after(batch_at(s, hi, limit), hi) < hi
            &&& covered(s, seen + batch_at(s, hi, limit), bound_after(batch_at(s, hi, limit), hi))
        },
{
    reveal(covered);
    let batch = batch_at(s, hi, limit);
    let below = in_range(s.live, 0, hi);
    lemma_batch_then_rest(s, hi, limit);
    if batch.len() == limit {
        let rest = in_range(s.live, 0, bound_after(batch, hi));
        assert(below == batch + rest);
        lemma_concat_assoc(seen, batch, rest);
    } else {
        assert(below == batch);
    }
}

/// Appending is associative.
pub proof fn lemma_concat_assoc(a: Seq<u64>, b: Seq<u64>, c: Seq<u64>)
    ensures
        (a + b) + c == a + (b + c),
{
    assert((a + b) + c =~= a + (b + c));
}

} // verus!
