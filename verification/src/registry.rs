//! The registry of live tasks: the id of each and the handle that goes
//! with it.
//!
//! A registry is read and changed under exclusive access: whoever shares one
//! between tasks holds it for one short operation at a time. A scan is
//! bounded for that reason: it hands out a batch and is over.

use crate::list::{
    list_ids, list_is_empty, list_new, list_push_front, list_remove_at, list_snapshot,
};
use rcu_list::d_list::LinkedList;
use vstd::prelude::*;

verus! {

/// The predicate "lies in `[lo, hi)`".
pub open spec fn within(lo: u64, hi: u64) -> spec_fn(u64) -> bool {
    |id: u64| lo <= id && id < hi
}

/// The predicate "is another id than `id`".
pub open spec fn other_than(id: u64) -> spec_fn(u64) -> bool {
    |x: u64| x != id
}

/// The ids of `ids` that lie in `[lo, hi)`, in the order they have in `ids`.
pub open spec fn in_range(ids: Seq<u64>, lo: u64, hi: u64) -> Seq<u64> {
    ids.filter(within(lo, hi))
}

/// `ids` without `id`.
pub open spec fn without(ids: Seq<u64>, id: u64) -> Seq<u64> {
    ids.filter(other_than(id))
}

/// The first `limit` items of `ids`, or all of them where there are fewer.
pub open spec fn first_n(ids: Seq<u64>, limit: nat) -> Seq<u64> {
    if limit >= ids.len() {
        ids
    } else {
        ids.take(limit as int)
    }
}

/// The ids of a run of entries, in their order.
pub open spec fn keys<H>(entries: Seq<(u64, &H)>) -> Seq<u64> {
    Seq::new(entries.len(), |i: int| entries[i].0)
}

/// The ids of two runs of entries, one after the other.
pub proof fn lemma_keys_concat<H>(a: Seq<(u64, &H)>, b: Seq<(u64, &H)>)
    ensures
        keys(a + b) == keys(a) + keys(b),
{
    assert(keys(a + b) =~= keys(a) + keys(b));
}

/// Filtering out an id that does not occur changes nothing.
pub proof fn lemma_without_absent(ids: Seq<u64>, id: u64)
    requires
        !ids.contains(id),
    ensures
        without(ids, id) == ids,
    decreases ids.len(),
{
    if ids.len() == 0 {
        reveal(Seq::filter);
    } else {
        let init = ids.drop_last();
        let last = ids.last();
        assert(ids == init.push(last));
        assert(last != id);
        assert forall|x: u64| init.contains(x) implies ids.contains(x) by {
            let j = choose|j: int| 0 <= j < init.len() && init[j] == x;
            assert(ids[j] == x);
        }
        lemma_without_absent(init, id);
        init.lemma_filter_push(last, other_than(id));
    }
}

/// Where no id occurs twice, filtering out the id at position `at` is
/// removing that position.
pub proof fn lemma_without_at(ids: Seq<u64>, at: int)
    requires
        ids.no_duplicates(),
        0 <= at < ids.len(),
    ensures
        without(ids, ids[at]) == ids.remove(at),
    decreases ids.len(),
{
    let id = ids[at];
    let init = ids.drop_last();
    let last = ids.last();
    assert(ids == init.push(last));
    init.lemma_filter_push(last, other_than(id));
    if at == ids.len() - 1 {
        assert(!init.contains(id)) by {
            if init.contains(id) {
                let j = choose|j: int| 0 <= j < init.len() && init[j] == id;
                assert(ids[j] == ids[at]);
            }
        }
        lemma_without_absent(init, id);
        assert(ids.remove(at) =~= init);
    } else {
        assert(init[at] == id);
        assert(last != id);
        lemma_without_at(init, at);
        assert(ids.remove(at) =~= init.remove(at).push(last));
    }
}

/// What is left after filtering out an id holds that id no more, holds every
/// other id that was there, and repeats nothing that was not repeated.
pub proof fn lemma_without_properties(ids: Seq<u64>, id: u64)
    ensures
        !without(ids, id).contains(id),
        forall|x: u64| x != id ==> (without(ids, id).contains(x) <==> ids.contains(x)),
        ids.no_duplicates() ==> without(ids, id).no_duplicates(),
        without(ids, id).len() <= ids.len(),
        ids.no_duplicates() && ids.contains(id) ==> without(ids, id).len() + 1 == ids.len(),
{
    let rest = without(ids, id);
    ids.lemma_filter_len(other_than(id));
    if rest.contains(id) {
        let j = choose|j: int| 0 <= j < rest.len() && rest[j] == id;
        ids.lemma_filter_pred(other_than(id), j);
    }
    assert forall|x: u64| x != id implies (rest.contains(x) <==> ids.contains(x)) by {
        if rest.contains(x) {
            ids.lemma_filter_contains_rev(other_than(id), x);
        }
        if ids.contains(x) {
            let j = choose|j: int| 0 <= j < ids.len() && ids[j] == x;
            ids.lemma_filter_contains(other_than(id), j);
        }
    }
    if ids.no_duplicates() {
        if ids.contains(id) {
            let at = choose|j: int| 0 <= j < ids.len() && ids[j] == id;
            lemma_without_at(ids, at);
            ids.remove_ensures(at);
        } else {
            lemma_without_absent(ids, id);
        }
    }
}

/// Where `id` stands in `ids`, if it does.
pub fn position(ids: &Vec<u64>, id: u64) -> (at: Option<usize>)
    ensures
        at.is_some() == ids@.contains(id),
        at matches Some(i) ==> i < ids.len() && ids[i as int] == id && !ids@.take(i as int).contains(
            id,
        ),
{
    let mut i: usize = 0;
    while i < ids.len()
        invariant
            i <= ids.len(),
            forall|j: int| 0 <= j < i ==> ids[j] != id,
        decreases ids.len() - i,
    {
        if ids[i] == id {
            assert(ids@.contains(id));
            return Some(i);
        }
        i += 1;
    }
    None
}

/// The registry of live tasks: the id of each, the newest first, and the
/// handle that was registered with it.
pub struct Registry<H> {
    list: LinkedList<u64>,
    handles: Vec<H>,
    by_id: Ghost<Map<u64, H>>,
}

impl<H> View for Registry<H> {
    type V = Seq<u64>;

    /// The registered ids, the newest first.
    closed spec fn view(&self) -> Seq<u64> {
        list_ids(self.list)
    }
}

impl<H> Registry<H> {
    /// The handle of each registered id.
    pub closed spec fn handles(&self) -> Map<u64, H> {
        self.by_id@
    }

    /// No id is registered twice, and each registered id has its handle.
    pub closed spec fn wf(&self) -> bool {
        &&& self@.no_duplicates()
        &&& self.handles@.len() == self@.len()
        &&& forall|i: int|
            0 <= i < self@.len() ==> self.by_id@.dom().contains(#[trigger] self@[i])
                && self.by_id@[self@[i]] == self.handles@[i]
        &&& forall|id: u64| self.by_id@.dom().contains(id) ==> self@.contains(id)
    }

    /// In a well-formed registry no id occurs twice, and the ids that have a
    /// handle are the registered ones.
    pub proof fn lemma_wf(&self)
        requires
            self.wf(),
        ensures
            self@.no_duplicates(),
            forall|id: u64| self.handles().dom().contains(id) <==> self@.contains(id),
    {
        assert forall|id: u64| self@.contains(id) implies self.handles().dom().contains(id) by {
            let i = choose|i: int| 0 <= i < self@.len() && self@[i] == id;
            assert(self.by_id@.dom().contains(self@[i]));
        }
    }

    /// A registry with nothing in it.
    pub fn new() -> (registry: Self)
        ensures
            registry@ == Seq::<u64>::empty(),
            registry.handles() == Map::<u64, H>::empty(),
            registry.wf(),
    {
        Registry { list: list_new(), handles: Vec::new(), by_id: Ghost(Map::empty()) }
    }

    /// Whether no id is registered.
    pub fn is_empty(&self) -> (empty: bool)
        ensures
            empty == (self@.len() == 0),
    {
        list_is_empty(&self.list)
    }

    /// The registered ids, the newest first.
    pub fn ids(&self) -> (ids: Vec<u64>)
        ensures
            ids@ == self@,
    {
        list_snapshot(&self.list)
    }

    /// Whether `id` is registered.
    pub fn contains(&self, id: u64) -> (found: bool)
        ensures
            found == self@.contains(id),
    {
        let ids = list_snapshot(&self.list);
        position(&ids, id).is_some()
    }

    /// The handle that is registered with `id`, if `id` is registered.
    pub fn get(&self, id: u64) -> (handle: Option<&H>)
        requires
            self.wf(),
        ensures
            handle.is_some() == self@.contains(id),
            handle matches Some(h) ==> *h == self.handles()[id],
    {
        let ids = list_snapshot(&self.list);
        match position(&ids, id) {
            Some(at) => {
                assert(self@[at as int] == id);
                Some(&self.handles[at])
            },
            None => None,
        }
    }

    /// Registers `id` with its handle, in front of the others. The id is a
    /// new one: to register an id twice is a fault of the caller.
    pub fn insert(&mut self, id: u64, handle: H)
        requires
            old(self).wf(),
            !old(self)@.contains(id),
        ensures
            final(self)@ == seq![id] + old(self)@,
            final(self).handles() == old(self).handles().insert(id, handle),
            final(self).wf(),
    {
        list_push_front(&mut self.list, id);
        self.handles.insert(0, handle);
        self.by_id = Ghost(self.by_id@.insert(id, handle));
        proof {
            let before = old(self)@;
            let after = self@;
            assert forall|i: int, j: int|
                0 <= i < after.len() && 0 <= j < after.len() && i != j implies after[i]
                != after[j] by {
                if i > 0 {
                    assert(after[i] == before[i - 1]);
                }
                if j > 0 {
                    assert(after[j] == before[j - 1]);
                }
            }
            assert forall|i: int| 0 <= i < after.len() implies self.by_id@.dom().contains(
                #[trigger] after[i],
            ) && self.by_id@[after[i]] == self.handles@[i] by {
                if i > 0 {
                    assert(after[i] == before[i - 1]);
                    assert(old(self).by_id@.dom().contains(before[i - 1]));
                }
            }
            assert forall|x: u64| self.by_id@.dom().contains(x) implies after.contains(x) by {
                if x == id {
                    assert(after[0] == id);
                } else {
                    assert(old(self).by_id@.dom().contains(x));
                    assert(before.contains(x));
                    let j = choose|j: int| 0 <= j < before.len() && before[j] == x;
                    assert(after[j + 1] == x);
                }
            }
        }
    }

    /// Takes `id` out and returns its handle. Where `id` is not registered,
    /// returns `None` and changes nothing.
    pub fn remove(&mut self, id: u64) -> (handle: Option<H>)
        requires
            old(self).wf(),
        ensures
            handle.is_some() == old(self)@.contains(id),
            handle matches Some(h) ==> h == old(self).handles()[id],
            final(self)@ == without(old(self)@, id),
            final(self).handles() == old(self).handles().remove(id),
            final(self).wf(),
    {
        let ids = list_snapshot(&self.list);
        proof {
            lemma_without_properties(ids@, id);
            old(self).lemma_wf();
        }
        match position(&ids, id) {
            Some(at) => {
                proof {
                    lemma_without_at(ids@, at as int);
                    ids@.remove_ensures(at as int);
                }
                list_remove_at(&mut self.list, at);
                let handle = self.handles.remove(at);
                self.by_id = Ghost(self.by_id@.remove(id));
                proof {
                    let before = old(self)@;
                    let after = self@;
                    assert(before[at as int] == id);
                    assert forall|i: int| 0 <= i < after.len() implies self.by_id@.dom().contains(
                        #[trigger] after[i],
                    ) && self.by_id@[after[i]] == self.handles@[i] by {
                        let k = if i < at { i } else { i + 1 };
                        assert(after[i] == before[k]);
                        assert(old(self).by_id@.dom().contains(before[k]));
                        assert(before[k] != before[at as int]);
                    }
                    assert forall|x: u64| self.by_id@.dom().contains(x) implies after.contains(
                        x,
                    ) by {
                        assert(before.contains(x));
                    }
                }
                Some(handle)
            },
            None => {
                proof {
                    lemma_without_absent(ids@, id);
                    assert(self.by_id@.remove(id) =~= self.by_id@);
                }
                None
            },
        }
    }

    /// Up to `limit` of the registered ids that lie in `[lo, hi)`, each with
    /// its handle: the first ones in the registry's order.
    pub fn range_scan(&self, lo: u64, hi: u64, limit: usize) -> (batch: Vec<(u64, &H)>)
        requires
            self.wf(),
        ensures
            keys(batch@) == first_n(in_range(self@, lo, hi), limit as nat),
            forall|k: int|
                0 <= k < batch.len() ==> *(#[trigger] batch[k]).1 == self.handles()[batch[k].0],
    {
        let ids = list_snapshot(&self.list);
        let mut batch: Vec<(u64, &H)> = Vec::new();
        let mut i: usize = 0;
        proof {
            reveal(Seq::filter);
            assert(ids@.take(0) =~= Seq::<u64>::empty());
            assert(keys(batch@) =~= Seq::<u64>::empty());
        }
        while i < ids.len() && batch.len() < limit
            invariant
                self.wf(),
                ids@ == self@,
                i <= ids.len(),
                batch.len() <= limit,
                keys(batch@) == in_range(ids@.take(i as int), lo, hi),
                forall|k: int|
                    0 <= k < batch.len() ==> *(#[trigger] batch[k]).1 == self.by_id@[batch[k].0],
            decreases ids.len() - i,
        {
            let id = ids[i];
            proof {
                assert(ids@.take(i + 1) =~= ids@.take(i as int).push(id));
                ids@.take(i as int).lemma_filter_push(id, within(lo, hi));
                assert(self@[i as int] == id);
            }
            if lo <= id && id < hi {
                let ghost before = batch@;
                batch.push((id, &self.handles[i]));
                assert(keys(batch@) =~= keys(before).push(id));
            }
            i += 1;
        }
        proof {
            let head = ids@.take(i as int);
            let tail = ids@.skip(i as int);
            assert(ids@ =~= head + tail);
            Seq::filter_distributes_over_add(head, tail, within(lo, hi));
            let all = in_range(ids@, lo, hi);
            assert(all == keys(batch@) + in_range(tail, lo, hi));
            if i == ids.len() {
                assert(tail =~= Seq::<u64>::empty());
                reveal(Seq::filter);
                assert(all =~= keys(batch@));
            } else {
                assert(batch.len() == limit);
                assert(all.take(limit as int) =~= keys(batch@));
            }
        }
        batch
    }

    /// How many ids are registered.
    pub fn len(&self) -> (n: usize)
        ensures
            n == self@.len(),
    {
        list_snapshot(&self.list).len()
    }
}

} // verus!
