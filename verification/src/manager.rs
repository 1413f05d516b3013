//! The controller of a batch of child tasks, and the token of one child.
//!
//! The controller decides; whoever runs the tasks acts. It hands out an id
//! and a token for each child that is spawned, says which ids to cancel when
//! its life ends, and says what a child's end means for that child's handle.

use crate::model::{
    batch_at, bound_after, can_spawn, covered, descending, initial, lemma_released_valid,
    lemma_scan_start, lemma_scan_step, released, spawned, valid, State,
};
use crate::registry::{keys, lemma_keys_concat, Registry};
use vstd::prelude::*;

verus! {

/// The token of one child task. It is made when the child is spawned, moves
/// into the child, and is given back once, when the child ends.
#[derive(Debug)]
pub struct SubCo {
    id: u64,
}

impl View for SubCo {
    type V = u64;

    closed spec fn view(&self) -> u64 {
        self.id
    }
}

impl SubCo {
    /// The id of the child that holds this token.
    pub fn id(&self) -> (id: u64)
        ensures
            id == self@,
    {
        self.id
    }
}

/// What the end of a child means for its handle.
#[derive(Debug, PartialEq, Eq)]
pub enum Release<H> {
    /// The child was deregistered by this call: here is its handle, to join.
    Join(H),
    /// The child was deregistered by this call, during an unwind: here is
    /// its handle, to let go without joining it.
    Leak(H),
    /// The child was not registered: there is nothing to do.
    Gone,
}

/// What `release` answers for the child `id` in the state `s`, where
/// `handles` holds the handle of each registered child.
pub open spec fn release_of<H>(s: State, handles: Map<u64, H>, id: u64, unwinding: bool) -> Release<
    H,
> {
    if !s.live.contains(id) {
        Release::Gone
    } else if unwinding {
        Release::Leak(handles[id])
    } else {
        Release::Join(handles[id])
    }
}

/// What a controller that is ending does next.
#[derive(Clone, Copy, Debug, PartialEq, Eq, Structural)]
pub enum Drain {
    /// Children are still registered: give way to them and ask again.
    Yield,
    /// There is nothing to wait for, or waiting is not allowed.
    Done,
}

/// What `drain_step` answers in the state `s`.
pub open spec fn drain_of(s: State, unwinding: bool) -> Drain {
    if unwinding || s.live.len() == 0 {
        Drain::Done
    } else {
        Drain::Yield
    }
}

/// How far one bulk cancellation has come: the ids that it has still to
/// visit are those below its bound.
#[derive(Debug)]
pub struct Scan {
    pub hi: u64,
}

impl View for Scan {
    type V = u64;

    open spec fn view(&self) -> u64 {
        self.hi
    }
}

impl Scan {
    /// The bound: every id that is still to visit lies below it.
    pub fn bound(&self) -> (hi: u64)
        ensures
            hi == self@,
    {
        self.hi
    }
}

/// The controller of a batch of child tasks: it holds a handle of type `H`
/// for each child that is registered.
pub struct Manager<H> {
    next_id: u64,
    registry: Registry<H>,
}

impl<H> View for Manager<H> {
    type V = State;

    closed spec fn view(&self) -> State {
        State { next_id: self.next_id, live: self.registry@ }
    }
}

impl<H> Manager<H> {
    /// The handle of each registered child, by the child's id.
    pub closed spec fn handles(&self) -> Map<u64, H> {
        self.registry.handles()
    }

    /// The live ids are in the order in which they were handed out, and the
    /// next id is greater than all of them.
    pub closed spec fn wf(&self) -> bool {
        &&& valid(self@)
        &&& self.registry.wf()
    }

    /// A well-formed controller has a valid state, and holds a handle for
    /// the registered children and for no others.
    pub proof fn lemma_wf_valid(&self)
        requires
            self.wf(),
        ensures
            valid(self@),
            self@.live.no_duplicates(),
            forall|id: u64| self.handles().dom().contains(id) <==> self@.live.contains(id),
    {
        self.registry.lemma_wf();
    }

    /// A controller with no child.
    pub fn new() -> (manager: Self)
        ensures
            manager@ == initial(),
            manager.handles() == Map::<u64, H>::empty(),
            manager.wf(),
    {
        proof {
            reveal(descending);
        }
        Manager { next_id: 0, registry: Registry::new() }
    }

    /// A controller with no child, whose first child gets the id `first`.
    pub fn with_first_id(first: u64) -> (manager: Self)
        ensures
            manager@ == (State { next_id: first, live: Seq::empty() }),
            manager.handles() == Map::<u64, H>::empty(),
            manager.wf(),
    {
        proof {
            reveal(descending);
        }
        Manager { next_id: first, registry: Registry::new() }
    }

    /// Registers one more child with its handle and returns the child's
    /// token. The child gets the next id, which no child had before. Returns
    /// `None`, and changes nothing, where every id has been handed out.
    pub fn add(&mut self, handle: H) -> (token: Option<SubCo>)
        requires
            old(self).wf(),
        ensures
            final(self).wf(),
            final(self)@ == spawned(old(self)@),
            token.is_some() == can_spawn(old(self)@),
            token matches Some(t) ==> t@ == old(self)@.next_id,
            final(self).handles() == if can_spawn(old(self)@) {
                old(self).handles().insert(old(self)@.next_id, handle)
            } else {
                old(self).handles()
            },
    {
        if self.next_id == u64::MAX {
            return None;
        }
        let id = self.next_id;
        proof {
            let live = self.registry@;
            if live.contains(id) {
                let j = choose|j: int| 0 <= j < live.len() && live[j] == id;
                assert(live[j] < self.next_id);
            }
        }
        self.registry.insert(id, handle);
        self.next_id = id + 1;
        proof {
            reveal(descending);
            let before = old(self)@.live;
            let after = self@.live;
            assert forall|i: int, j: int| 0 <= i < j < after.len() implies after[i] > after[j] by {
                assert(after[j] == before[j - 1]);
                if i > 0 {
                    assert(after[i] == before[i - 1]);
                }
            }
            assert forall|i: int| 0 <= i < after.len() implies after[i] < self.next_id by {
                if i > 0 {
                    assert(after[i] == before[i - 1]);
                }
            }
        }
        Some(SubCo { id })
    }

    /// Takes the token of a child that has ended and deregisters the child.
    /// The first token given back for a registered child takes that child
    /// out, and the answer hands over its handle and says what to do with
    /// it: join it, or, during an unwind, let it go. Any other token changes
    /// nothing.
    pub fn release(&mut self, token: SubCo, unwinding: bool) -> (outcome: Release<H>)
        requires
            old(self).wf(),
        ensures
            final(self).wf(),
            final(self)@ == released(old(self)@, token@),
            final(self).handles() == old(self).handles().remove(token@),
            outcome == release_of(old(self)@, old(self).handles(), token@, unwinding),
    {
        let id = token.id;
        proof {
            lemma_released_valid(self@, id);
        }
        match self.registry.remove(id) {
            None => Release::Gone,
            Some(handle) => if unwinding {
                Release::Leak(handle)
            } else {
                Release::Join(handle)
            },
        }
    }

    /// The handle of the child `id`, if that child is registered.
    pub fn handle(&self, id: u64) -> (handle: Option<&H>)
        requires
            self.wf(),
        ensures
            handle.is_some() == self@.live.contains(id),
            handle matches Some(h) ==> *h == self.handles()[id],
    {
        self.registry.get(id)
    }

    /// Starts a bulk cancellation: its bound is the next id, so that it
    /// visits the children that are registered now and none that is spawned
    /// later.
    pub fn begin_scan(&self) -> (scan: Scan)
        ensures
            scan@ == self@.next_id,
    {
        Scan { hi: self.next_id }
    }

    /// The next batch of a bulk cancellation: up to `limit` registered
    /// children with an id below the scan's bound, the newest first, each as
    /// its id and its handle. The bound then drops to the last id of the
    /// batch. A batch shorter than `limit` is the last one.
    pub fn scan_batch(&self, scan: &mut Scan, limit: usize) -> (batch: Vec<(u64, &H)>)
        requires
            self.wf(),
        ensures
            keys(batch@) == batch_at(self@, old(scan)@, limit as nat),
            final(scan)@ == bound_after(keys(batch@), old(scan)@),
            forall|k: int|
                0 <= k < batch.len() ==> *(#[trigger] batch[k]).1 == self.handles()[batch[k].0],
    {
        let batch = self.registry.range_scan(0, scan.hi, limit);
        if batch.len() > 0 {
            scan.hi = batch[batch.len() - 1].0;
        }
        batch
    }

    /// A whole bulk cancellation, made of batches of `limit` children: the
    /// children to cancel, which are all the registered ones, the newest
    /// first, each as its id and its handle. A limit of zero is read as one.
    pub fn cancel_all(&self, limit: usize) -> (targets: Vec<(u64, &H)>)
        requires
            self.wf(),
        ensures
            keys(targets@) == self@.live,
            forall|k: int|
                0 <= k < targets.len() ==> *(#[trigger] targets[k]).1 == self.handles()[targets[k].0],
    {
        let size: usize = if limit == 0 {
            1
        } else {
            limit
        };
        let mut scan = self.begin_scan();
        let mut targets: Vec<(u64, &H)> = Vec::new();
        proof {
            lemma_scan_start(self@);
            assert(keys(targets@) =~= Seq::<u64>::empty());
        }
        loop
            invariant
                self.wf(),
                size > 0,
                covered(self@, keys(targets@), scan@),
                forall|k: int|
                    0 <= k < targets.len() ==> *(#[trigger] targets[k]).1
                        == self.handles()[targets[k].0],
            decreases scan@,
        {
            let ghost seen = targets@;
            proof {
                self.lemma_wf_valid();
                lemma_scan_step(self@, keys(seen), scan@, size as nat);
            }
            let mut batch = self.scan_batch(&mut scan, size);
            let ghost taken = batch@;
            let full = batch.len() == size;
            targets.append(&mut batch);
            proof {
                assert(targets@ == seen + taken);
                lemma_keys_concat(seen, taken);
                assert(keys(taken).len() == taken.len());
                assert forall|k: int| 0 <= k < targets.len() implies *(#[trigger] targets[k]).1
                    == self.handles()[targets[k].0] by {
                    if k < seen.len() {
                        assert(targets[k] == seen[k]);
                    } else {
                        assert(targets[k] == taken[k - seen.len()]);
                    }
                }
            }
            if !full {
                return targets;
            }
        }
    }

    /// What the controller does once the cancellations are issued: during an
    /// unwind it never waits; otherwise it gives way to the children for as
    /// long as one is registered.
    pub fn drain_step(&self, unwinding: bool) -> (step: Drain)
        ensures
            step == drain_of(self@, unwinding),
    {
        if unwinding || self.registry.is_empty() {
            Drain::Done
        } else {
            Drain::Yield
        }
    }

    /// Whether the child `id` is registered.
    pub fn is_live(&self, id: u64) -> (live: bool)
        ensures
            live == self@.live.contains(id),
    {
        self.registry.contains(id)
    }

    /// Whether no child is registered.
    pub fn is_empty(&self) -> (empty: bool)
        ensures
            empty == (self@.live.len() == 0),
    {
        self.registry.is_empty()
    }

    /// How many children are registered.
    pub fn len(&self) -> (n: usize)
        ensures
            n == self@.live.len(),
    {
        self.registry.len()
    }

    /// The ids of the registered children, the newest first.
    pub fn live_ids(&self) -> (ids: Vec<u64>)
        ensures
            ids@ == self@.live,
    {
        self.registry.ids()
    }

    /// The id that the next child gets.
    pub fn next_id(&self) -> (id: u64)
        ensures
            id == self@.next_id,
    {
        self.next_id
    }
}

impl<H> Default for Manager<H> {
    /// A controller with no child.
    fn default() -> (manager: Self)
        ensures
            manager@ == initial(),
            manager.handles() == Map::<u64, H>::empty(),
            manager.wf(),
    {
        Manager::new()
    }
}

} // verus!
