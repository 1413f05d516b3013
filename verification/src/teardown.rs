//! The end of a controller's life, one step at a time.
//!
//! A controller that ends asks its children to unwind, batch by batch, and
//! then gives way to them until none is registered; during an unwind it asks
//! and does not wait. It never joins a child: each child's own end does
//! that. Every step is taken under exclusive access to the controller, and
//! what the step asks for is done outside it.

use crate::manager::{drain_of, Drain, Manager, Scan};
use crate::model::{batch_at, bound_after, State};
use crate::registry::keys;
use vstd::prelude::*;

verus! {

/// Where a controller stands in its teardown.
#[derive(Debug)]
pub enum Phase {
    /// It is asking its children to unwind, and has come as far as the scan
    /// says.
    Cancelling(Scan),
    /// It has asked every child, and waits for the registry to empty.
    Draining,
    /// It is done.
    Finished,
}

/// What one step of a teardown asks for, to its contracts.
pub enum Action {
    /// Ask the children with these ids to unwind.
    Cancel(Seq<u64>),
    /// Give way to the children, then take the next step.
    Yield,
    /// Nothing more: the teardown is over.
    Done,
}

/// What one step of a teardown asks for.
#[derive(Debug)]
pub enum Step<'a, H> {
    /// Ask these children to unwind: each is given as its id and its handle.
    Cancel(Vec<(u64, &'a H)>),
    /// Give way to the children, then take the next step.
    Yield,
    /// Nothing more: the teardown is over.
    Done,
}

impl<'a, H> View for Step<'a, H> {
    type V = Action;

    open spec fn view(&self) -> Action {
        match self {
            Step::Cancel(targets) => Action::Cancel(keys(targets@)),
            Step::Yield => Action::Yield,
            Step::Done => Action::Done,
        }
    }
}

/// The size of the batches of a teardown: the limit, where zero is read as
/// one.
pub open spec fn batch_size(limit: nat) -> nat {
    if limit == 0 {
        1
    } else {
        limit
    }
}

/// The step of a teardown that has asked every child: during an unwind, and
/// where no child is registered, it is over; otherwise it waits.
pub open spec fn settle(s: State, unwinding: bool) -> (Phase, Action) {
    match drain_of(s, unwinding) {
        Drain::Done => (Phase::Finished, Action::Done),
        Drain::Yield => (Phase::Draining, Action::Yield),
    }
}

/// One step of a teardown in the state `s`: the phase after it, and what it
/// asks for. While cancelling it asks for the next batch; a batch that is
/// not full is the last one, and where no child is left to ask, the step is
/// that of a teardown that has asked every child.
pub open spec fn teardown_of(s: State, phase: Phase, unwinding: bool, limit: nat) -> (
    Phase,
    Action,
) {
    match phase {
        Phase::Cancelling(scan) => {
            let batch = batch_at(s, scan.hi, batch_size(limit));
            if batch.len() == 0 {
                settle(s, unwinding)
            } else if batch.len() < batch_size(limit) {
                (Phase::Draining, Action::Cancel(batch))
            } else {
                (Phase::Cancelling(Scan { hi: bound_after(batch, scan.hi) }), Action::Cancel(batch))
            }
        },
        Phase::Draining => settle(s, unwinding),
        Phase::Finished => (Phase::Finished, Action::Done),
    }
}

impl<H> Manager<H> {
    /// Starts the teardown: a bulk cancellation of the children that are
    /// registered now.
    pub fn begin_teardown(&self) -> (phase: Phase)
        ensures
            phase == Phase::Cancelling(Scan { hi: self@.next_id }),
    {
        Phase::Cancelling(self.begin_scan())
    }

    /// Takes one step of the teardown: returns the phase after it and what
    /// it asks for. With the children it asks to unwind come their handles.
    pub fn teardown_step(&self, phase: Phase, unwinding: bool, limit: usize) -> (next: (
        Phase,
        Step<'_, H>,
    ))
        requires
            self.wf(),
        ensures
            (next.0, next.1@) == teardown_of(self@, phase, unwinding, limit as nat),
            next.1 matches Step::Cancel(targets) ==> forall|k: int|
                0 <= k < targets.len() ==> *(#[trigger] targets[k]).1
                    == self.handles()[targets[k].0],
    {
        let size: usize = if limit == 0 {
            1
        } else {
            limit
        };
        match phase {
            Phase::Cancelling(scan) => {
                let mut scan = scan;
                let batch = self.scan_batch(&mut scan, size);
                if batch.len() == 0 {
                    self.settle_step(unwinding)
                } else if batch.len() < size {
                    (Phase::Draining, Step::Cancel(batch))
                } else {
                    (Phase::Cancelling(scan), Step::Cancel(batch))
                }
            },
            Phase::Draining => self.settle_step(unwinding),
            Phase::Finished => (Phase::Finished, Step::Done),
        }
    }

    /// The step of a teardown that has asked every child.
    fn settle_step(&self, unwinding: bool) -> (next: (Phase, Step<'_, H>))
        ensures
            (next.0, next.1@) == settle(self@, unwinding),
            !(next.1 is Cancel),
    {
        match self.drain_step(unwinding) {
            Drain::Done => (Phase::Finished, Step::Done),
            Drain::Yield => (Phase::Draining, Step::Yield),
        }
    }
}

} // verus!
