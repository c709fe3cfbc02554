//! Admission control: a cap on the number of transcoder processes that run
//! at the same time. A request that finds every slot taken is turned away.
use vstd::prelude::*;

verus! {

/// The count of running transcodings after one attempt to take a slot
/// (`true`) or to give one back (`false`).
pub open spec fn admission_next(running: nat, max_parallel: nat, acquire: bool) -> nat {
    if acquire {
        if running < max_parallel { running + 1 } else { running }
    } else {
        if running > 0 { (running - 1) as nat } else { 0 }
    }
}

/// The count of running transcodings after a sequence of attempts, in the
/// order in which they took effect.
pub open spec fn admission_run(running: nat, max_parallel: nat, ops: Seq<bool>) -> nat
    decreases ops.len(),
{
    if ops.len() == 0 {
        running
    } else {
        admission_run(admission_next(running, max_parallel, ops[0]), max_parallel, ops.drop_first())
    }
}

/// The running count never exceeds the cap, whatever the order in which
/// acquisitions and releases take effect.
pub proof fn lemma_running_bounded(running: nat, max_parallel: nat, ops: Seq<bool>)
    requires
        running <= max_parallel,
    ensures
        admission_run(running, max_parallel, ops) <= max_parallel,
    decreases ops.len(),
{
    if ops.len() > 0 {
        lemma_running_bounded(admission_next(running, max_parallel, ops[0]), max_parallel, ops.drop_first());
    }
}

/// One step of the compare-and-swap loop that takes a slot: given the
/// count last observed, the count to install, or `None` when every slot is
/// taken.
pub fn admission_step(observed: usize, max_parallel: usize) -> (r: Option<usize>)
    ensures
        r == if observed >= max_parallel { None } else { Some((observed + 1) as usize) },
{
    if observed >= max_parallel {
        None
    } else {
        Some(observed + 1)
    }
}

/// The number of running transcodings and its cap.
#[derive(Debug)]
pub struct AdmissionState {
    running: usize,
    max_parallel: usize,
}

impl View for AdmissionState {
    type V = (nat, nat);

    closed spec fn view(&self) -> (nat, nat) {
        (self.running as nat, self.max_parallel as nat)
    }
}

impl AdmissionState {
    /// At most `max_parallel` transcodings at a time; none runs yet.
    pub fn new(max_parallel: usize) -> (s: AdmissionState)
        ensures
            s@ == (0nat, max_parallel as nat),
    {
        AdmissionState { running: 0, max_parallel }
    }

    pub fn running(&self) -> (r: usize)
        ensures
            r == self@.0,
    {
        self.running
    }

    pub fn max_parallel(&self) -> (r: usize)
        ensures
            r == self@.1,
    {
        self.max_parallel
    }

    /// Takes a slot if one is free.
    pub fn try_acquire(&mut self) -> (r: bool)
        ensures
            r == (old(self)@.0 < old(self)@.1),
            final(self)@ == (admission_next(old(self)@.0, old(self)@.1, true), old(self)@.1),
    {
        match admission_step(self.running, self.max_parallel) {
            Some(n) => {
                self.running = n;
                true
            },
            None => false,
        }
    }

    /// Gives a slot back; returns whether one was taken.
    pub fn release(&mut self) -> (r: bool)
        ensures
            r == (old(self)@.0 > 0),
            final(self)@ == (admission_next(old(self)@.0, old(self)@.1, false), old(self)@.1),
    {
        if self.running > 0 {
            self.running = self.running - 1;
            true
        } else {
            false
        }
    }
}

} // verus!
