//! Admission of writes while a bucket may be dropped.
use vstd::prelude::*;

use crate::error::{Error, ErrorKind, Result};

verus! {

/// Counts the writes in progress and tells whether the bucket is being dropped.
#[derive(Debug)]
pub struct LsmLifecycle {
    /// Whether a drop is in progress or done.
    pub dropping: bool,
    /// Writes that were admitted and not released yet.
    pub active_writes: usize,
    /// Tasks to wake once no write is in progress, by number.
    pub drain_wakers: Vec<u64>,
}

/// Permission for one write, from its preparation until its records are readable.
///
/// Released through [`LsmLifecycle::release_write`].
#[derive(Debug)]
pub struct LsmWriteAdmission {
    admitted: bool,
}

/// The drop of a bucket while it is in progress.
///
/// Ended through [`LsmDropGuard::commit`] or [`LsmLifecycle::abort_drop`].
#[derive(Debug)]
pub struct LsmDropGuard {
    started: bool,
}

/// Mathematical form of an [`LsmLifecycle`].
pub struct Lifecycle {
    /// Whether a drop is in progress or done.
    pub dropping: bool,
    /// Writes that were admitted and not released yet.
    pub active_writes: nat,
}

impl View for LsmLifecycle {
    type V = Lifecycle;

    open spec fn view(&self) -> Lifecycle {
        Lifecycle { dropping: self.dropping, active_writes: self.active_writes as nat }
    }
}

impl Lifecycle {
    /// The state after a write was admitted.
    pub open spec fn with_write(self) -> Lifecycle {
        Lifecycle { dropping: self.dropping, active_writes: self.active_writes + 1 }
    }

    /// The state after a write was released.
    pub open spec fn without_write(self) -> Lifecycle {
        Lifecycle {
            dropping: self.dropping,
            active_writes: if self.active_writes == 0 {
                0
            } else {
                (self.active_writes - 1) as nat
            },
        }
    }

    /// What anything but the end of a failed drop does to the state.
    pub open spec fn steps_to(self, next: Lifecycle) -> bool {
        ||| !self.dropping && next == self.with_write()
        ||| next == self.without_write()
        ||| !self.dropping && next == (Lifecycle {
            dropping: true,
            active_writes: self.active_writes,
        })
        ||| next == self
    }
}

/// A drop that is not aborted keeps new writes out for good: the bucket stays
/// closed, and the number of writes in progress never grows again.
pub proof fn drop_keeps_writes_out(states: Seq<Lifecycle>, from: int, to: int)
    requires
        forall|i: int|
            0 <= i < states.len() - 1 ==> (#[trigger] states[i]).steps_to(states[i + 1]),
        0 <= from <= to < states.len(),
        states[from].dropping,
    ensures
        states[to].dropping,
        states[to].active_writes <= states[from].active_writes,
    decreases to - from,
{
    if from < to {
        drop_keeps_writes_out(states, from, to - 1);
        assert(states[to - 1].steps_to(states[to - 1 + 1]));
    }
}

impl LsmLifecycle {
    /// Returns the state of an open bucket without writes.
    pub fn new() -> (lifecycle: LsmLifecycle)
        ensures
            lifecycle@ == (Lifecycle { dropping: false, active_writes: 0 }),
            lifecycle.drain_wakers@.len() == 0,
    {
        LsmLifecycle { dropping: false, active_writes: 0, drain_wakers: Vec::new() }
    }

    /// Admits one write unless a drop closed the bucket.
    pub fn admit_write(&mut self) -> (result: Result<LsmWriteAdmission>)
        ensures
            final(self).drain_wakers == old(self).drain_wakers,
            match result {
                Ok(_) => {
                    &&& !old(self).dropping
                    &&& final(self)@ == old(self)@.with_write()
                    &&& old(self)@.steps_to(final(self)@)
                },
                Err(error) => {
                    &&& *final(self) == *old(self)
                    &&& if old(self).dropping {
                        error.says(ErrorKind::RuntimeBusy, "bucket deletion is in progress"@)
                    } else {
                        old(self).active_writes == usize::MAX && error.says(
                            ErrorKind::Corruption,
                            "LSM active write count overflow"@,
                        )
                    }
                },
            },
    {
        if self.dropping {
            return Err(Error::runtime_busy("bucket deletion is in progress"));
        }
        match self.active_writes.checked_add(1) {
            Some(active_writes) => {
                self.active_writes = active_writes;
                Ok(LsmWriteAdmission { admitted: true })
            },
            None => Err(Error::corruption("LSM active write count overflow")),
        }
    }

    /// Ends an admitted write. Returns the tasks to wake, which are all that wait if
    /// no write is left.
    pub fn release_write(&mut self, admission: LsmWriteAdmission) -> (wakers: Vec<u64>)
        ensures
            final(self)@ == old(self)@.without_write(),
            old(self)@.steps_to(final(self)@),
            if final(self).active_writes == 0 {
                wakers@ == old(self).drain_wakers@ && final(self).drain_wakers@.len() == 0
            } else {
                wakers@.len() == 0 && final(self).drain_wakers@ == old(self).drain_wakers@
            },
    {
        self.active_writes = self.active_writes.saturating_sub(1);
        let mut wakers: Vec<u64> = Vec::new();
        if self.active_writes == 0 {
            std::mem::swap(&mut wakers, &mut self.drain_wakers);
        }
        wakers
    }

    /// Closes the bucket for new writes.
    pub fn begin_drop(&mut self) -> (result: Result<LsmDropGuard>)
        ensures
            match result {
                Ok(_) => {
                    &&& !old(self).dropping
                    &&& final(self).dropping
                    &&& final(self).active_writes == old(self).active_writes
                    &&& final(self).drain_wakers == old(self).drain_wakers
                    &&& old(self)@.steps_to(final(self)@)
                },
                Err(error) => {
                    &&& old(self).dropping
                    &&& *final(self) == *old(self)
                    &&& error.says(
                        ErrorKind::RuntimeBusy,
                        "bucket deletion is already in progress"@,
                    )
                },
            },
    {
        if self.dropping {
            return Err(Error::runtime_busy("bucket deletion is already in progress"));
        }
        self.dropping = true;
        Ok(LsmDropGuard { started: true })
    }

    /// Opens the bucket again after a drop that failed. Returns the tasks to wake.
    pub fn abort_drop(&mut self, guard: LsmDropGuard) -> (wakers: Vec<u64>)
        ensures
            !final(self).dropping,
            final(self).active_writes == old(self).active_writes,
            wakers@ == old(self).drain_wakers@,
            final(self).drain_wakers@.len() == 0,
    {
        self.dropping = false;
        let mut wakers: Vec<u64> = Vec::new();
        std::mem::swap(&mut wakers, &mut self.drain_wakers);
        wakers
    }

    /// Fails while a drop is in progress or done.
    pub fn ensure_available(&self) -> (result: Result<()>)
        ensures
            match result {
                Ok(_) => !self.dropping,
                Err(error) => self.dropping && error.says(
                    ErrorKind::RuntimeBusy,
                    "bucket deletion is in progress"@,
                ),
            },
    {
        if self.dropping {
            Err(Error::runtime_busy("bucket deletion is in progress"))
        } else {
            Ok(())
        }
    }
}

impl LsmDropGuard {
    /// Tells whether no write is in progress.
    pub fn writes_drained(&self, lifecycle: &LsmLifecycle) -> (drained: bool)
        ensures
            drained == (lifecycle.active_writes == 0),
    {
        lifecycle.active_writes == 0
    }

    /// Tells whether no write is in progress; if one is, the task is remembered, once.
    pub fn poll_writes(&self, lifecycle: &mut LsmLifecycle, waker: u64) -> (drained: bool)
        ensures
            final(lifecycle)@ == old(lifecycle)@,
            drained == (old(lifecycle).active_writes == 0),
            final(lifecycle).drain_wakers@ == if drained || old(lifecycle).drain_wakers@.contains(
                waker,
            ) {
                old(lifecycle).drain_wakers@
            } else {
                old(lifecycle).drain_wakers@.push(waker)
            },
    {
        if lifecycle.active_writes == 0 {
            return true;
        }
        let mut i: usize = 0;
        while i < lifecycle.drain_wakers.len()
            invariant
                i <= lifecycle.drain_wakers@.len(),
                *lifecycle == *old(lifecycle),
                lifecycle.active_writes != 0,
                forall|j: int| 0 <= j < i ==> lifecycle.drain_wakers@[j] != waker,
            decreases lifecycle.drain_wakers@.len() - i,
        {
            if lifecycle.drain_wakers[i] == waker {
                assert(lifecycle.drain_wakers@.contains(waker));
                return false;
            }
            i += 1;
        }
        lifecycle.drain_wakers.push(waker);
        false
    }

    /// Ends the drop and leaves the bucket as it is. Tells whether it is closed.
    pub fn commit(self, lifecycle: &LsmLifecycle) -> (closed: bool)
        ensures
            closed == lifecycle.dropping,
    {
        lifecycle.dropping
    }
}

/// A write that ends undoes its admission, and no number of writes that end takes the count below
/// none.
pub proof fn ending_a_write_undoes_its_admission(lifecycle: Lifecycle)
    ensures
        lifecycle.with_write().without_write() == lifecycle,
        lifecycle.with_write().active_writes == lifecycle.active_writes + 1,
        lifecycle.active_writes > 0 ==> lifecycle.without_write().with_write() == lifecycle,
        lifecycle.active_writes == 0 ==> lifecycle.without_write() == lifecycle,
        lifecycle.without_write().dropping == lifecycle.dropping,
{
}

/// Each step admits or ends at most one write, and a bucket that is not being dropped is closed by
/// a step that neither admits nor ends one.
pub proof fn steps_are_single(lifecycle: Lifecycle, next: Lifecycle)
    requires
        lifecycle.steps_to(next),
    ensures
        lifecycle.active_writes <= next.active_writes + 1,
        next.active_writes <= lifecycle.active_writes + 1,
        lifecycle.dropping ==> next.dropping && next.active_writes <= lifecycle.active_writes,
        next.dropping && !lifecycle.dropping ==> next.active_writes == lifecycle.active_writes,
{
}

} // verus!
