//! The state of the platform I/O scheduler and what it counts.
use vstd::prelude::*;

use crate::error::{Error, ErrorKind, Result};

verus! {

/// The most operations that wait for the scheduler.
pub const PLATFORM_IO_SCHEDULER_QUEUE_DEPTH: usize = 1024;

/// The most operations that run side by side.
pub const PLATFORM_IO_MAX_IN_FLIGHT: usize = 256;

/// How many threads run operations that have no native form.
pub const PLATFORM_IO_THREAD_POOL_WORKERS: usize = 4;

/// The most operations that wait for those threads.
pub const PLATFORM_IO_THREAD_POOL_QUEUE_DEPTH: usize = 1024;

/// What a scheduler does with new operations.
#[derive(Debug, Clone, Copy, PartialEq, Eq, Structural)]
pub enum PlatformIoState {
    /// It accepts them.
    Running,
    /// It is finishing what it has accepted.
    Closing,
    /// It has finished.
    Closed,
    /// It lost an executor.
    Failed,
}

/// What a scheduler counts.
#[derive(Debug, Clone, Copy, PartialEq, Eq, Structural)]
pub struct PlatformIoSchedulerMetrics {
    /// Operations that were submitted and have not been handed to an executor.
    pub queued: usize,
    /// Operations that executors have.
    pub in_flight: usize,
    /// The most operations that executors had at once.
    pub max_in_flight: usize,
    /// Operations that the native executor runs.
    pub native_in_flight: usize,
    /// The most operations that the native executor ran at once.
    pub native_max_in_flight: usize,
    /// Operations that were accepted.
    pub submitted: u64,
    /// Operations that have ended.
    pub completed: u64,
    /// Operations that were refused.
    pub rejected: u64,
}

impl Default for PlatformIoSchedulerMetrics {
    fn default() -> (metrics: PlatformIoSchedulerMetrics)
        ensures
            metrics == (PlatformIoSchedulerMetrics {
                queued: 0,
                in_flight: 0,
                max_in_flight: 0,
                native_in_flight: 0,
                native_max_in_flight: 0,
                submitted: 0,
                completed: 0,
                rejected: 0,
            }),
    {
        PlatformIoSchedulerMetrics {
            queued: 0,
            in_flight: 0,
            max_in_flight: 0,
            native_in_flight: 0,
            native_max_in_flight: 0,
            submitted: 0,
            completed: 0,
            rejected: 0,
        }
    }
}

/// Reserves a place in the queue, if one is left.
pub fn reserve_platform_io_queue_slot(metrics: &mut PlatformIoSchedulerMetrics) -> (reserved: bool)
    ensures
        reserved == (old(metrics).queued < PLATFORM_IO_SCHEDULER_QUEUE_DEPTH),
        *final(metrics) == (if reserved {
            (PlatformIoSchedulerMetrics {
                queued: (old(metrics).queued + 1) as usize,
                ..*old(metrics)
            })
        } else {
            *old(metrics)
        }),
{
    if metrics.queued < PLATFORM_IO_SCHEDULER_QUEUE_DEPTH {
        metrics.queued = metrics.queued + 1;
        true
    } else {
        false
    }
}

/// The larger of two counts.
pub open spec fn larger(a: usize, b: usize) -> usize {
    if a < b {
        b
    } else {
        a
    }
}

/// What became of an operation that was sent to the scheduler.
#[derive(Debug, Clone, Copy, PartialEq, Eq, Structural)]
pub enum PlatformIoSend {
    /// It is in the queue.
    Sent,
    /// The queue had no place left.
    Full,
    /// The scheduler is gone.
    Disconnected,
}

/// What the driver and the scheduler share.
#[derive(Debug, Clone, Copy, PartialEq, Eq, Structural)]
pub struct PlatformIoControl {
    /// What is done with new operations.
    pub state: PlatformIoState,
    /// What has been counted.
    pub metrics: PlatformIoSchedulerMetrics,
}

/// A copy in another state.
pub open spec fn in_state(control: PlatformIoControl, state: PlatformIoState) -> PlatformIoControl {
    PlatformIoControl { state, ..control }
}

/// After an operation was refused.
pub open spec fn refused(control: PlatformIoControl) -> PlatformIoControl {
    PlatformIoControl {
        metrics: PlatformIoSchedulerMetrics {
            rejected: control.metrics.rejected.wrapping_add(1),
            ..control.metrics
        },
        ..control
    }
}

/// After an operation was admitted.
pub open spec fn admitted(control: PlatformIoControl) -> PlatformIoControl {
    PlatformIoControl {
        metrics: PlatformIoSchedulerMetrics {
            queued: (control.metrics.queued + 1) as usize,
            submitted: control.metrics.submitted.wrapping_add(1),
            ..control.metrics
        },
        ..control
    }
}

/// After an operation that was admitted could not be sent.
pub open spec fn withdrawn(control: PlatformIoControl) -> PlatformIoControl {
    PlatformIoControl {
        metrics: PlatformIoSchedulerMetrics {
            queued: control.metrics.queued.wrapping_sub(1),
            submitted: control.metrics.submitted.wrapping_sub(1),
            rejected: control.metrics.rejected.wrapping_add(1),
            ..control.metrics
        },
        ..control
    }
}

/// After an operation left the queue for an executor.
pub open spec fn unqueued(control: PlatformIoControl) -> PlatformIoControl {
    PlatformIoControl {
        metrics: PlatformIoSchedulerMetrics {
            queued: control.metrics.queued.wrapping_sub(1),
            ..control.metrics
        },
        ..control
    }
}

/// After an executor took an operation.
pub open spec fn begun(control: PlatformIoControl) -> PlatformIoControl {
    let seen = if control.metrics.in_flight < usize::MAX {
        (control.metrics.in_flight + 1) as usize
    } else {
        usize::MAX
    };
    PlatformIoControl {
        metrics: PlatformIoSchedulerMetrics {
            in_flight: control.metrics.in_flight.wrapping_add(1),
            max_in_flight: larger(control.metrics.max_in_flight, seen),
            ..control.metrics
        },
        ..control
    }
}

/// After an executor did not take an operation.
pub open spec fn turned_down(control: PlatformIoControl) -> PlatformIoControl {
    PlatformIoControl {
        state: PlatformIoState::Failed,
        metrics: PlatformIoSchedulerMetrics {
            completed: control.metrics.completed.wrapping_add(1),
            ..control.metrics
        },
    }
}

/// After an operation that an executor had ended.
pub open spec fn ended(control: PlatformIoControl) -> PlatformIoControl {
    PlatformIoControl {
        metrics: PlatformIoSchedulerMetrics {
            in_flight: control.metrics.in_flight.wrapping_sub(1),
            completed: control.metrics.completed.wrapping_add(1),
            ..control.metrics
        },
        ..control
    }
}

/// After so many operations ended that no executor had.
pub open spec fn dropped(control: PlatformIoControl, count: usize) -> PlatformIoControl {
    PlatformIoControl {
        metrics: PlatformIoSchedulerMetrics {
            queued: control.metrics.queued.wrapping_sub(count),
            completed: control.metrics.completed.wrapping_add(count as u64),
            ..control.metrics
        },
        ..control
    }
}

/// Why an operation is not accepted, if it is not.
pub open spec fn refusal(control: PlatformIoControl, connected: bool) -> Option<
    (ErrorKind, Seq<char>),
> {
    if control.state == PlatformIoState::Failed {
        Some((ErrorKind::RuntimeBusy, "platform I/O scheduler is in a failed state"@))
    } else if control.state != PlatformIoState::Running || !connected {
        Some((ErrorKind::Closed, Seq::empty()))
    } else if control.metrics.queued >= PLATFORM_IO_SCHEDULER_QUEUE_DEPTH {
        Some((ErrorKind::RuntimeBusy, "platform I/O scheduler queue is full"@))
    } else {
        None
    }
}

impl PlatformIoControl {
    /// The control of a scheduler that starts.
    pub fn new() -> (control: PlatformIoControl)
        ensures
            control.state == PlatformIoState::Running,
            control.metrics.queued == 0,
            control.metrics.in_flight == 0,
            control.metrics.max_in_flight == 0,
            control.metrics.native_in_flight == 0,
            control.metrics.native_max_in_flight == 0,
            control.metrics.submitted == 0,
            control.metrics.completed == 0,
            control.metrics.rejected == 0,
    {
        PlatformIoControl {
            state: PlatformIoState::Running,
            metrics: PlatformIoSchedulerMetrics::default(),
        }
    }

    /// Tells whether an executor was lost.
    pub fn has_failed(&self) -> (failed: bool)
        ensures
            failed == (self.state == PlatformIoState::Failed),
    {
        match self.state {
            PlatformIoState::Failed => true,
            _ => false,
        }
    }

    /// Notes that an executor was lost.
    pub fn fail(&mut self)
        ensures
            *final(self) == in_state(*old(self), PlatformIoState::Failed),
    {
        self.state = PlatformIoState::Failed;
    }

    /// Lets an operation in. `connected` tells whether there is a queue to send it to.
    pub fn let_in(&mut self, connected: bool) -> (result: Result<()>)
        ensures
            match result {
                Ok(()) => refusal(*old(self), connected) is None && *final(self) == admitted(
                    *old(self),
                ),
                Err(error) => {
                    &&& refusal(*old(self), connected) matches Some((kind, text))
                    &&& error.says(kind, text)
                    &&& *final(self) == refused(*old(self))
                },
            },
    {
        match self.state {
            PlatformIoState::Running => {},
            PlatformIoState::Failed => {
                self.metrics.rejected = self.metrics.rejected.wrapping_add(1);
                return Err(Error::runtime_busy("platform I/O scheduler is in a failed state"));
            },
            PlatformIoState::Closing => {
                self.metrics.rejected = self.metrics.rejected.wrapping_add(1);
                return Err(Error::Closed);
            },
            PlatformIoState::Closed => {
                self.metrics.rejected = self.metrics.rejected.wrapping_add(1);
                return Err(Error::Closed);
            },
        }
        if !connected {
            self.metrics.rejected = self.metrics.rejected.wrapping_add(1);
            return Err(Error::Closed);
        }
        let mut metrics: PlatformIoSchedulerMetrics = self.metrics;
        if !reserve_platform_io_queue_slot(&mut metrics) {
            self.metrics.rejected = self.metrics.rejected.wrapping_add(1);
            return Err(Error::runtime_busy("platform I/O scheduler queue is full"));
        }
        metrics.submitted = metrics.submitted.wrapping_add(1);
        self.metrics = metrics;
        Ok(())
    }

    /// Notes what became of an operation that was admitted.
    pub fn sent(&mut self, outcome: PlatformIoSend) -> (result: Result<()>)
        ensures
            match result {
                Ok(()) => outcome == PlatformIoSend::Sent && *final(self) == *old(self),
                Err(error) => {
                    &&& *final(self) == withdrawn(*old(self))
                    &&& outcome == PlatformIoSend::Full && error.says(
                        ErrorKind::RuntimeBusy,
                        "platform I/O scheduler queue is full"@,
                    ) || outcome == PlatformIoSend::Disconnected && error.says(
                        ErrorKind::Closed,
                        Seq::empty(),
                    )
                },
            },
    {
        match outcome {
            PlatformIoSend::Sent => {
                return Ok(());
            },
            _ => {},
        }
        self.metrics.queued = self.metrics.queued.wrapping_sub(1);
        self.metrics.submitted = self.metrics.submitted.wrapping_sub(1);
        self.metrics.rejected = self.metrics.rejected.wrapping_add(1);
        match outcome {
            PlatformIoSend::Full => Err(
                Error::runtime_busy("platform I/O scheduler queue is full"),
            ),
            _ => Err(Error::Closed),
        }
    }

    /// Begins to close. Returns whether the scheduler is to be drained and joined: it is unless
    /// that has begun before.
    pub fn begin_close(&mut self) -> (drain: bool)
        ensures
            drain == (old(self).state == PlatformIoState::Running || old(self).state
                == PlatformIoState::Failed),
            *final(self) == (if old(self).state == PlatformIoState::Running {
                in_state(*old(self), PlatformIoState::Closing)
            } else {
                *old(self)
            }),
    {
        match self.state {
            PlatformIoState::Running => {
                self.state = PlatformIoState::Closing;
                true
            },
            PlatformIoState::Failed => true,
            PlatformIoState::Closing => false,
            PlatformIoState::Closed => false,
        }
    }

    /// Ends closing, after the scheduler was joined.
    pub fn end_close(&mut self, panicked: bool) -> (result: Result<()>)
        ensures
            match result {
                Ok(()) => !panicked && *final(self) == in_state(
                    *old(self),
                    PlatformIoState::Closed,
                ),
                Err(error) => panicked && *final(self) == *old(self) && error.says(
                    ErrorKind::RuntimeBusy,
                    "platform I/O scheduler panicked"@,
                ),
            },
    {
        if panicked {
            return Err(Error::runtime_busy("platform I/O scheduler panicked"));
        }
        self.state = PlatformIoState::Closed;
        Ok(())
    }

    /// Counts an operation that the native executor begins.
    pub fn begin_native(&mut self)
        ensures
            final(self).state == old(self).state,
            final(self).metrics == (PlatformIoSchedulerMetrics {
                native_in_flight: old(self).metrics.native_in_flight.wrapping_add(1),
                native_max_in_flight: larger(
                    old(self).metrics.native_max_in_flight,
                    if old(self).metrics.native_in_flight < usize::MAX {
                        (old(self).metrics.native_in_flight + 1) as usize
                    } else {
                        usize::MAX
                    },
                ),
                ..old(self).metrics
            }),
    {
        let before: usize = self.metrics.native_in_flight;
        let seen: usize = before.saturating_add(1);
        self.metrics.native_in_flight = before.wrapping_add(1);
        if self.metrics.native_max_in_flight < seen {
            self.metrics.native_max_in_flight = seen;
        }
    }

    /// Counts an operation that the native executor ends.
    pub fn end_native(&mut self)
        ensures
            final(self).state == old(self).state,
            final(self).metrics == (PlatformIoSchedulerMetrics {
                native_in_flight: old(self).metrics.native_in_flight.wrapping_sub(1),
                ..old(self).metrics
            }),
    {
        self.metrics.native_in_flight = self.metrics.native_in_flight.wrapping_sub(1);
    }
}

/// An admission that could not be sent leaves no trace but the refusal.
pub proof fn withdrawing_undoes_admission(control: PlatformIoControl)
    requires
        refusal(control, true) is None,
    ensures
        withdrawn(admitted(control)) == refused(control),
{
}

/// A scheduler that began to close, or lost an executor, accepts nothing more.
pub proof fn closing_refuses(control: PlatformIoControl, connected: bool)
    requires
        control.state != PlatformIoState::Running,
    ensures
        refusal(control, connected) is Some,
{
}

/// A connected scheduler that runs refuses an operation exactly if its queue is full.
pub proof fn running_scheduler_refuses_only_when_full(control: PlatformIoControl)
    requires
        control.state == PlatformIoState::Running,
    ensures
        refusal(control, true) is None <==> control.metrics.queued
            < PLATFORM_IO_SCHEDULER_QUEUE_DEPTH,
        refusal(control, false) is Some,
{
}

/// The largest number of operations that ran at once never falls and is never less than the number
/// that run; it grows only to the number that run.
pub proof fn most_in_flight_is_a_high_water_mark(control: PlatformIoControl, count: usize)
    requires
        control.metrics.in_flight <= control.metrics.max_in_flight,
        control.metrics.in_flight < usize::MAX,
    ensures
        begun(control).metrics.in_flight == control.metrics.in_flight + 1,
        begun(control).metrics.in_flight <= begun(control).metrics.max_in_flight,
        control.metrics.max_in_flight <= begun(control).metrics.max_in_flight,
        begun(control).metrics.max_in_flight == control.metrics.max_in_flight || begun(
            control,
        ).metrics.max_in_flight == begun(control).metrics.in_flight,
        admitted(control).metrics.max_in_flight == control.metrics.max_in_flight,
        ended(control).metrics.max_in_flight == control.metrics.max_in_flight,
        dropped(control, count).metrics.max_in_flight == control.metrics.max_in_flight,
        turned_down(control).metrics.max_in_flight == control.metrics.max_in_flight,
{
}

/// No step of an operation makes a scheduler run again that does not: it leaves the state as it is,
/// or the scheduler fails.
pub proof fn steps_never_restart(control: PlatformIoControl, count: usize)
    ensures
        admitted(control).state == control.state,
        refused(control).state == control.state,
        withdrawn(control).state == control.state,
        unqueued(control).state == control.state,
        begun(control).state == control.state,
        ended(control).state == control.state,
        dropped(control, count).state == control.state,
        turned_down(control).state == PlatformIoState::Failed,
{
}

} // verus!
