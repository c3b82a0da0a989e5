//! Deciding which operation runs next.
use vstd::prelude::*;

use crate::error::{Error, ErrorKind};
use crate::io::control;
use crate::io::control::{PlatformIoControl, PlatformIoState, PLATFORM_IO_MAX_IN_FLIGHT};
use crate::io::matrix::{PlatformIoBackendMatrix, PlatformIoTaskClass};
use crate::io::resources;
use crate::io::resources::{
    platform_io_resources_conflict, Claim, PlatformIoResourceRequest, PlatformIoResourceTable,
};
use crate::io::running;
use crate::io::task::PlatformIoTask;

verus! {

/// An operation that waits.
#[derive(Debug)]
struct PendingPlatformIoTask {
    ticket: u64,
    task: PlatformIoTask,
    resources: Vec<PlatformIoResourceRequest>,
}

/// An operation that an executor has, or is offered.
#[derive(Debug)]
struct RunningPlatformIoTask {
    ticket: u64,
    resources: Vec<PlatformIoResourceRequest>,
}

/// Which executor runs an operation.
#[derive(Debug, Clone, Copy, PartialEq, Eq, Structural)]
pub enum PlatformIoRoute {
    /// The native one.
    Native,
    /// The threads.
    Fallback,
    /// None: it fails.
    Unsupported,
}

/// Returns which executor runs operations of a class.
pub fn route(class: PlatformIoTaskClass) -> (route: PlatformIoRoute)
    ensures
        route == match class {
            PlatformIoTaskClass::TruePlatformAsync => PlatformIoRoute::Native,
            PlatformIoTaskClass::PlatformNativeAsyncButPartial => PlatformIoRoute::Native,
            PlatformIoTaskClass::ThreadPoolManagedAsync => PlatformIoRoute::Fallback,
            PlatformIoTaskClass::BlockingFallback => PlatformIoRoute::Fallback,
            PlatformIoTaskClass::Unsupported => PlatformIoRoute::Unsupported,
        },
{
    match class {
        PlatformIoTaskClass::TruePlatformAsync => PlatformIoRoute::Native,
        PlatformIoTaskClass::PlatformNativeAsyncButPartial => PlatformIoRoute::Native,
        PlatformIoTaskClass::ThreadPoolManagedAsync => PlatformIoRoute::Fallback,
        PlatformIoTaskClass::BlockingFallback => PlatformIoRoute::Fallback,
        PlatformIoTaskClass::Unsupported => PlatformIoRoute::Unsupported,
    }
}

/// Why an operation ends without having run.
#[derive(Debug, Clone, Copy, PartialEq, Eq, Structural)]
pub enum PlatformIoStartFailure {
    /// The scheduler lost an executor.
    Failed,
    /// The scheduler stopped.
    Stopped,
    /// There is no native executor.
    NativeUnavailable,
    /// The native executor takes no more operations.
    NativeStopped,
    /// The threads take no more operations.
    FallbackStopped,
    /// No executor knows the operation.
    Unsupported,
    /// The executor went away before it ran the operation.
    Abandoned,
}

impl PlatformIoStartFailure {
    /// What the caller is told.
    pub open spec fn message(self) -> Seq<char> {
        match self {
            PlatformIoStartFailure::Failed => "platform I/O scheduler entered a failed state"@,
            PlatformIoStartFailure::Stopped =>
                "platform I/O scheduler stopped before task admission"@,
            PlatformIoStartFailure::NativeUnavailable =>
                "native platform I/O executor is unavailable"@,
            PlatformIoStartFailure::NativeStopped =>
                "native platform I/O executor stopped accepting tasks"@,
            PlatformIoStartFailure::FallbackStopped =>
                "platform I/O thread-pool executor stopped accepting tasks"@,
            PlatformIoStartFailure::Unsupported =>
                "platform I/O operation is unsupported on this target"@,
            PlatformIoStartFailure::Abandoned =>
                "platform I/O executor stopped before task completion"@,
        }
    }

    /// Returns the error that the caller gets.
    pub fn error(self) -> (error: Error)
        ensures
            error.says(ErrorKind::RuntimeBusy, self.message()),
    {
        match self {
            PlatformIoStartFailure::Failed => Error::runtime_busy(
                "platform I/O scheduler entered a failed state",
            ),
            PlatformIoStartFailure::Stopped => Error::runtime_busy(
                "platform I/O scheduler stopped before task admission",
            ),
            PlatformIoStartFailure::NativeUnavailable => Error::runtime_busy(
                "native platform I/O executor is unavailable",
            ),
            PlatformIoStartFailure::NativeStopped => Error::runtime_busy(
                "native platform I/O executor stopped accepting tasks",
            ),
            PlatformIoStartFailure::FallbackStopped => Error::runtime_busy(
                "platform I/O thread-pool executor stopped accepting tasks",
            ),
            PlatformIoStartFailure::Unsupported => Error::runtime_busy(
                "platform I/O operation is unsupported on this target",
            ),
            PlatformIoStartFailure::Abandoned => Error::runtime_busy(
                "platform I/O executor stopped before task completion",
            ),
        }
    }
}

/// An operation that is offered to an executor.
#[derive(Debug)]
pub struct ScheduledPlatformIoTask {
    /// The number by which it is known.
    pub ticket: u64,
    /// The operation.
    pub task: PlatformIoTask,
    /// How it is to be run.
    pub class: PlatformIoTaskClass,
}

/// What a scheduler waits for.
#[derive(Debug, Clone, Copy, PartialEq, Eq, Structural)]
pub enum PlatformIoWait {
    /// Nothing: it has finished.
    Finished,
    /// A new operation.
    Input,
    /// The end of one that runs.
    Completion,
    /// Either.
    InputOrCompletion,
}

/// Mathematical form of an operation that waits.
pub struct Waiting {
    /// The number by which it is known.
    pub ticket: u64,
    /// The operation.
    pub task: PlatformIoTask,
    /// What it uses.
    pub claims: Seq<Claim>,
}

/// Mathematical form of a [`PlatformIoScheduler`].
#[verifier::ext_equal]
pub struct Schedule {
    /// How operations are to be run.
    pub matrix: PlatformIoBackendMatrix,
    /// The operations that wait, in the order in which they came.
    pub waiting: Seq<Waiting>,
    /// The numbers of those that executors have.
    pub tickets: Seq<u64>,
    /// What those use.
    pub running: Seq<Seq<Claim>>,
    /// Whether the last of them is offered and not yet taken.
    pub offering: bool,
    /// Whether no operation comes any more.
    pub closed: bool,
}

/// Whether an operation may run now: it conflicts with none that runs, and with none that came
/// before it.
pub open spec fn may_run(schedule: Schedule, i: int) -> bool {
    &&& 0 <= i < schedule.waiting.len()
    &&& running::fits(schedule.running, schedule.waiting[i].claims)
    &&& forall|j: int|
        0 <= j < i ==> !resources::conflict(
            (#[trigger] schedule.waiting[j]).claims,
            schedule.waiting[i].claims,
        )
}

/// Whether an operation is the first that may run now.
pub open spec fn is_next(schedule: Schedule, i: int) -> bool {
    may_run(schedule, i) && forall|j: int| 0 <= j < i ==> !#[trigger] may_run(schedule, j)
}

/// After an operation was taken from those that wait, to be offered.
pub open spec fn offered(schedule: Schedule, i: int) -> Schedule {
    Schedule {
        waiting: schedule.waiting.remove(i),
        tickets: schedule.tickets.push(schedule.waiting[i].ticket),
        running: schedule.running.push(schedule.waiting[i].claims),
        offering: true,
        ..schedule
    }
}

/// After an operation ended.
pub open spec fn without(schedule: Schedule, i: int) -> Schedule {
    Schedule {
        tickets: schedule.tickets.remove(i),
        running: schedule.running.remove(i),
        offering: false,
        ..schedule
    }
}

/// Whether a number is that of the operation at a place, and of none before it.
pub open spec fn is_first_at(tickets: Seq<u64>, ticket: u64, i: int) -> bool {
    &&& 0 <= i < tickets.len()
    &&& tickets[i] == ticket
    &&& forall|j: int| 0 <= j < i ==> #[trigger] tickets[j] != ticket
}

/// The numbers of the operations that wait.
pub open spec fn numbers(waiting: Seq<Waiting>) -> Seq<u64> {
    Seq::new(waiting.len(), |i: int| waiting[i].ticket)
}

/// What decides which operation runs next.
#[derive(Debug)]
pub struct PlatformIoScheduler {
    matrix: PlatformIoBackendMatrix,
    resources: PlatformIoResourceTable,
    pending: Vec<PendingPlatformIoTask>,
    running: Vec<RunningPlatformIoTask>,
    offering: bool,
    input_closed: bool,
}

impl View for PlatformIoScheduler {
    type V = Schedule;

    closed spec fn view(&self) -> Schedule {
        Schedule {
            matrix: self.matrix,
            waiting: Seq::new(
                self.pending@.len(),
                |i: int|
                    Waiting {
                        ticket: self.pending@[i].ticket,
                        task: self.pending@[i].task,
                        claims: resources::claims(self.pending@[i].resources@),
                    },
            ),
            tickets: Seq::new(self.running@.len(), |i: int| self.running@[i].ticket),
            running: Seq::new(
                self.running@.len(),
                |i: int| resources::claims(self.running@[i].resources@),
            ),
            offering: self.offering,
            closed: self.input_closed,
        }
    }
}

impl PlatformIoScheduler {
    /// Whether the table lists what the operations use that run, no two of them conflict, and
    /// there are not too many.
    pub closed spec fn wf(&self) -> bool {
        &&& self.resources.wf()
        &&& running::in_use(self.resources.held(), self@.running)
        &&& running::apart(self@.running)
        &&& running::each_once(self@.running)
        &&& self.running@.len() <= PLATFORM_IO_MAX_IN_FLIGHT
        &&& self.offering ==> self.running@.len() > 0
        &&& forall|i: int|
            0 <= i < self@.waiting.len() ==> resources::claimed_once(
                (#[trigger] self@.waiting[i]).claims,
            )
    }

    /// No two operations that run conflict, and there are not too many.
    pub proof fn running_do_not_conflict(&self)
        requires
            self.wf(),
        ensures
            running::apart(self@.running),
            self@.running.len() <= PLATFORM_IO_MAX_IN_FLIGHT,
            self@.tickets.len() == self@.running.len(),
    {
    }

    /// A scheduler with nothing to do.
    pub fn new(matrix: PlatformIoBackendMatrix) -> (scheduler: PlatformIoScheduler)
        ensures
            scheduler.wf(),
            scheduler@ == (Schedule {
                matrix,
                waiting: Seq::empty(),
                tickets: Seq::empty(),
                running: Seq::empty(),
                offering: false,
                closed: false,
            }),
    {
        let scheduler = PlatformIoScheduler {
            matrix,
            resources: PlatformIoResourceTable::new(),
            pending: Vec::new(),
            running: Vec::new(),
            offering: false,
            input_closed: false,
        };
        proof {
            running::nothing_runs();
            assert(scheduler@.running =~= Seq::empty());
            assert(scheduler@.tickets =~= Seq::empty());
            assert(scheduler@.waiting =~= Seq::empty());
        }
        scheduler
    }

    /// Takes a new operation, or notes that none comes any more.
    ///
    /// Returns the number of an operation that ends with [`PlatformIoStartFailure::Failed`].
    pub fn accept_received(
        &mut self,
        control: &mut PlatformIoControl,
        received: Option<(u64, PlatformIoTask)>,
    ) -> (ends: Option<u64>)
        requires
            old(self).wf(),
        ensures
            final(self).wf(),
            match received {
                None => {
                    &&& ends is None
                    &&& final(self)@ == (Schedule { closed: true, ..old(self)@ })
                    &&& *final(control) == *old(control)
                },
                Some((ticket, task)) => if old(control).state == PlatformIoState::Failed {
                    &&& ends == Some(ticket)
                    &&& final(self)@ == old(self)@
                    &&& *final(control) == control::dropped(*old(control), 1)
                } else {
                    &&& ends is None
                    &&& *final(control) == *old(control)
                    &&& final(self)@ == (Schedule {
                        waiting: old(self)@.waiting.push(final(self)@.waiting.last()),
                        ..old(self)@
                    })
                    &&& final(self)@.waiting.last().ticket == ticket
                    &&& final(self)@.waiting.last().task == task
                    &&& resources::normalized(task.claimed(), final(self)@.waiting.last().claims)
                },
            },
    {
        let ghost before = self@;
        match received {
            None => {
                self.input_closed = true;
                assert(self@ =~= (Schedule { closed: true, ..before }));
                None
            },
            Some((ticket, task)) => {
                if control.has_failed() {
                    control.metrics.queued = control.metrics.queued.wrapping_sub(1);
                    control.metrics.completed = control.metrics.completed.wrapping_add(1);
                    return Some(ticket);
                }
                let resources: Vec<PlatformIoResourceRequest> = task.resources();
                self.pending.push(PendingPlatformIoTask { ticket, task, resources });
                proof {
                    assert(self@.running =~= before.running);
                    assert(self@.tickets =~= before.tickets);
                    assert(self@.waiting.drop_last() =~= before.waiting);
                    assert(self@.waiting =~= before.waiting.push(self@.waiting.last()));
                    assert forall|i: int|
                        0 <= i < self@.waiting.len() implies resources::claimed_once(
                        (#[trigger] self@.waiting[i]).claims,
                    ) by {
                        if i < before.waiting.len() {
                            assert(self@.waiting[i] == before.waiting[i]);
                        }
                    }
                }
                None
            },
        }
    }

    /// Ends the operations that wait, if an executor was lost.
    ///
    /// Returns the numbers of those that end with [`PlatformIoStartFailure::Failed`].
    pub fn fail_pending_if_needed(&mut self, control: &mut PlatformIoControl) -> (ends: Vec<u64>)
        requires
            old(self).wf(),
        ensures
            final(self).wf(),
            if old(control).state == PlatformIoState::Failed {
                &&& ends@ == numbers(old(self)@.waiting)
                &&& final(self)@ == (Schedule { waiting: Seq::empty(), ..old(self)@ })
                &&& *final(control) == control::dropped(*old(control), ends@.len() as usize)
            } else {
                &&& ends@ == Seq::<u64>::empty()
                &&& final(self)@ == old(self)@
                &&& *final(control) == *old(control)
            },
    {
        if !control.has_failed() {
            return Vec::new();
        }
        let ends: Vec<u64> = self.drain_pending();
        control.metrics.queued = control.metrics.queued.wrapping_sub(ends.len());
        control.metrics.completed = control.metrics.completed.wrapping_add(ends.len() as u64);
        ends
    }

    fn drain_pending(&mut self) -> (tickets: Vec<u64>)
        requires
            old(self).wf(),
        ensures
            final(self).wf(),
            tickets@ == numbers(old(self)@.waiting),
            final(self)@ == (Schedule { waiting: Seq::empty(), ..old(self)@ }),
    {
        let ghost before = self@;
        let mut tickets: Vec<u64> = Vec::new();
        let mut i: usize = 0;
        while i < self.pending.len()
            invariant
                i <= self.pending@.len(),
                self@ == before,
                self.wf(),
                tickets@.len() == i,
                forall|j: int| 0 <= j < i ==> #[trigger] tickets@[j] == before.waiting[j].ticket,
            decreases self.pending@.len() - i,
        {
            assert(before.waiting[i as int].ticket == self.pending@[i as int].ticket);
            tickets.push(self.pending[i].ticket);
            i = i + 1;
        }
        assert(tickets@ =~= numbers(before.waiting));
        self.pending = Vec::new();
        proof {
            assert(self@.running =~= before.running);
            assert(self@.tickets =~= before.tickets);
            assert(self@.waiting =~= Seq::empty());
        }
        tickets
    }

    /// Returns the first operation that may run now.
    pub fn next_runnable_index(&self) -> (next: Option<usize>)
        requires
            self.wf(),
        ensures
            match next {
                Some(i) => is_next(self@, i as int),
                None => forall|i: int| !#[trigger] may_run(self@, i),
            },
    {
        let ghost schedule = self@;
        let mut i: usize = 0;
        while i < self.pending.len()
            invariant
                i <= self.pending@.len(),
                self.wf(),
                schedule == self@,
                forall|j: int| 0 <= j < i ==> !#[trigger] may_run(schedule, j),
            decreases self.pending@.len() - i,
        {
            let ghost wanted = schedule.waiting[i as int].claims;
            proof {
                assert(wanted == resources::claims(self.pending@[i as int].resources@));
                running::fits_where_table_allows(self.resources.held(), schedule.running, wanted);
            }
            if self.resources.can_acquire(&self.pending[i].resources) {
                let mut overtakes: bool = false;
                let mut j: usize = 0;
                while j < i && !overtakes
                    invariant
                        j <= i < self.pending@.len(),
                        schedule == self@,
                        wanted == resources::claims(self.pending@[i as int].resources@),
                        !overtakes ==> forall|k: int|
                            0 <= k < j ==> !resources::conflict(
                                (#[trigger] schedule.waiting[k]).claims,
                                wanted,
                            ),
                        overtakes ==> exists|k: int|
                            0 <= k < i && resources::conflict(
                                (#[trigger] schedule.waiting[k]).claims,
                                wanted,
                            ),
                    decreases i - j,
                {
                    overtakes =
                    platform_io_resources_conflict(
                        &self.pending[j].resources,
                        &self.pending[i].resources,
                    );
                    assert(schedule.waiting[j as int].claims == resources::claims(
                        self.pending@[j as int].resources@,
                    ));
                    j = j + 1;
                }
                if !overtakes {
                    assert(may_run(schedule, i as int));
                    return Some(i);
                }
            }
            i = i + 1;
        }
        None
    }

    /// Takes the first operation that may run now, to be offered to an executor.
    ///
    /// What comes of the offer is told with [`PlatformIoScheduler::finish_dispatch`].
    pub fn dispatch_next(&mut self, control: &mut PlatformIoControl) -> (next: Option<
        ScheduledPlatformIoTask,
    >)
        requires
            old(self).wf(),
            !old(self)@.offering,
        ensures
            final(self).wf(),
            match next {
                None => {
                    &&& final(self)@ == old(self)@
                    &&& *final(control) == *old(control)
                    &&& old(self)@.running.len() == PLATFORM_IO_MAX_IN_FLIGHT || forall|i: int|
                        !#[trigger] may_run(old(self)@, i)
                },
                Some(scheduled) => {
                    &&& old(self)@.running.len() < PLATFORM_IO_MAX_IN_FLIGHT
                    &&& exists|i: int|
                        {
                            &&& #[trigger] is_next(old(self)@, i)
                            &&& scheduled.ticket == old(self)@.waiting[i].ticket
                            &&& scheduled.task == old(self)@.waiting[i].task
                            &&& final(self)@ == offered(old(self)@, i)
                        }
                    &&& scheduled.class == old(self)@.matrix.class_of(
                        scheduled.task.spec_operation(),
                    )
                    &&& *final(control) == control::unqueued(*old(control))
                },
            },
    {
        let ghost before = self@;
        if self.running.len() >= PLATFORM_IO_MAX_IN_FLIGHT {
            return None;
        }
        let next: usize = match self.next_runnable_index() {
            None => {
                return None;
            },
            Some(next) => next,
        };
        let ghost wanted = before.waiting[next as int].claims;
        let ghost held = self.resources.held();
        proof {
            assert(wanted == resources::claims(self.pending@[next as int].resources@));
            running::fits_where_table_allows(held, before.running, wanted);
            running::beginning_is_listed(held, before.running, wanted);
            assert forall|key: resources::ResourceKey| #[trigger]
                held.dom().contains(key) implies held[key].shared < usize::MAX by {
                assert(resources::held_at(held, key) == held[key]);
                running::sharing_is_bounded(before.running, key);
            }
        }
        let pending: PendingPlatformIoTask = self.pending.remove(next);
        control.metrics.queued = control.metrics.queued.wrapping_sub(1);
        self.resources.acquire(&pending.resources);
        self.running.push(
            RunningPlatformIoTask { ticket: pending.ticket, resources: pending.resources },
        );
        self.offering = true;
        let class: PlatformIoTaskClass = self.matrix.class_for(pending.task.operation());
        proof {
            assert(self@.running =~= before.running.push(wanted));
            assert(self@.tickets =~= before.tickets.push(pending.ticket));
            assert(self@.waiting =~= before.waiting.remove(next as int));
            assert(self@ =~= offered(before, next as int));
            assert forall|i: int| 0 <= i < self@.waiting.len() implies resources::claimed_once(
                (#[trigger] self@.waiting[i]).claims,
            ) by {
                let k = if i < next {
                    i
                } else {
                    i + 1
                };
                assert(self@.waiting[i] == before.waiting[k]);
            }
            assert(is_next(before, next as int));
        }
        Some(ScheduledPlatformIoTask { ticket: pending.ticket, task: pending.task, class })
    }

    /// Takes an operation from those that run.
    fn end_running(&mut self, at: usize)
        requires
            old(self).wf(),
            at < old(self)@.running.len(),
            old(self)@.offering ==> at == old(self)@.running.len() - 1,
        ensures
            final(self).wf(),
            final(self)@ == without(old(self)@, at as int),
    {
        let ghost before = self@;
        let ended: RunningPlatformIoTask = self.running.remove(at);
        proof {
            assert(before.running[at as int] == resources::claims(ended.resources@));
            running::ending_is_listed(self.resources.held(), before.running, at as int);
        }
        self.resources.release(&ended.resources);
        self.offering = false;
        proof {
            assert(self@.running =~= before.running.remove(at as int));
            assert(self@.tickets =~= before.tickets.remove(at as int));
            assert(self@.waiting =~= before.waiting);
        }
    }

    /// Notes what came of the offer: an executor took the operation, or it did not.
    ///
    /// Where it did not, the operation has ended and the scheduler has failed.
    pub fn finish_dispatch(&mut self, control: &mut PlatformIoControl, taken: bool)
        requires
            old(self).wf(),
            old(self)@.offering,
        ensures
            final(self).wf(),
            if taken {
                &&& final(self)@ == (Schedule { offering: false, ..old(self)@ })
                &&& *final(control) == control::begun(*old(control))
            } else {
                &&& final(self)@ == without(old(self)@, old(self)@.running.len() - 1)
                &&& *final(control) == control::turned_down(*old(control))
            },
    {
        let ghost before = self@;
        if taken {
            self.offering = false;
            let active: usize = control.metrics.in_flight;
            let seen: usize = active.saturating_add(1);
            control.metrics.in_flight = active.wrapping_add(1);
            if control.metrics.max_in_flight < seen {
                control.metrics.max_in_flight = seen;
            }
            proof {
                assert(self@.running =~= before.running);
                assert(self@.tickets =~= before.tickets);
                assert(self@.waiting =~= before.waiting);
            }
        } else {
            let last: usize = self.running.len() - 1;
            self.end_running(last);
            control.metrics.completed = control.metrics.completed.wrapping_add(1);
            control.fail();
        }
    }

    fn find_running(&self, ticket: u64) -> (found: Option<usize>)
        ensures
            match found {
                Some(at) => is_first_at(self@.tickets, ticket, at as int),
                None => !self@.tickets.contains(ticket),
            },
    {
        let ghost tickets = self@.tickets;
        let mut i: usize = 0;
        while i < self.running.len()
            invariant
                i <= self.running@.len(),
                tickets == self@.tickets,
                forall|j: int| 0 <= j < i ==> #[trigger] tickets[j] != ticket,
            decreases self.running@.len() - i,
        {
            assert(tickets[i as int] == self.running@[i as int].ticket);
            if self.running[i].ticket == ticket {
                return Some(i);
            }
            i = i + 1;
        }
        None
    }

    /// Notes that an operation ended, or that no executor is left to tell.
    ///
    /// Returns whether an operation of that number ran.
    pub fn accept_completed(
        &mut self,
        control: &mut PlatformIoControl,
        completed: Option<u64>,
    ) -> (ran: bool)
        requires
            old(self).wf(),
            !old(self)@.offering,
        ensures
            final(self).wf(),
            match completed {
                None => {
                    &&& !ran
                    &&& final(self)@ == old(self)@
                    &&& *final(control) == control::in_state(
                        *old(control),
                        PlatformIoState::Failed,
                    )
                },
                Some(ticket) => {
                    &&& ran == old(self)@.tickets.contains(ticket)
                    &&& if ran {
                        &&& exists|i: int|
                            #[trigger] is_first_at(old(self)@.tickets, ticket, i) && final(self)@
                                == without(old(self)@, i)
                        &&& *final(control) == control::ended(*old(control))
                    } else {
                        &&& final(self)@ == old(self)@
                        &&& *final(control) == *old(control)
                    }
                },
            },
    {
        let ghost before = self@;
        match completed {
            None => {
                control.fail();
                false
            },
            Some(ticket) => match self.find_running(ticket) {
                None => false,
                Some(at) => {
                    assert(before.tickets[at as int] == ticket);
                    assert(is_first_at(before.tickets, ticket, at as int));
                    self.end_running(at);
                    control.metrics.in_flight = control.metrics.in_flight.wrapping_sub(1);
                    control.metrics.completed = control.metrics.completed.wrapping_add(1);
                    true
                },
            },
        }
    }

    /// Notes that an executor went away before it ran an operation.
    ///
    /// Returns the error that its caller gets.
    pub fn abandon(&mut self, control: &mut PlatformIoControl, ticket: u64) -> (error: Error)
        requires
            old(self).wf(),
            !old(self)@.offering,
        ensures
            final(self).wf(),
            error.says(ErrorKind::RuntimeBusy, PlatformIoStartFailure::Abandoned.message()),
            if old(self)@.tickets.contains(ticket) {
                &&& exists|i: int|
                    #[trigger] is_first_at(old(self)@.tickets, ticket, i) && final(self)@
                        == without(old(self)@, i)
                &&& *final(control) == control::ended(
                    control::in_state(*old(control), PlatformIoState::Failed),
                )
            } else {
                &&& final(self)@ == old(self)@
                &&& *final(control) == control::in_state(*old(control), PlatformIoState::Failed)
            },
    {
        control.fail();
        let _ = self.accept_completed(control, Some(ticket));
        PlatformIoStartFailure::Abandoned.error()
    }

    /// Returns what to wait for.
    pub fn next_wait(&self) -> (wait: PlatformIoWait)
        requires
            self.wf(),
            !self@.offering,
        ensures
            wait == if self@.running.len() == 0 {
                if self@.closed && self@.waiting.len() == 0 {
                    PlatformIoWait::Finished
                } else {
                    PlatformIoWait::Input
                }
            } else if self@.closed {
                PlatformIoWait::Completion
            } else {
                PlatformIoWait::InputOrCompletion
            },
    {
        if self.running.len() == 0 {
            if self.input_closed && self.pending.len() == 0 {
                PlatformIoWait::Finished
            } else {
                PlatformIoWait::Input
            }
        } else if self.input_closed {
            PlatformIoWait::Completion
        } else {
            PlatformIoWait::InputOrCompletion
        }
    }

    /// Stops. `inbox` holds the numbers of operations that were sent and not yet taken.
    ///
    /// Returns the numbers of those that end with [`PlatformIoStartFailure::Stopped`].
    pub fn stop(&mut self, control: &mut PlatformIoControl, inbox: Vec<u64>) -> (ends: Vec<u64>)
        requires
            old(self).wf(),
            old(self)@.waiting.len() + inbox@.len() <= usize::MAX,
        ensures
            final(self).wf(),
            ends@ == numbers(old(self)@.waiting) + inbox@,
            final(self)@ == (Schedule { waiting: Seq::empty(), ..old(self)@ }),
            *final(control) == control::dropped(
                control::in_state(*old(control), PlatformIoState::Failed),
                ends@.len() as usize,
            ),
    {
        control.fail();
        let mut ends: Vec<u64> = self.drain_pending();
        let mut more: Vec<u64> = inbox;
        ends.append(&mut more);
        control.metrics.queued = control.metrics.queued.wrapping_sub(ends.len());
        control.metrics.completed = control.metrics.completed.wrapping_add(ends.len() as u64);
        ends
    }

    /// Tells how many operations executors have.
    pub fn active(&self) -> (active: usize)
        requires
            self.wf(),
        ensures
            active == self@.running.len() - (if self@.offering {
                1int
            } else {
                0int
            }),
    {
        if self.offering {
            self.running.len() - 1
        } else {
            self.running.len()
        }
    }

    /// Tells whether an operation is offered.
    pub fn is_offering(&self) -> (offering: bool)
        ensures
            offering == self@.offering,
    {
        self.offering
    }
}

/// Operations that conflict run in the order in which they came: none is offered before one that
/// came earlier and conflicts with it.
pub proof fn conflicting_operations_keep_their_order(schedule: Schedule, i: int, j: int)
    requires
        is_next(schedule, i),
        0 <= j < i,
    ensures
        !resources::conflict(schedule.waiting[j].claims, schedule.waiting[i].claims),
{
}

/// An operation that uses nothing that another uses which runs or came earlier may run: it does
/// not wait for operations that do not concern it.
pub proof fn unrelated_operations_do_not_wait(schedule: Schedule, i: int)
    requires
        0 <= i < schedule.waiting.len(),
        forall|k: int|
            0 <= k < schedule.running.len() ==> !resources::conflict(
                #[trigger] schedule.running[k],
                schedule.waiting[i].claims,
            ),
        forall|j: int|
            0 <= j < i ==> !resources::conflict(
                (#[trigger] schedule.waiting[j]).claims,
                schedule.waiting[i].claims,
            ),
    ensures
        may_run(schedule, i),
{
}

/// Where nothing runs, the operation that came first may run: no operation waits for ever.
pub proof fn first_operation_is_never_stuck(schedule: Schedule)
    requires
        schedule.waiting.len() > 0,
        schedule.running.len() == 0,
    ensures
        is_next(schedule, 0),
{
}

/// Whether the counts are those of the operations: `sent` of them were admitted and have not
/// been taken by the scheduler yet.
pub open spec fn accounts(schedule: Schedule, control: PlatformIoControl, sent: nat) -> bool {
    let offers = if schedule.offering {
        1int
    } else {
        0int
    };
    &&& schedule.tickets.len() == schedule.running.len()
    &&& schedule.offering ==> schedule.running.len() > 0
    &&& control.metrics.queued == sent + schedule.waiting.len()
    &&& control.metrics.in_flight == schedule.running.len() - offers
    &&& (control.metrics.submitted - control.metrics.completed - sent - schedule.waiting.len()
        - schedule.running.len()) % 0x1_0000_0000_0000_0000 == 0
}

/// Admitting an operation keeps the counts.
pub proof fn admission_is_counted(schedule: Schedule, control: PlatformIoControl, sent: nat)
    requires
        accounts(schedule, control, sent),
        control::refusal(control, true) is None,
    ensures
        accounts(schedule, control::admitted(control), sent + 1),
{
}

/// Taking an operation that was sent keeps the counts, and so does ending it at once.
pub proof fn arrival_is_counted(
    schedule: Schedule,
    control: PlatformIoControl,
    sent: nat,
    newcomer: Waiting,
)
    requires
        accounts(schedule, control, sent),
        sent > 0,
    ensures
        accounts(
            Schedule { waiting: schedule.waiting.push(newcomer), ..schedule },
            control,
            (sent - 1) as nat,
        ),
        accounts(schedule, control::dropped(control, 1), (sent - 1) as nat),
{
}

/// Offering an operation keeps the counts, whether or not an executor takes it.
pub proof fn offer_is_counted(schedule: Schedule, control: PlatformIoControl, sent: nat, i: int)
    requires
        accounts(schedule, control, sent),
        !schedule.offering,
        schedule.running.len() < PLATFORM_IO_MAX_IN_FLIGHT,
        0 <= i < schedule.waiting.len(),
    ensures
        accounts(offered(schedule, i), control::unqueued(control), sent),
        accounts(
            Schedule { offering: false, ..offered(schedule, i) },
            control::begun(control::unqueued(control)),
            sent,
        ),
        accounts(
            without(offered(schedule, i), schedule.running.len() as int),
            control::turned_down(control::unqueued(control)),
            sent,
        ),
{
}

/// Ending an operation that runs keeps the counts.
pub proof fn end_is_counted(schedule: Schedule, control: PlatformIoControl, sent: nat, i: int)
    requires
        accounts(schedule, control, sent),
        !schedule.offering,
        0 <= i < schedule.running.len(),
    ensures
        accounts(without(schedule, i), control::ended(control), sent),
{
}

/// Ending all operations that wait keeps the counts.
pub proof fn failure_is_counted(schedule: Schedule, control: PlatformIoControl, sent: nat)
    requires
        accounts(schedule, control, sent),
        schedule.waiting.len() <= usize::MAX,
    ensures
        accounts(
            Schedule { waiting: Seq::empty(), ..schedule },
            control::dropped(control, schedule.waiting.len() as usize),
            sent,
        ),
{
}

/// A scheduler that has finished has ended every operation that was admitted.
pub proof fn finished_scheduler_owes_nothing(schedule: Schedule, control: PlatformIoControl)
    requires
        accounts(schedule, control, 0),
        schedule.waiting.len() == 0,
        schedule.running.len() == 0,
    ensures
        control.metrics.queued == 0,
        control.metrics.in_flight == 0,
        control.metrics.submitted == control.metrics.completed,
{
}

} // verus!
