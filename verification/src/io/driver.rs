//! Submitting operations to the platform I/O scheduler.
use vstd::prelude::*;

use crate::error::Result;
use crate::io::completion::{
    IoCompletion, IoDriverInfo, IoDriverKind, PlatformIoCompletionMetric, StorageReadBuffer,
};
use crate::io::control;
use crate::io::control::{PlatformIoControl, PlatformIoState, PLATFORM_IO_SCHEDULER_QUEUE_DEPTH};
use crate::io::matrix;
use crate::io::matrix::{PlatformIoBackendMatrix, PlatformIoOperation};
use crate::io::task::{PlatformIoAppendSession, PlatformIoPublishPlan, PlatformIoTask};
use crate::options::DurabilityMode;

verus! {

/// What a driver tells about itself.
#[derive(Debug, Clone, Copy, PartialEq, Eq, Structural)]
pub struct PlatformIoDriverStats {
    /// The most operations that wait.
    pub queue_capacity: usize,
    /// Operations that wait.
    pub queued: usize,
    /// Operations that executors have.
    pub in_flight: usize,
    /// The most operations that executors had at once.
    pub max_in_flight: usize,
    /// Operations that the native executor runs.
    pub native_in_flight: usize,
    /// The most operations that the native executor ran at once.
    pub native_max_in_flight: usize,
    /// Operations that were accepted.
    pub submitted: u64,
    /// Operations that have ended.
    pub completed: u64,
    /// Operations that were refused.
    pub rejected: u64,
}

/// Whether a submission came out as it must: an operation that was admitted is to be sent, and
/// its result is awaited; another is refused.
pub open spec fn submitted<T>(
    before: PlatformIoControl,
    after: PlatformIoControl,
    connected: bool,
    operation: PlatformIoOperation,
    result: Result<(PlatformIoTask, IoCompletion<T>)>,
) -> bool {
    match result {
        Ok((_, completion)) => {
            &&& control::refusal(before, connected) is None
            &&& after == control::admitted(before)
            &&& completion.outcome() is None
            &&& completion.waiting() is None
            &&& completion.metric() == Some(
                PlatformIoCompletionMetric { operation, execution_class: None },
            )
        },
        Err(error) => {
            &&& control::refusal(before, connected) matches Some((kind, text))
            &&& error.says(kind, text)
            &&& after == control::refused(before)
        },
    }
}

/// The driver that hands operations to a scheduler.
#[derive(Debug, Clone, Copy, PartialEq, Eq, Structural)]
pub struct PlatformIoDriver {
    /// How operations are run.
    pub matrix: PlatformIoBackendMatrix,
    /// Whether there is a queue to send operations to.
    pub connected: bool,
}

impl PlatformIoDriver {
    /// A driver with a queue.
    pub fn new(matrix: PlatformIoBackendMatrix) -> (driver: PlatformIoDriver)
        ensures
            driver == (PlatformIoDriver { matrix, connected: true }),
    {
        PlatformIoDriver { matrix, connected: true }
    }

    /// Describes the driver.
    pub fn info() -> (info: IoDriverInfo)
        ensures
            info.kind == IoDriverKind::Platform,
    {
        IoDriverInfo::platform()
    }

    /// Returns how operations are run.
    pub fn backend_matrix(&self) -> (matrix: PlatformIoBackendMatrix)
        ensures
            matrix == self.matrix,
    {
        self.matrix
    }

    /// Tells whether any operation runs without blocking its caller.
    pub fn supports_platform_async_io(&self) -> (supported: bool)
        ensures
            supported == exists|operation: PlatformIoOperation|
                matrix::class_is_async(#[trigger] self.matrix.class_of(operation)),
    {
        self.matrix.supports_platform_async_io()
    }

    /// Returns what has been counted.
    pub fn stats(&self, control: &PlatformIoControl) -> (stats: PlatformIoDriverStats)
        ensures
            stats == (PlatformIoDriverStats {
                queue_capacity: PLATFORM_IO_SCHEDULER_QUEUE_DEPTH,
                queued: control.metrics.queued,
                in_flight: control.metrics.in_flight,
                max_in_flight: control.metrics.max_in_flight,
                native_in_flight: control.metrics.native_in_flight,
                native_max_in_flight: control.metrics.native_max_in_flight,
                submitted: control.metrics.submitted,
                completed: control.metrics.completed,
                rejected: control.metrics.rejected,
            }),
    {
        PlatformIoDriverStats {
            queue_capacity: PLATFORM_IO_SCHEDULER_QUEUE_DEPTH,
            queued: control.metrics.queued,
            in_flight: control.metrics.in_flight,
            max_in_flight: control.metrics.max_in_flight,
            native_in_flight: control.metrics.native_in_flight,
            native_max_in_flight: control.metrics.native_max_in_flight,
            submitted: control.metrics.submitted,
            completed: control.metrics.completed,
            rejected: control.metrics.rejected,
        }
    }

    /// Begins to close: the queue is given up. Returns whether the scheduler is to be joined.
    pub fn begin_close(&mut self, control: &mut PlatformIoControl) -> (drain: bool)
        ensures
            drain == (old(control).state == PlatformIoState::Running || old(control).state
                == PlatformIoState::Failed),
            *final(control) == (if old(control).state == PlatformIoState::Running {
                control::in_state(*old(control), PlatformIoState::Closing)
            } else {
                *old(control)
            }),
            *final(self) == (if drain {
                (PlatformIoDriver { matrix: old(self).matrix, connected: false })
            } else {
                *old(self)
            }),
    {
        let drain: bool = control.begin_close();
        if drain {
            self.connected = false;
        }
        drain
    }

    /// Submits reading the length of a file.
    pub fn submit_len_path(
        &self,
        control: &mut PlatformIoControl,
        path: String,
    ) -> (result: Result<(PlatformIoTask, IoCompletion<u64>)>)
        ensures
            submitted(
                *old(control),
                *final(control),
                self.connected,
                PlatformIoOperation::LengthLookup,
                result,
            ),
            result matches Ok((task, _)) ==> task == (PlatformIoTask::Len { path }),
    {
        control.let_in(self.connected)?;
        let completion: IoCompletion<u64> = IoCompletion::new_platform(
            PlatformIoOperation::LengthLookup,
        );
        Ok((PlatformIoTask::Len { path }, completion))
    }

    /// Submits reading a range of a file.
    pub fn submit_read_exact_at_owned_path(
        &self,
        control: &mut PlatformIoControl,
        path: String,
        offset: usize,
        len: usize,
    ) -> (result: Result<(PlatformIoTask, IoCompletion<StorageReadBuffer>)>)
        ensures
            submitted(
                *old(control),
                *final(control),
                self.connected,
                PlatformIoOperation::OwnedRandomRead,
                result,
            ),
            result matches Ok((task, _)) ==> task == (PlatformIoTask::ReadExactAtOwned { path, offset, len }),
    {
        control.let_in(self.connected)?;
        let completion: IoCompletion<StorageReadBuffer> = IoCompletion::new_platform(
            PlatformIoOperation::OwnedRandomRead,
        );
        Ok((PlatformIoTask::ReadExactAtOwned { path, offset, len }, completion))
    }

    /// Submits reading a file that may be missing.
    pub fn submit_read_optional_path(
        &self,
        control: &mut PlatformIoControl,
        path: String,
        max_bytes: usize,
    ) -> (result: Result<(PlatformIoTask, IoCompletion<Option<Vec<u8>>>)>)
        ensures
            submitted(
                *old(control),
                *final(control),
                self.connected,
                PlatformIoOperation::OptionalWholeObjectRead,
                result,
            ),
            result matches Ok((task, _)) ==> task == (PlatformIoTask::ReadOptional { path, max_bytes }),
    {
        control.let_in(self.connected)?;
        let completion: IoCompletion<Option<Vec<u8>>> = IoCompletion::new_platform(
            PlatformIoOperation::OptionalWholeObjectRead,
        );
        Ok((PlatformIoTask::ReadOptional { path, max_bytes }, completion))
    }

    /// Submits publishing a file.
    pub fn submit_publish(
        &self,
        control: &mut PlatformIoControl,
        plan: PlatformIoPublishPlan,
    ) -> (result: Result<(PlatformIoTask, IoCompletion<()>)>)
        ensures
            submitted(
                *old(control),
                *final(control),
                self.connected,
                plan.operation,
                result,
            ),
            result matches Ok((task, _)) ==> task == (PlatformIoTask::Publish { plan }),
    {
        control.let_in(self.connected)?;
        let completion: IoCompletion<()> = IoCompletion::new_platform(
            plan.operation,
        );
        Ok((PlatformIoTask::Publish { plan }, completion))
    }

    /// Submits appending to a file.
    pub fn submit_append(
        &self,
        control: &mut PlatformIoControl,
        session: &PlatformIoAppendSession,
        bytes: Vec<u8>,
        durability: DurabilityMode,
    ) -> (result: Result<(PlatformIoTask, IoCompletion<()>)>)
        ensures
            submitted(
                *old(control),
                *final(control),
                self.connected,
                PlatformIoOperation::Append,
                result,
            ),
            result matches Ok((task, _)) ==> (task matches PlatformIoTask::Append {
                session: used,
                bytes: sent,
                durability: wanted,
            } && used.path@ == session.path@ && sent == bytes && wanted == durability),
    {
        control.let_in(self.connected)?;
        let completion: IoCompletion<()> = IoCompletion::new_platform(
            PlatformIoOperation::Append,
        );
        let copied: PlatformIoAppendSession = PlatformIoAppendSession::opened(
            session.path.as_str(),
        );
        Ok((PlatformIoTask::Append { session: copied, bytes, durability }, completion))
    }

    /// Submits opening a file to append to it.
    pub fn submit_open_append(
        &self,
        control: &mut PlatformIoControl,
        path: String,
    ) -> (result: Result<(PlatformIoTask, IoCompletion<PlatformIoAppendSession>)>)
        ensures
            submitted(
                *old(control),
                *final(control),
                self.connected,
                PlatformIoOperation::AppendObjectOpen,
                result,
            ),
            result matches Ok((task, _)) ==> task == (PlatformIoTask::OpenAppend { path }),
    {
        control.let_in(self.connected)?;
        let completion: IoCompletion<PlatformIoAppendSession> = IoCompletion::new_platform(
            PlatformIoOperation::AppendObjectOpen,
        );
        Ok((PlatformIoTask::OpenAppend { path }, completion))
    }

    /// Submits making a file durable.
    pub fn submit_persist(
        &self,
        control: &mut PlatformIoControl,
        session: &PlatformIoAppendSession,
        durability: DurabilityMode,
    ) -> (result: Result<(PlatformIoTask, IoCompletion<()>)>)
        ensures
            submitted(
                *old(control),
                *final(control),
                self.connected,
                PlatformIoOperation::Persist,
                result,
            ),
            result matches Ok((task, _)) ==> (task matches PlatformIoTask::Persist {
                session: used,
                durability: wanted,
            } && used.path@ == session.path@ && wanted == durability),
    {
        control.let_in(self.connected)?;
        let completion: IoCompletion<()> = IoCompletion::new_platform(
            PlatformIoOperation::Persist,
        );
        let copied: PlatformIoAppendSession = PlatformIoAppendSession::opened(
            session.path.as_str(),
        );
        Ok((PlatformIoTask::Persist { session: copied, durability }, completion))
    }

    /// Submits deleting a file.
    pub fn submit_delete_path(
        &self,
        control: &mut PlatformIoControl,
        path: String,
    ) -> (result: Result<(PlatformIoTask, IoCompletion<()>)>)
        ensures
            submitted(
                *old(control),
                *final(control),
                self.connected,
                PlatformIoOperation::ObjectDelete,
                result,
            ),
            result matches Ok((task, _)) ==> task == (PlatformIoTask::Delete { path }),
    {
        control.let_in(self.connected)?;
        let completion: IoCompletion<()> = IoCompletion::new_platform(
            PlatformIoOperation::ObjectDelete,
        );
        Ok((PlatformIoTask::Delete { path }, completion))
    }

    /// Submits creating a directory.
    pub fn submit_create_dir_all_path(
        &self,
        control: &mut PlatformIoControl,
        path: String,
    ) -> (result: Result<(PlatformIoTask, IoCompletion<()>)>)
        ensures
            submitted(
                *old(control),
                *final(control),
                self.connected,
                PlatformIoOperation::DirectoryCreate,
                result,
            ),
            result matches Ok((task, _)) ==> task == (PlatformIoTask::CreateDirAll { path }),
    {
        control.let_in(self.connected)?;
        let completion: IoCompletion<()> = IoCompletion::new_platform(
            PlatformIoOperation::DirectoryCreate,
        );
        Ok((PlatformIoTask::CreateDirAll { path }, completion))
    }

    /// Submits making a directory durable.
    pub fn submit_sync_dir_path(
        &self,
        control: &mut PlatformIoControl,
        path: String,
    ) -> (result: Result<(PlatformIoTask, IoCompletion<()>)>)
        ensures
            submitted(
                *old(control),
                *final(control),
                self.connected,
                PlatformIoOperation::DirectorySync,
                result,
            ),
            result matches Ok((task, _)) ==> task == (PlatformIoTask::SyncDir { path }),
    {
        control.let_in(self.connected)?;
        let completion: IoCompletion<()> = IoCompletion::new_platform(
            PlatformIoOperation::DirectorySync,
        );
        Ok((PlatformIoTask::SyncDir { path }, completion))
    }

    /// Submits listing the files of a directory.
    pub fn submit_list_file_paths_path(
        &self,
        control: &mut PlatformIoControl,
        path: String,
    ) -> (result: Result<(PlatformIoTask, IoCompletion<Vec<String>>)>)
        ensures
            submitted(
                *old(control),
                *final(control),
                self.connected,
                PlatformIoOperation::DirectoryListing,
                result,
            ),
            result matches Ok((task, _)) ==> task == (PlatformIoTask::ListFilePaths { path }),
    {
        control.let_in(self.connected)?;
        let completion: IoCompletion<Vec<String>> = IoCompletion::new_platform(
            PlatformIoOperation::DirectoryListing,
        );
        Ok((PlatformIoTask::ListFilePaths { path }, completion))
    }

    /// Submits acquiring the lease of the only writer. The lease is known by a number.
    pub fn submit_acquire_writer_lease_path(
        &self,
        control: &mut PlatformIoControl,
        path: String,
        owner: Vec<u8>,
    ) -> (result: Result<(PlatformIoTask, IoCompletion<u64>)>)
        ensures
            submitted(
                *old(control),
                *final(control),
                self.connected,
                PlatformIoOperation::WriterLeaseAcquire,
                result,
            ),
            result matches Ok((task, _)) ==> task == (PlatformIoTask::AcquireWriterLease { path, owner }),
    {
        control.let_in(self.connected)?;
        let completion: IoCompletion<u64> = IoCompletion::new_platform(
            PlatformIoOperation::WriterLeaseAcquire,
        );
        Ok((PlatformIoTask::AcquireWriterLease { path, owner }, completion))
    }
}

} // verus!
