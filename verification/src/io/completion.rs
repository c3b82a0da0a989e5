//! The result of an operation that may not have finished yet.
use vstd::prelude::*;

use crate::error::{Error, ErrorKind, Result};
use crate::io::matrix::{PlatformIoOperation, PlatformIoTaskClass};

verus! {

/// Who runs operations.
#[derive(Debug, Clone, Copy, PartialEq, Eq, Structural)]
pub enum IoDriverKind {
    /// The caller.
    Inline,
    /// Threads that block.
    BlockingAdapter,
    /// The caller, when the operation is ready.
    ReadinessFallback,
    /// The platform I/O driver.
    Platform,
}

impl IoDriverKind {
    /// Tells whether operations run on threads that block.
    pub fn is_blocking_adapter(self) -> (blocking: bool)
        ensures
            blocking == (self == IoDriverKind::BlockingAdapter),
    {
        match self {
            IoDriverKind::BlockingAdapter => true,
            _ => false,
        }
    }
}

/// What a driver says of itself.
#[derive(Debug, Clone, Copy, PartialEq, Eq, Structural)]
pub struct IoDriverInfo {
    /// Who runs operations.
    pub kind: IoDriverKind,
}

impl IoDriverInfo {
    /// The driver that runs operations on the caller.
    pub fn inline() -> (info: IoDriverInfo)
        ensures
            info.kind == IoDriverKind::Inline,
    {
        IoDriverInfo { kind: IoDriverKind::Inline }
    }

    /// The driver that runs operations on threads that block.
    pub fn blocking_adapter() -> (info: IoDriverInfo)
        ensures
            info.kind == IoDriverKind::BlockingAdapter,
    {
        IoDriverInfo { kind: IoDriverKind::BlockingAdapter }
    }

    /// The driver that runs operations on the caller, when they are ready.
    pub fn readiness_fallback() -> (info: IoDriverInfo)
        ensures
            info.kind == IoDriverKind::ReadinessFallback,
    {
        IoDriverInfo { kind: IoDriverKind::ReadinessFallback }
    }

    /// The platform I/O driver.
    pub fn platform() -> (info: IoDriverInfo)
        ensures
            info.kind == IoDriverKind::Platform,
    {
        IoDriverInfo { kind: IoDriverKind::Platform }
    }

    /// Returns who runs operations.
    pub fn kind(self) -> (kind: IoDriverKind)
        ensures
            kind == self.kind,
    {
        self.kind
    }
}

/// Bytes that were read, and where they start.
#[derive(Debug, PartialEq, Eq)]
pub struct StorageReadBuffer {
    offset: usize,
    bytes: Vec<u8>,
}

impl StorageReadBuffer {
    /// Where the bytes start.
    pub closed spec fn start(&self) -> usize {
        self.offset
    }

    /// The bytes.
    pub closed spec fn contents(&self) -> Seq<u8> {
        self.bytes@
    }

    /// Holds bytes that were read at an offset.
    pub fn from_vec(offset: usize, bytes: Vec<u8>) -> (buffer: StorageReadBuffer)
        ensures
            buffer.start() == offset,
            buffer.contents() == bytes@,
    {
        StorageReadBuffer { offset, bytes }
    }

    /// Returns where the bytes start.
    pub fn offset(&self) -> (offset: usize)
        ensures
            offset == self.start(),
    {
        self.offset
    }

    /// Returns the bytes.
    pub fn into_bytes(self) -> (bytes: Vec<u8>)
        ensures
            bytes@ == self.contents(),
    {
        self.bytes
    }
}

/// What is counted when a platform operation finishes.
#[derive(Debug, Clone, Copy, PartialEq, Eq, Structural)]
pub struct PlatformIoCompletionMetric {
    /// The operation.
    pub operation: PlatformIoOperation,
    /// How it was served, once it was started.
    pub execution_class: Option<PlatformIoTaskClass>,
}

/// What finishing an operation leads to.
#[derive(Debug, Clone, Copy, PartialEq, Eq)]
pub struct Finished {
    /// The waker to wake.
    pub woken: Option<u64>,
    /// The operation to count, with how it was served.
    pub counted: Option<(PlatformIoOperation, PlatformIoTaskClass)>,
}

/// The result of an operation that may not have finished yet.
///
/// Wakers are known by the numbers that the host gave them.
#[derive(Debug)]
pub struct IoCompletion<T> {
    result: Option<Result<T>>,
    waker: Option<u64>,
    platform_metric: Option<PlatformIoCompletionMetric>,
}

impl<T> IoCompletion<T> {
    /// The result, until it is handed out.
    pub closed spec fn outcome(&self) -> Option<Result<T>> {
        self.result
    }

    /// The waker that waits.
    pub closed spec fn waiting(&self) -> Option<u64> {
        self.waker
    }

    /// What is counted when the operation finishes.
    pub closed spec fn metric(&self) -> Option<PlatformIoCompletionMetric> {
        self.platform_metric
    }

    /// An operation that has not finished.
    pub fn new() -> (completion: IoCompletion<T>)
        ensures
            completion.outcome() is None,
            completion.waiting() is None,
            completion.metric() is None,
    {
        IoCompletion { result: None, waker: None, platform_metric: None }
    }

    /// A platform operation that has not finished.
    pub fn new_platform(operation: PlatformIoOperation) -> (completion: IoCompletion<T>)
        ensures
            completion.outcome() is None,
            completion.waiting() is None,
            completion.metric() == Some(
                PlatformIoCompletionMetric { operation, execution_class: None },
            ),
    {
        IoCompletion {
            result: None,
            waker: None,
            platform_metric: Some(
                PlatformIoCompletionMetric { operation, execution_class: None },
            ),
        }
    }

    /// Takes note of how a platform operation is served. An operation is started once.
    pub fn mark_platform_execution(&mut self, class: PlatformIoTaskClass) -> (result: Result<()>)
        ensures
            final(self).outcome() == old(self).outcome(),
            final(self).waiting() == old(self).waiting(),
            match result {
                Ok(()) => {
                    &&& old(self).outcome() is None
                    &&& old(self).metric() matches Some(metric) && metric.execution_class is None
                        && final(self).metric() == Some(
                        PlatformIoCompletionMetric {
                            operation: metric.operation,
                            execution_class: Some(class),
                        },
                    )
                },
                Err(error) => if old(self).outcome() is Some {
                    &&& final(self).metric() == old(self).metric()
                    &&& error.says(
                        ErrorKind::RuntimeBusy,
                        "platform I/O execution started after completion"@,
                    )
                } else {
                    match old(self).metric() {
                        None => {
                            &&& final(self).metric() is None
                            &&& error.says(
                                ErrorKind::RuntimeBusy,
                                "platform I/O completion has no execution metric"@,
                            )
                        },
                        Some(metric) => {
                            &&& metric.execution_class is Some
                            &&& final(self).metric() == Some(
                                PlatformIoCompletionMetric {
                                    operation: metric.operation,
                                    execution_class: Some(class),
                                },
                            )
                            &&& error.says(
                                ErrorKind::RuntimeBusy,
                                "platform I/O execution class was assigned more than once"@,
                            )
                        },
                    }
                },
            },
    {
        if self.result.is_some() {
            return Err(Error::runtime_busy("platform I/O execution started after completion"));
        }
        let metric: PlatformIoCompletionMetric = match self.platform_metric {
            Some(metric) => metric,
            None => {
                return Err(Error::runtime_busy("platform I/O completion has no execution metric"));
            },
        };
        let marked_before: bool = metric.execution_class.is_some();
        self.platform_metric = Some(
            PlatformIoCompletionMetric {
                operation: metric.operation,
                execution_class: Some(class),
            },
        );
        if marked_before {
            return Err(
                Error::runtime_busy("platform I/O execution class was assigned more than once"),
            );
        }
        Ok(())
    }

    /// Finishes the operation, once.
    pub fn complete(&mut self, result: Result<T>) -> (finished: Result<Finished>)
        ensures
            match finished {
                Ok(finished) => {
                    &&& old(self).outcome() is None
                    &&& final(self).outcome() == Some(result)
                    &&& final(self).waiting() is None
                    &&& final(self).metric() is None
                    &&& finished.woken == old(self).waiting()
                    &&& finished.counted == match old(self).metric() {
                        Some(metric) => match metric.execution_class {
                            Some(class) => Some((metric.operation, class)),
                            None => None,
                        },
                        None => None,
                    }
                },
                Err(error) => {
                    &&& old(self).outcome() is Some
                    &&& *final(self) == *old(self)
                    &&& error.says(ErrorKind::RuntimeBusy, "I/O completion already finished"@)
                },
            },
    {
        if self.result.is_some() {
            return Err(Error::runtime_busy("I/O completion already finished"));
        }
        let counted: Option<(PlatformIoOperation, PlatformIoTaskClass)> =
            match self.platform_metric {
            Some(metric) => match metric.execution_class {
                Some(class) => Some((metric.operation, class)),
                None => None,
            },
            None => None,
        };
        let woken: Option<u64> = self.waker;
        self.platform_metric = None;
        self.result = Some(result);
        self.waker = None;
        Ok(Finished { woken, counted })
    }

    /// Tells whether the operation finished.
    pub fn is_finished(&self) -> (finished: bool)
        ensures
            finished == (self.outcome() is Some),
    {
        self.result.is_some()
    }

    /// Takes the result of an operation that finished, or waits with a waker.
    pub fn poll(&mut self, waker: u64) -> (ready: Option<Result<T>>)
        ensures
            final(self).metric() == old(self).metric(),
            match ready {
                Some(result) => {
                    &&& old(self).outcome() == Some(result)
                    &&& final(self).outcome() is None
                    &&& final(self).waiting() == old(self).waiting()
                },
                None => {
                    &&& old(self).outcome() is None
                    &&& final(self).outcome() is None
                    &&& final(self).waiting() == Some(waker)
                },
            },
    {
        match self.result.take() {
            Some(result) => Some(result),
            None => {
                self.waker = Some(waker);
                None
            },
        }
    }
}

/// The driver that runs operations on the caller.
#[derive(Debug, Clone, Copy, PartialEq, Eq, Structural)]
pub struct InlineIoDriver;

impl InlineIoDriver {
    /// Returns what the driver says of itself.
    pub fn info(&self) -> (info: IoDriverInfo)
        ensures
            info.kind == IoDriverKind::Inline,
    {
        IoDriverInfo::inline()
    }

    fn submit_inline<T, F: FnOnce() -> Result<T>>(operation: F) -> (result: Result<IoCompletion<T>>)
        requires
            call_requires(operation, ()),
        ensures
            result matches Ok(completion) && completion.outcome() matches Some(outcome)
                && call_ensures(operation, (), outcome),
    {
        let mut completion: IoCompletion<T> = IoCompletion::new();
        let outcome: Result<T> = operation();
        match completion.complete(outcome) {
            Ok(_) => Ok(completion),
            Err(error) => Err(error),
        }
    }

    /// Reads a length.
    pub fn submit_len<F: FnOnce() -> Result<u64>>(&self, operation: F) -> (result: Result<
        IoCompletion<u64>,
    >)
        requires
            call_requires(operation, ()),
        ensures
            result matches Ok(completion) && completion.outcome() matches Some(outcome)
                && call_ensures(operation, (), outcome),
    {
        Self::submit_inline(operation)
    }

    /// Reads a range.
    pub fn submit_read_exact_at_owned<F: FnOnce() -> Result<StorageReadBuffer>>(
        &self,
        operation: F,
    ) -> (result: Result<IoCompletion<StorageReadBuffer>>)
        requires
            call_requires(operation, ()),
        ensures
            result matches Ok(completion) && completion.outcome() matches Some(outcome)
                && call_ensures(operation, (), outcome),
    {
        Self::submit_inline(operation)
    }

    /// Appends.
    pub fn submit_append<F: FnOnce() -> Result<()>>(&self, operation: F) -> (result: Result<
        IoCompletion<()>,
    >)
        requires
            call_requires(operation, ()),
        ensures
            result matches Ok(completion) && completion.outcome() matches Some(outcome)
                && call_ensures(operation, (), outcome),
    {
        Self::submit_inline(operation)
    }

    /// Makes an object durable.
    pub fn submit_sync<F: FnOnce() -> Result<()>>(&self, operation: F) -> (result: Result<
        IoCompletion<()>,
    >)
        requires
            call_requires(operation, ()),
        ensures
            result matches Ok(completion) && completion.outcome() matches Some(outcome)
                && call_ensures(operation, (), outcome),
    {
        Self::submit_inline(operation)
    }

    /// Advances pending operations, of which there are none.
    pub fn step(&self) -> (advanced: Result<usize>)
        ensures
            advanced matches Ok(count) && count == 0,
    {
        Ok(0)
    }

    /// Finishes pending operations, of which there are none.
    pub fn drain(&self) -> (finished: Result<usize>)
        ensures
            finished matches Ok(count) && count == 0,
    {
        Ok(0)
    }
}

/// Returns the result of an operation that ran on a thread that blocks, where `None` says that
/// the operation panicked.
pub fn blocking_outcome<T>(outcome: Option<Result<T>>) -> (result: Result<T>)
    ensures
        match outcome {
            Some(outcome) => result == outcome,
            None => result matches Err(error) && error.says(
                ErrorKind::RuntimeBusy,
                "blocking I/O task panicked"@,
            ),
        },
{
    match outcome {
        Some(outcome) => outcome,
        None => Err(Error::runtime_busy("blocking I/O task panicked")),
    }
}

/// An operation for a thread that blocks, and what awaits its result.
#[verifier::reject_recursive_types(T)]
pub struct BlockingIoJob<T, F: FnOnce() -> Result<T>> {
    operation: F,
    completion: IoCompletion<T>,
}

impl<T, F: FnOnce() -> Result<T>> BlockingIoJob<T, F> {
    /// The operation.
    pub closed spec fn spec_operation(&self) -> F {
        self.operation
    }

    #[verifier::type_invariant]
    closed spec fn is_pending(&self) -> bool {
        self.completion.outcome() is None
    }

    fn new(operation: F) -> (job: BlockingIoJob<T, F>)
        ensures
            job.spec_operation() == operation,
    {
        BlockingIoJob { operation, completion: IoCompletion::new() }
    }

    /// Runs the operation and finishes it.
    pub fn run(self) -> (completion: IoCompletion<T>)
        requires
            call_requires(self.spec_operation(), ()),
        ensures
            completion.outcome() matches Some(outcome) && call_ensures(
                self.spec_operation(),
                (),
                outcome,
            ),
    {
        proof {
            use_type_invariant(&self);
        }
        let mut completion: IoCompletion<T> = self.completion;
        let operation: F = self.operation;
        let outcome: Result<T> = blocking_outcome(Some(operation()));
        let _ = completion.complete(outcome);
        completion
    }
}

/// The driver that hands operations to threads that block.
#[derive(Debug, Clone, Copy, PartialEq, Eq, Structural)]
pub struct BlockingAdapterIoDriver;

impl BlockingAdapterIoDriver {
    /// Returns what the driver says of itself.
    pub fn info(&self) -> (info: IoDriverInfo)
        ensures
            info.kind == IoDriverKind::BlockingAdapter,
    {
        IoDriverInfo::blocking_adapter()
    }

    /// Hands over reading a length.
    pub fn submit_len<F: FnOnce() -> Result<u64>>(&self, operation: F) -> (job: BlockingIoJob<u64, F>)
        ensures
            job.spec_operation() == operation,
    {
        BlockingIoJob::new(operation)
    }

    /// Hands over reading a range.
    pub fn submit_read_exact_at_owned<F: FnOnce() -> Result<StorageReadBuffer>>(&self, operation: F) -> (job: BlockingIoJob<StorageReadBuffer, F>)
        ensures
            job.spec_operation() == operation,
    {
        BlockingIoJob::new(operation)
    }

    /// Hands over appending.
    pub fn submit_append<F: FnOnce() -> Result<()>>(&self, operation: F) -> (job: BlockingIoJob<(), F>)
        ensures
            job.spec_operation() == operation,
    {
        BlockingIoJob::new(operation)
    }

    /// Hands over making an object durable.
    pub fn submit_sync<F: FnOnce() -> Result<()>>(&self, operation: F) -> (job: BlockingIoJob<(), F>)
        ensures
            job.spec_operation() == operation,
    {
        BlockingIoJob::new(operation)
    }

    /// Advances pending operations, of which the driver keeps none.
    pub fn step(&self) -> (advanced: Result<usize>)
        ensures
            advanced matches Ok(count) && count == 0,
    {
        Ok(0)
    }

    /// Finishes pending operations, of which the driver keeps none.
    pub fn drain(&self) -> (finished: Result<usize>)
        ensures
            finished matches Ok(count) && count == 0,
    {
        Ok(0)
    }
}

} // verus!
