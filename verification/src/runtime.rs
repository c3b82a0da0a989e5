//! Runtime selection.
use vstd::prelude::*;

verus! {

/// Where asynchronous, blocking and background work runs.
#[derive(Debug, Clone, Copy, PartialEq, Eq, Structural)]
pub enum RuntimeMode {
    /// On the thread of the caller.
    Inline,
    /// On native threads.
    NativeThreads,
    /// On native threads, with storage served by the platform I/O driver.
    PlatformIo,
}

/// Runtime selected for a database.
#[derive(Debug, Clone, Copy, PartialEq, Eq, Structural)]
pub struct RuntimeOptions {
    /// Where work runs.
    pub mode: RuntimeMode,
}

impl RuntimeOptions {
    /// Runs work on the thread of the caller.
    pub fn inline() -> (options: RuntimeOptions)
        ensures
            options.mode == RuntimeMode::Inline,
    {
        RuntimeOptions { mode: RuntimeMode::Inline }
    }

    /// Runs work on native threads.
    pub fn native_threads() -> (options: RuntimeOptions)
        ensures
            options.mode == RuntimeMode::NativeThreads,
    {
        RuntimeOptions { mode: RuntimeMode::NativeThreads }
    }

    /// Serves storage through the platform I/O driver.
    pub fn platform_io() -> (options: RuntimeOptions)
        ensures
            options.mode == RuntimeMode::PlatformIo,
    {
        RuntimeOptions { mode: RuntimeMode::PlatformIo }
    }
}

impl Default for RuntimeOptions {
    fn default() -> (options: RuntimeOptions)
        ensures
            options.mode == RuntimeMode::NativeThreads,
    {
        RuntimeOptions::native_threads()
    }
}

} // verus!
