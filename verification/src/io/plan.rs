//! The file calls that an operation is made of.
use vstd::prelude::*;

use crate::error::{Error, ErrorKind, Result};
use crate::io::path;
use crate::io::path::parent_directory;
use crate::io::task::{PlatformIoParentCreation, PlatformIoTask};
use crate::options::DurabilityMode;
use crate::text;
use crate::text::{join, push_decimal};

verus! {

/// What of a file is made durable.
#[derive(Debug, Clone, Copy, PartialEq, Eq, Structural)]
pub enum FileSync {
    /// Nothing.
    Nothing,
    /// Its bytes.
    Data,
    /// Its bytes and its metadata.
    All,
}

/// What a log makes durable.
pub open spec fn log_sync(durability: DurabilityMode) -> FileSync {
    match durability {
        DurabilityMode::Buffered => FileSync::Nothing,
        DurabilityMode::Flush => FileSync::Nothing,
        DurabilityMode::SyncData => FileSync::Data,
        DurabilityMode::SyncAll => FileSync::All,
        DurabilityMode::SyncAllStrict => FileSync::All,
    }
}

/// Returns what a log makes durable.
#[verifier::when_used_as_spec(log_sync)]
pub fn sync_for_log(durability: DurabilityMode) -> (sync: FileSync)
    ensures
        sync == log_sync(durability),
{
    match durability {
        DurabilityMode::Buffered => FileSync::Nothing,
        DurabilityMode::Flush => FileSync::Nothing,
        DurabilityMode::SyncData => FileSync::Data,
        DurabilityMode::SyncAll => FileSync::All,
        DurabilityMode::SyncAllStrict => FileSync::All,
    }
}

/// What a file makes durable before it is published.
pub open spec fn publish_sync(durability: DurabilityMode) -> FileSync {
    match durability {
        DurabilityMode::Buffered => FileSync::Nothing,
        DurabilityMode::Flush => FileSync::Data,
        DurabilityMode::SyncData => FileSync::Data,
        DurabilityMode::SyncAll => FileSync::All,
        DurabilityMode::SyncAllStrict => FileSync::All,
    }
}

/// Returns what a file makes durable before it is published.
#[verifier::when_used_as_spec(publish_sync)]
pub fn sync_for_publish(durability: DurabilityMode) -> (sync: FileSync)
    ensures
        sync == publish_sync(durability),
{
    match durability {
        DurabilityMode::Buffered => FileSync::Nothing,
        DurabilityMode::Flush => FileSync::Data,
        DurabilityMode::SyncData => FileSync::Data,
        DurabilityMode::SyncAll => FileSync::All,
        DurabilityMode::SyncAllStrict => FileSync::All,
    }
}

/// Tells whether a rename is made durable in its directory.
pub fn requires_parent_dir_sync_after_rename(durability: DurabilityMode) -> (required: bool)
    ensures
        required == (publish_sync(durability) == FileSync::All),
{
    match durability {
        DurabilityMode::SyncAll => true,
        DurabilityMode::SyncAllStrict => true,
        _ => false,
    }
}

/// One file call.
#[derive(Debug, PartialEq, Eq)]
pub enum FileCall {
    /// Reads the length of a file.
    Length(String),
    /// Reads so many bytes of a file from an offset.
    ReadRange(String, usize, usize),
    /// Reads a file if it exists, unless it is longer than so many bytes.
    ReadIfPresent(String, usize),
    /// Creates a directory and those above it.
    CreateDirAll(String),
    /// Creates an empty file, or empties one.
    CreateFile(String),
    /// Opens a file to append to it, creating it if it is missing.
    OpenAppend(String),
    /// Opens a file that exists.
    OpenExisting(String),
    /// Opens a file, creating it if it is missing, and keeps what it holds.
    OpenOrCreate(String),
    /// Writes the bytes of the operation to the file that is open.
    Write,
    /// Makes the file that is open durable.
    Sync(FileSync),
    /// Gives a file another path.
    Rename(String, String),
    /// Makes a directory durable.
    SyncDir(String),
    /// Deletes a file. A missing file is no error.
    Remove(String),
    /// Lists the files of a directory, sorted.
    ListFiles(String),
    /// Locks the file that is open, if no other process has it locked.
    Lock(String),
    /// Empties the file that is open.
    Truncate,
}

/// Mathematical form of a [`FileCall`].
pub enum Call {
    /// See [`FileCall::Length`].
    Length(Seq<char>),
    /// See [`FileCall::ReadRange`].
    ReadRange(Seq<char>, usize, usize),
    /// See [`FileCall::ReadIfPresent`].
    ReadIfPresent(Seq<char>, usize),
    /// See [`FileCall::CreateDirAll`].
    CreateDirAll(Seq<char>),
    /// See [`FileCall::CreateFile`].
    CreateFile(Seq<char>),
    /// See [`FileCall::OpenAppend`].
    OpenAppend(Seq<char>),
    /// See [`FileCall::OpenExisting`].
    OpenExisting(Seq<char>),
    /// See [`FileCall::OpenOrCreate`].
    OpenOrCreate(Seq<char>),
    /// See [`FileCall::Write`].
    Write,
    /// See [`FileCall::Sync`].
    Sync(FileSync),
    /// See [`FileCall::Rename`].
    Rename(Seq<char>, Seq<char>),
    /// See [`FileCall::SyncDir`].
    SyncDir(Seq<char>),
    /// See [`FileCall::Remove`].
    Remove(Seq<char>),
    /// See [`FileCall::ListFiles`].
    ListFiles(Seq<char>),
    /// See [`FileCall::Lock`].
    Lock(Seq<char>),
    /// See [`FileCall::Truncate`].
    Truncate,
}

impl View for FileCall {
    type V = Call;

    open spec fn view(&self) -> Call {
        match self {
            FileCall::Length(path) => Call::Length(path@),
            FileCall::ReadRange(path, offset, len) => Call::ReadRange(path@, *offset, *len),
            FileCall::ReadIfPresent(path, max) => Call::ReadIfPresent(path@, *max),
            FileCall::CreateDirAll(path) => Call::CreateDirAll(path@),
            FileCall::CreateFile(path) => Call::CreateFile(path@),
            FileCall::OpenAppend(path) => Call::OpenAppend(path@),
            FileCall::OpenExisting(path) => Call::OpenExisting(path@),
            FileCall::OpenOrCreate(path) => Call::OpenOrCreate(path@),
            FileCall::Write => Call::Write,
            FileCall::Sync(sync) => Call::Sync(*sync),
            FileCall::Rename(from, to) => Call::Rename(from@, to@),
            FileCall::SyncDir(path) => Call::SyncDir(path@),
            FileCall::Remove(path) => Call::Remove(path@),
            FileCall::ListFiles(path) => Call::ListFiles(path@),
            FileCall::Lock(path) => Call::Lock(path@),
            FileCall::Truncate => Call::Truncate,
        }
    }
}

/// The mathematical form of file calls.
pub open spec fn calls(calls: Seq<FileCall>) -> Seq<Call> {
    Seq::new(calls.len(), |i: int| calls[i]@)
}

/// Creating the directory that a path is in.
pub open spec fn create_parent(path: Seq<char>) -> Seq<Call> {
    match path::parent_path(path) {
        Some(parent) => seq![Call::CreateDirAll(parent)],
        None => Seq::empty(),
    }
}

/// Making a file durable, where there is anything to do.
pub open spec fn sync_calls(sync: FileSync) -> Seq<Call> {
    if sync == FileSync::Nothing {
        Seq::empty()
    } else {
        seq![Call::Sync(sync)]
    }
}

/// Making the directory that a path is in durable, unless its path is empty.
pub open spec fn sync_parent(path: Seq<char>) -> Seq<Call> {
    match path::parent_path(path) {
        Some(parent) => if parent.len() > 0 {
            seq![Call::SyncDir(parent)]
        } else {
            Seq::empty()
        },
        None => Seq::empty(),
    }
}

/// The file calls that an operation is made of, in order.
///
/// A publish writes the temporary file, makes it durable, and only then renames it; the
/// directory is made durable last.
pub open spec fn planned(work: PlatformIoTask) -> Seq<Call> {
    match work {
        PlatformIoTask::Len { path } => seq![Call::Length(path@)],
        PlatformIoTask::ReadExactAtOwned { path, offset, len } => seq![
            Call::ReadRange(path@, offset, len),
        ],
        PlatformIoTask::ReadOptional { path, max_bytes } => seq![
            Call::ReadIfPresent(path@, max_bytes),
        ],
        PlatformIoTask::Publish { plan } => (if plan.create_parent
            == PlatformIoParentCreation::CreateAll {
            create_parent(plan.temporary_path@)
        } else {
            Seq::empty()
        }) + seq![Call::CreateFile(plan.temporary_path@), Call::Write] + sync_calls(
            publish_sync(plan.durability),
        ) + seq![Call::Rename(plan.temporary_path@, plan.path@)] + (if publish_sync(
            plan.durability,
        ) == FileSync::All {
            sync_parent(plan.path@)
        } else {
            Seq::empty()
        }),
        PlatformIoTask::Append { session, durability, .. } => create_parent(session.path@) + seq![
            Call::OpenAppend(session.path@),
            Call::Write,
        ] + sync_calls(log_sync(durability)),
        PlatformIoTask::OpenAppend { path } => create_parent(path@) + seq![
            Call::OpenAppend(path@),
        ],
        PlatformIoTask::Persist { session, durability } => if log_sync(durability)
            == FileSync::Nothing {
            Seq::empty()
        } else {
            seq![Call::OpenExisting(session.path@), Call::Sync(log_sync(durability))]
        },
        PlatformIoTask::Delete { path } => seq![Call::Remove(path@)],
        PlatformIoTask::CreateDirAll { path } => seq![Call::CreateDirAll(path@)],
        PlatformIoTask::SyncDir { path } => seq![Call::SyncDir(path@)],
        PlatformIoTask::ListFilePaths { path } => seq![Call::ListFiles(path@)],
        PlatformIoTask::AcquireWriterLease { path, .. } => create_parent(path@) + seq![
            Call::OpenOrCreate(path@),
            Call::Lock(path@),
            Call::Truncate,
            Call::Write,
        ],
    }
}

fn push_call(plan: &mut Vec<FileCall>, call: FileCall)
    ensures
        calls(final(plan)@) == calls(old(plan)@).push(call@),
{
    let ghost before = calls(plan@);
    plan.push(call);
    assert(calls(plan@) =~= before.push(call@));
}

fn push_create_parent(plan: &mut Vec<FileCall>, path: &String)
    ensures
        calls(final(plan)@) == calls(old(plan)@) + create_parent(path@),
{
    let ghost before = calls(plan@);
    if let Some(parent) = parent_directory(path.as_str()) {
        push_call(plan, FileCall::CreateDirAll(parent));
    }
    assert(calls(plan@) =~= before + create_parent(path@));
}

fn push_sync(plan: &mut Vec<FileCall>, sync: FileSync)
    ensures
        calls(final(plan)@) == calls(old(plan)@) + sync_calls(sync),
{
    let ghost before = calls(plan@);
    if sync != FileSync::Nothing {
        push_call(plan, FileCall::Sync(sync));
    }
    assert(calls(plan@) =~= before + sync_calls(sync));
}

fn push_sync_parent(plan: &mut Vec<FileCall>, path: &String)
    ensures
        calls(final(plan)@) == calls(old(plan)@) + sync_parent(path@),
{
    let ghost before = calls(plan@);
    if let Some(parent) = parent_directory(path.as_str()) {
        if !parent.as_str().is_empty() {
            push_call(plan, FileCall::SyncDir(parent));
        }
    }
    assert(calls(plan@) =~= before + sync_parent(path@));
}

/// Returns the file calls that an operation is made of, in order.
pub fn file_calls(work: &PlatformIoTask) -> (plan: Vec<FileCall>)
    ensures
        calls(plan@) == planned(*work),
{
    let mut plan: Vec<FileCall> = Vec::new();
    assert(calls(plan@) =~= Seq::empty());
    match work {
        PlatformIoTask::Len { path } => {
            push_call(&mut plan, FileCall::Length(path.clone()));
        },
        PlatformIoTask::ReadExactAtOwned { path, offset, len } => {
            push_call(&mut plan, FileCall::ReadRange(path.clone(), *offset, *len));
        },
        PlatformIoTask::ReadOptional { path, max_bytes } => {
            push_call(&mut plan, FileCall::ReadIfPresent(path.clone(), *max_bytes));
        },
        PlatformIoTask::Publish { plan: publish } => {
            if publish.create_parent == PlatformIoParentCreation::CreateAll {
                push_create_parent(&mut plan, &publish.temporary_path);
            }
            push_call(&mut plan, FileCall::CreateFile(publish.temporary_path.clone()));
            push_call(&mut plan, FileCall::Write);
            push_sync(&mut plan, sync_for_publish(publish.durability));
            push_call(
                &mut plan,
                FileCall::Rename(publish.temporary_path.clone(), publish.path.clone()),
            );
            if requires_parent_dir_sync_after_rename(publish.durability) {
                push_sync_parent(&mut plan, &publish.path);
            }
        },
        PlatformIoTask::Append { session, durability, .. } => {
            push_create_parent(&mut plan, &session.path);
            push_call(&mut plan, FileCall::OpenAppend(session.path.clone()));
            push_call(&mut plan, FileCall::Write);
            push_sync(&mut plan, sync_for_log(*durability));
        },
        PlatformIoTask::OpenAppend { path } => {
            push_create_parent(&mut plan, path);
            push_call(&mut plan, FileCall::OpenAppend(path.clone()));
        },
        PlatformIoTask::Persist { session, durability } => {
            let sync: FileSync = sync_for_log(*durability);
            if sync != FileSync::Nothing {
                push_call(&mut plan, FileCall::OpenExisting(session.path.clone()));
                push_call(&mut plan, FileCall::Sync(sync));
            }
        },
        PlatformIoTask::Delete { path } => {
            push_call(&mut plan, FileCall::Remove(path.clone()));
        },
        PlatformIoTask::CreateDirAll { path } => {
            push_call(&mut plan, FileCall::CreateDirAll(path.clone()));
        },
        PlatformIoTask::SyncDir { path } => {
            push_call(&mut plan, FileCall::SyncDir(path.clone()));
        },
        PlatformIoTask::ListFilePaths { path } => {
            push_call(&mut plan, FileCall::ListFiles(path.clone()));
        },
        PlatformIoTask::AcquireWriterLease { path, .. } => {
            push_create_parent(&mut plan, path);
            push_call(&mut plan, FileCall::OpenOrCreate(path.clone()));
            push_call(&mut plan, FileCall::Lock(path.clone()));
            push_call(&mut plan, FileCall::Truncate);
            push_call(&mut plan, FileCall::Write);
        },
    }
    assert(calls(plan@) =~= planned(*work));
    plan
}

/// Returns how many bytes of a file to read that may be missing.
///
/// `found` is its length, or `None` where it is missing.
pub fn optional_read_len(path: &str, found: Option<u64>, max_bytes: usize) -> (result: Result<
    Option<usize>,
>)
    ensures
        match found {
            None => result matches Ok(None),
            Some(len) => if len > usize::MAX {
                result matches Err(error) && error.says(
                    ErrorKind::Corruption,
                    "object "@ + path@ + " length exceeds usize"@,
                )
            } else if len > max_bytes {
                result matches Err(error) && error.says(
                    ErrorKind::Corruption,
                    "object "@ + path@ + " length "@ + text::decimal(len as nat)
                        + " exceeds maximum "@ + text::decimal(max_bytes as nat),
                )
            } else {
                result matches Ok(Some(bytes)) && bytes == len
            },
        },
{
    let len: u64 = match found {
        None => {
            return Ok(None);
        },
        Some(len) => len,
    };
    if len > usize::MAX as u64 {
        let message: String = join("object ", path);
        return Err(Error::Corruption { message: join(message.as_str(), " length exceeds usize") });
    }
    let bytes: usize = len as usize;
    if bytes > max_bytes {
        let object: String = join("object ", path);
        let mut found_text: String = join(object.as_str(), " length ");
        push_decimal(&mut found_text, len);
        let mut message: String = join(found_text.as_str(), " exceeds maximum ");
        push_decimal(&mut message, max_bytes as u64);
        return Err(Error::Corruption { message });
    }
    Ok(Some(bytes))
}

/// Tells what an attempt to lock a lease file came to.
pub fn lease_outcome(path: &str, locked: bool) -> (result: Result<()>)
    ensures
        match result {
            Ok(()) => locked,
            Err(error) => !locked && error.says(
                ErrorKind::Corruption,
                "database lock is already held: "@ + path@,
            ),
        },
{
    if locked {
        Ok(())
    } else {
        Err(Error::Corruption { message: join("database lock is already held: ", path) })
    }
}

/// Where a call stands in a plan.
pub open spec fn stands_at(plan: Seq<Call>, call: Call, i: int) -> bool {
    0 <= i < plan.len() && plan[i] == call
}

/// A publish gives the file its path only after its bytes are written and made durable: every
/// call before the rename is one on the temporary file or its directory, and the write and the
/// sync are among them.
pub proof fn publish_renames_last(work: PlatformIoTask, i: int, j: int)
    requires
        work matches PlatformIoTask::Publish { plan } && stands_at(
            planned(work),
            Call::Rename(plan.temporary_path@, plan.path@),
            i,
        ),
        stands_at(planned(work), Call::Write, j) || exists|sync: FileSync| #[trigger]
            stands_at(planned(work), Call::Sync(sync), j),
    ensures
        j < i,
{
}

/// How much a sync makes durable.
pub open spec fn reach_of(sync: FileSync) -> int {
    match sync {
        FileSync::Nothing => 0,
        FileSync::Data => 1,
        FileSync::All => 2,
    }
}

/// How much a durability mode promises, from least to most.
pub open spec fn promise_of(durability: DurabilityMode) -> int {
    match durability {
        DurabilityMode::Buffered => 0,
        DurabilityMode::Flush => 1,
        DurabilityMode::SyncData => 2,
        DurabilityMode::SyncAll => 3,
        DurabilityMode::SyncAllStrict => 4,
    }
}

/// A mode that promises more never makes less durable. A mode that syncs each commit makes the
/// data of the log durable, and the modes that sync everything make everything durable. A publish
/// makes at least as much durable as the log. What is only buffered is not made durable at all.
pub proof fn stronger_modes_make_more_durable(weak: DurabilityMode, strong: DurabilityMode)
    requires
        promise_of(weak) <= promise_of(strong),
    ensures
        reach_of(log_sync(weak)) <= reach_of(log_sync(strong)),
        reach_of(publish_sync(weak)) <= reach_of(publish_sync(strong)),
        reach_of(log_sync(weak)) <= reach_of(publish_sync(weak)),
        (reach_of(log_sync(weak)) >= 1) == weak.spec_syncs_each_commit(),
        weak is SyncAll || weak is SyncAllStrict ==> log_sync(weak) == FileSync::All
            && publish_sync(weak) == FileSync::All,
        weak is SyncData ==> log_sync(weak) == FileSync::Data && publish_sync(weak)
            == FileSync::Data,
        weak is Buffered ==> log_sync(weak) == FileSync::Nothing && publish_sync(weak)
            == FileSync::Nothing,
        weak is Flush ==> log_sync(weak) == FileSync::Nothing && publish_sync(weak)
            == FileSync::Data,
{
}

} // verus!
