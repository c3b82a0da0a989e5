//! The operations that the platform I/O driver runs.
use vstd::prelude::*;

use crate::io::matrix::PlatformIoOperation;
use crate::io::path;
use crate::io::path::parent_directory;
use crate::io::resources;
use crate::io::resources::{
    normalize_platform_io_resources, Claim, PlatformIoAccess, PlatformIoResourceKey,
    PlatformIoResourceRequest, ResourceKey,
};
use crate::options::DurabilityMode;

verus! {

/// A file that is appended to.
#[derive(Debug, PartialEq, Eq)]
pub struct PlatformIoAppendSession {
    /// Its path.
    pub path: String,
}

impl PlatformIoAppendSession {
    /// A file that was opened to be appended to.
    pub fn opened(path: &str) -> (session: PlatformIoAppendSession)
        ensures
            session.path@ == path@,
    {
        PlatformIoAppendSession { path: path.to_owned() }
    }
}

/// Whether a publish creates the directory of its file.
#[derive(Debug, Clone, Copy, PartialEq, Eq, Structural)]
pub enum PlatformIoParentCreation {
    /// The directory exists.
    Existing,
    /// The directory and those above it are created.
    CreateAll,
}

/// How a file is published: written under a temporary name and renamed.
#[derive(Debug)]
pub struct PlatformIoPublishPlan {
    /// Which operation this is.
    pub operation: PlatformIoOperation,
    /// The path of the file.
    pub path: String,
    /// The temporary path.
    pub temporary_path: String,
    /// The bytes of the file.
    pub bytes: Vec<u8>,
    /// How durable the file must be.
    pub durability: DurabilityMode,
    /// Whether its directory is created.
    pub create_parent: PlatformIoParentCreation,
}

impl PlatformIoPublishPlan {
    /// Publishes a manifest. Its directory exists.
    pub fn manifest(
        path: String,
        temporary_path: String,
        bytes: Vec<u8>,
        durability: DurabilityMode,
    ) -> (plan: PlatformIoPublishPlan)
        ensures
            plan == (PlatformIoPublishPlan {
                operation: PlatformIoOperation::TempWriteRenamePublish,
                path,
                temporary_path,
                bytes,
                durability,
                create_parent: PlatformIoParentCreation::Existing,
            }),
    {
        PlatformIoPublishPlan {
            operation: PlatformIoOperation::TempWriteRenamePublish,
            path,
            temporary_path,
            bytes,
            durability,
            create_parent: PlatformIoParentCreation::Existing,
        }
    }

    /// Publishes an object. Its directory is created.
    pub fn object(
        path: String,
        temporary_path: String,
        bytes: Vec<u8>,
        durability: DurabilityMode,
    ) -> (plan: PlatformIoPublishPlan)
        ensures
            plan == (PlatformIoPublishPlan {
                operation: PlatformIoOperation::TempWriteRenamePublish,
                path,
                temporary_path,
                bytes,
                durability,
                create_parent: PlatformIoParentCreation::CreateAll,
            }),
    {
        PlatformIoPublishPlan {
            operation: PlatformIoOperation::TempWriteRenamePublish,
            path,
            temporary_path,
            bytes,
            durability,
            create_parent: PlatformIoParentCreation::CreateAll,
        }
    }

    /// Replaces a log. Its directory is created.
    pub fn wal_rewrite(
        path: String,
        temporary_path: String,
        bytes: Vec<u8>,
        durability: DurabilityMode,
    ) -> (plan: PlatformIoPublishPlan)
        ensures
            plan == (PlatformIoPublishPlan {
                operation: PlatformIoOperation::WalRewrite,
                path,
                temporary_path,
                bytes,
                durability,
                create_parent: PlatformIoParentCreation::CreateAll,
            }),
    {
        PlatformIoPublishPlan {
            operation: PlatformIoOperation::WalRewrite,
            path,
            temporary_path,
            bytes,
            durability,
            create_parent: PlatformIoParentCreation::CreateAll,
        }
    }
}

/// An operation on files.
#[derive(Debug)]
pub enum PlatformIoTask {
    /// Reads the length of a file.
    Len {
        /// Its path.
        path: String,
    },
    /// Reads a range of a file.
    ReadExactAtOwned {
        /// Its path.
        path: String,
        /// Where the range starts.
        offset: usize,
        /// How long it is.
        len: usize,
    },
    /// Reads a file that may be missing.
    ReadOptional {
        /// Its path.
        path: String,
        /// The most bytes to read.
        max_bytes: usize,
    },
    /// Publishes a file.
    Publish {
        /// How.
        plan: PlatformIoPublishPlan,
    },
    /// Appends to a file.
    Append {
        /// The file.
        session: PlatformIoAppendSession,
        /// What to append.
        bytes: Vec<u8>,
        /// How durable it must be.
        durability: DurabilityMode,
    },
    /// Opens a file to append to it.
    OpenAppend {
        /// Its path.
        path: String,
    },
    /// Makes a file durable.
    Persist {
        /// The file.
        session: PlatformIoAppendSession,
        /// How durable it must be.
        durability: DurabilityMode,
    },
    /// Deletes a file.
    Delete {
        /// Its path.
        path: String,
    },
    /// Creates a directory and those above it.
    CreateDirAll {
        /// Its path.
        path: String,
    },
    /// Makes a directory durable.
    SyncDir {
        /// Its path.
        path: String,
    },
    /// Lists the files of a directory.
    ListFilePaths {
        /// Its path.
        path: String,
    },
    /// Acquires the lease of the only writer.
    AcquireWriterLease {
        /// The path of the lease file.
        path: String,
        /// What to write into it.
        owner: Vec<u8>,
    },
}

/// A claim on a file.
pub open spec fn object_claim(path: Seq<char>, access: PlatformIoAccess) -> Claim {
    Claim { key: ResourceKey::Object(path::name_of(path)), access }
}

/// A claim on the entries of a directory.
pub open spec fn directory_claim(path: Seq<char>, access: PlatformIoAccess) -> Claim {
    Claim { key: ResourceKey::Directory(path::name_of(path)), access }
}

/// The claim on the directory that a path is in.
pub open spec fn parent_claims(path: Seq<char>) -> Seq<Claim> {
    match path::parent_path(path) {
        Some(parent) => seq![directory_claim(parent, PlatformIoAccess::Exclusive)],
        None => Seq::empty(),
    }
}

impl PlatformIoTask {
    /// The operation that a task is.
    pub open spec fn spec_operation(&self) -> PlatformIoOperation {
        match self {
            PlatformIoTask::Len { .. } => PlatformIoOperation::LengthLookup,
            PlatformIoTask::ReadExactAtOwned { .. } => PlatformIoOperation::OwnedRandomRead,
            PlatformIoTask::ReadOptional { .. } => PlatformIoOperation::OptionalWholeObjectRead,
            PlatformIoTask::Publish { plan } => plan.operation,
            PlatformIoTask::Append { .. } => PlatformIoOperation::Append,
            PlatformIoTask::OpenAppend { .. } => PlatformIoOperation::AppendObjectOpen,
            PlatformIoTask::Persist { .. } => PlatformIoOperation::Persist,
            PlatformIoTask::Delete { .. } => PlatformIoOperation::ObjectDelete,
            PlatformIoTask::CreateDirAll { .. } => PlatformIoOperation::DirectoryCreate,
            PlatformIoTask::SyncDir { .. } => PlatformIoOperation::DirectorySync,
            PlatformIoTask::ListFilePaths { .. } => PlatformIoOperation::DirectoryListing,
            PlatformIoTask::AcquireWriterLease { .. } => PlatformIoOperation::WriterLeaseAcquire,
        }
    }

    /// Returns the operation that a task is.
    #[verifier::when_used_as_spec(spec_operation)]
    pub fn operation(&self) -> (operation: PlatformIoOperation)
        ensures
            operation == self.spec_operation(),
    {
        match self {
            PlatformIoTask::Len { .. } => PlatformIoOperation::LengthLookup,
            PlatformIoTask::ReadExactAtOwned { .. } => PlatformIoOperation::OwnedRandomRead,
            PlatformIoTask::ReadOptional { .. } => PlatformIoOperation::OptionalWholeObjectRead,
            PlatformIoTask::Publish { plan } => plan.operation,
            PlatformIoTask::Append { .. } => PlatformIoOperation::Append,
            PlatformIoTask::OpenAppend { .. } => PlatformIoOperation::AppendObjectOpen,
            PlatformIoTask::Persist { .. } => PlatformIoOperation::Persist,
            PlatformIoTask::Delete { .. } => PlatformIoOperation::ObjectDelete,
            PlatformIoTask::CreateDirAll { .. } => PlatformIoOperation::DirectoryCreate,
            PlatformIoTask::SyncDir { .. } => PlatformIoOperation::DirectorySync,
            PlatformIoTask::ListFilePaths { .. } => PlatformIoOperation::DirectoryListing,
            PlatformIoTask::AcquireWriterLease { .. } => PlatformIoOperation::WriterLeaseAcquire,
        }
    }

    /// What a task claims. Reads share the file. Whatever writes a file has it alone, and
    /// whatever adds or removes an entry has the directory alone.
    pub open spec fn claimed(&self) -> Seq<Claim> {
        let shared = PlatformIoAccess::Shared;
        let exclusive = PlatformIoAccess::Exclusive;
        match self {
            PlatformIoTask::Len { path } => seq![object_claim(path@, shared)],
            PlatformIoTask::ReadExactAtOwned { path, .. } => seq![object_claim(path@, shared)],
            PlatformIoTask::ReadOptional { path, .. } => seq![object_claim(path@, shared)],
            PlatformIoTask::Publish { plan } => seq![
                object_claim(plan.path@, exclusive),
                object_claim(plan.temporary_path@, exclusive),
            ] + parent_claims(plan.path@) + parent_claims(plan.temporary_path@),
            PlatformIoTask::Append { session, .. } => seq![object_claim(session.path@, exclusive)],
            PlatformIoTask::Persist { session, .. } => seq![object_claim(session.path@, exclusive)],
            PlatformIoTask::OpenAppend { path } => seq![object_claim(path@, exclusive)]
                + parent_claims(path@),
            PlatformIoTask::Delete { path } => seq![object_claim(path@, exclusive)]
                + parent_claims(path@),
            PlatformIoTask::CreateDirAll { path } => seq![directory_claim(path@, exclusive)],
            PlatformIoTask::SyncDir { path } => seq![directory_claim(path@, exclusive)],
            PlatformIoTask::ListFilePaths { path } => seq![directory_claim(path@, shared)],
            PlatformIoTask::AcquireWriterLease { path, .. } => seq![object_claim(path@, exclusive)]
                + parent_claims(path@),
        }
    }

    /// Returns what a task claims, each resource once.
    pub fn resources(&self) -> (requests: Vec<PlatformIoResourceRequest>)
        ensures
            resources::normalized(self.claimed(), resources::claims(requests@)),
            requests@.len() <= 4,
    {
        let mut requests: Vec<PlatformIoResourceRequest> = Vec::new();
        match self {
            PlatformIoTask::Len { path } => {
                requests.push(object_request(path, PlatformIoAccess::Shared));
            },
            PlatformIoTask::ReadExactAtOwned { path, .. } => {
                requests.push(object_request(path, PlatformIoAccess::Shared));
            },
            PlatformIoTask::ReadOptional { path, .. } => {
                requests.push(object_request(path, PlatformIoAccess::Shared));
            },
            PlatformIoTask::Publish { plan } => {
                requests.push(object_request(&plan.path, PlatformIoAccess::Exclusive));
                requests.push(object_request(&plan.temporary_path, PlatformIoAccess::Exclusive));
                push_parent(&mut requests, &plan.path);
                push_parent(&mut requests, &plan.temporary_path);
            },
            PlatformIoTask::Append { session, .. } => {
                requests.push(object_request(&session.path, PlatformIoAccess::Exclusive));
            },
            PlatformIoTask::Persist { session, .. } => {
                requests.push(object_request(&session.path, PlatformIoAccess::Exclusive));
            },
            PlatformIoTask::OpenAppend { path } => {
                requests.push(object_request(path, PlatformIoAccess::Exclusive));
                push_parent(&mut requests, path);
            },
            PlatformIoTask::Delete { path } => {
                requests.push(object_request(path, PlatformIoAccess::Exclusive));
                push_parent(&mut requests, path);
            },
            PlatformIoTask::CreateDirAll { path } => {
                requests.push(directory_request(path, PlatformIoAccess::Exclusive));
            },
            PlatformIoTask::SyncDir { path } => {
                requests.push(directory_request(path, PlatformIoAccess::Exclusive));
            },
            PlatformIoTask::ListFilePaths { path } => {
                requests.push(directory_request(path, PlatformIoAccess::Shared));
            },
            PlatformIoTask::AcquireWriterLease { path, .. } => {
                requests.push(object_request(path, PlatformIoAccess::Exclusive));
                push_parent(&mut requests, path);
            },
        }
        assert(resources::claims(requests@) =~= self.claimed());
        normalize_platform_io_resources(requests)
    }
}

fn object_request(path: &String, access: PlatformIoAccess) -> (request: PlatformIoResourceRequest)
    ensures
        request@ == object_claim(path@, access),
{
    PlatformIoResourceRequest { key: PlatformIoResourceKey::Object(path.clone()), access }
}

fn directory_request(path: &String, access: PlatformIoAccess) -> (request:
    PlatformIoResourceRequest)
    ensures
        request@ == directory_claim(path@, access),
{
    PlatformIoResourceRequest { key: PlatformIoResourceKey::Directory(path.clone()), access }
}

fn push_parent(requests: &mut Vec<PlatformIoResourceRequest>, path: &String)
    ensures
        resources::claims(final(requests)@) == resources::claims(old(requests)@) + parent_claims(
            path@,
        ),
        final(requests)@.len() == old(requests)@.len() + parent_claims(path@).len(),
{
    let ghost before = resources::claims(requests@);
    match parent_directory(path.as_str()) {
        Some(parent) => {
            requests.push(directory_request(&parent, PlatformIoAccess::Exclusive));
            assert(resources::claims(requests@) =~= before + parent_claims(path@));
        },
        None => {
            assert(resources::claims(requests@) =~= before + parent_claims(path@));
        },
    }
}

/// Operations of different kinds are counted apart: apart from a publish, whose plan says what it is
/// counted as, two tasks are counted as the same operation only if they are of the same kind.
pub proof fn tasks_are_counted_apart(a: PlatformIoTask, b: PlatformIoTask)
    requires
        !(a is Publish),
        !(b is Publish),
        a.spec_operation() == b.spec_operation(),
    ensures
        a is Len == b is Len,
        a is ReadExactAtOwned == b is ReadExactAtOwned,
        a is ReadOptional == b is ReadOptional,
        a is Append == b is Append,
        a is OpenAppend == b is OpenAppend,
        a is Persist == b is Persist,
        a is Delete == b is Delete,
        a is CreateDirAll == b is CreateDirAll,
        a is SyncDir == b is SyncDir,
        a is ListFilePaths == b is ListFilePaths,
        a is AcquireWriterLease == b is AcquireWriterLease,
{
}

} // verus!
