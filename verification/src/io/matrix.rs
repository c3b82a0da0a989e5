//! How each platform serves each operation.
use vstd::prelude::*;

verus! {

/// Which backend serves platform operations.
#[derive(Debug, Clone, Copy, PartialEq, Eq, Structural)]
pub enum PlatformIoBackendKind {
    /// A managed thread pool.
    ThreadPoolManaged,
    /// Native completions on Linux.
    LinuxNative,
    /// Native completions on Windows.
    WindowsNative,
    /// Native completions on macOS.
    MacOsNative,
    /// Native completions on FreeBSD.
    FreeBsdNative,
    /// Native completions on Solaris and its relatives.
    SolarishNative,
    /// The fallback on other Unix systems.
    UnixFallback,
    /// No backend.
    UnsupportedFallback,
}

/// How an operation is served.
#[derive(Debug, Clone, Copy, PartialEq, Eq, Structural)]
pub enum PlatformIoTaskClass {
    /// By a native completion.
    TruePlatformAsync,
    /// By native completions for some of its steps.
    PlatformNativeAsyncButPartial,
    /// By a managed thread pool.
    ThreadPoolManagedAsync,
    /// By a blocking call.
    BlockingFallback,
    /// Not at all.
    Unsupported,
}

/// An operation on files.
#[derive(Debug, Clone, Copy, PartialEq, Eq, Structural)]
pub enum PlatformIoOperation {
    /// Reads the length of an object.
    LengthLookup,
    /// Reads a range of an object.
    OwnedRandomRead,
    /// Reads an object that may be missing.
    OptionalWholeObjectRead,
    /// Publishes an object by writing a temporary one and renaming it.
    TempWriteRenamePublish,
    /// Opens an object to append to it.
    AppendObjectOpen,
    /// Appends to an object.
    Append,
    /// Makes an object durable.
    Persist,
    /// Replaces a log.
    WalRewrite,
    /// Deletes an object.
    ObjectDelete,
    /// Creates a directory.
    DirectoryCreate,
    /// Makes a directory durable.
    DirectorySync,
    /// Lists a directory.
    DirectoryListing,
    /// Acquires the lease of the only writer.
    WriterLeaseAcquire,
}

/// How a backend serves each operation.
#[derive(Debug, Clone, Copy, PartialEq, Eq, Structural)]
pub struct PlatformIoBackendMatrix {
    /// The backend.
    pub kind: PlatformIoBackendKind,
    /// See [`PlatformIoOperation::LengthLookup`].
    pub length_lookup: PlatformIoTaskClass,
    /// See [`PlatformIoOperation::OwnedRandomRead`].
    pub owned_random_read: PlatformIoTaskClass,
    /// See [`PlatformIoOperation::OptionalWholeObjectRead`].
    pub optional_whole_object_read: PlatformIoTaskClass,
    /// See [`PlatformIoOperation::TempWriteRenamePublish`].
    pub temp_write_rename_publish: PlatformIoTaskClass,
    /// See [`PlatformIoOperation::AppendObjectOpen`].
    pub append_object_open: PlatformIoTaskClass,
    /// See [`PlatformIoOperation::Append`].
    pub append: PlatformIoTaskClass,
    /// See [`PlatformIoOperation::Persist`].
    pub persist: PlatformIoTaskClass,
    /// See [`PlatformIoOperation::WalRewrite`].
    pub wal_rewrite: PlatformIoTaskClass,
    /// See [`PlatformIoOperation::ObjectDelete`].
    pub object_delete: PlatformIoTaskClass,
    /// See [`PlatformIoOperation::DirectoryCreate`].
    pub directory_create: PlatformIoTaskClass,
    /// See [`PlatformIoOperation::DirectorySync`].
    pub directory_sync: PlatformIoTaskClass,
    /// See [`PlatformIoOperation::DirectoryListing`].
    pub directory_listing: PlatformIoTaskClass,
    /// See [`PlatformIoOperation::WriterLeaseAcquire`].
    pub writer_lease_acquire: PlatformIoTaskClass,
}

/// Whether a class completes without blocking the caller.
pub open spec fn class_is_async(class: PlatformIoTaskClass) -> bool {
    match class {
        PlatformIoTaskClass::TruePlatformAsync => true,
        PlatformIoTaskClass::PlatformNativeAsyncButPartial => true,
        PlatformIoTaskClass::ThreadPoolManagedAsync => true,
        PlatformIoTaskClass::BlockingFallback => false,
        PlatformIoTaskClass::Unsupported => false,
    }
}

impl PlatformIoTaskClass {
    /// Tells whether the class completes without blocking the caller.
    pub fn is_async(self) -> (is_async: bool)
        ensures
            is_async == class_is_async(self),
    {
        match self {
            PlatformIoTaskClass::TruePlatformAsync => true,
            PlatformIoTaskClass::PlatformNativeAsyncButPartial => true,
            PlatformIoTaskClass::ThreadPoolManagedAsync => true,
            PlatformIoTaskClass::BlockingFallback => false,
            PlatformIoTaskClass::Unsupported => false,
        }
    }
}

/// A matrix that serves every operation in one way.
pub open spec fn uniform_matrix(
    kind: PlatformIoBackendKind,
    class: PlatformIoTaskClass,
) -> PlatformIoBackendMatrix {
    PlatformIoBackendMatrix {
        kind,
        length_lookup: class,
        owned_random_read: class,
        optional_whole_object_read: class,
        temp_write_rename_publish: class,
        append_object_open: class,
        append: class,
        persist: class,
        wal_rewrite: class,
        object_delete: class,
        directory_create: class,
        directory_sync: class,
        directory_listing: class,
        writer_lease_acquire: class,
    }
}

impl PlatformIoBackendMatrix {
    /// The class of an operation.
    pub open spec fn class_of(self, operation: PlatformIoOperation) -> PlatformIoTaskClass {
        match operation {
            PlatformIoOperation::LengthLookup => self.length_lookup,
            PlatformIoOperation::OwnedRandomRead => self.owned_random_read,
            PlatformIoOperation::OptionalWholeObjectRead => self.optional_whole_object_read,
            PlatformIoOperation::TempWriteRenamePublish => self.temp_write_rename_publish,
            PlatformIoOperation::AppendObjectOpen => self.append_object_open,
            PlatformIoOperation::Append => self.append,
            PlatformIoOperation::Persist => self.persist,
            PlatformIoOperation::WalRewrite => self.wal_rewrite,
            PlatformIoOperation::ObjectDelete => self.object_delete,
            PlatformIoOperation::DirectoryCreate => self.directory_create,
            PlatformIoOperation::DirectorySync => self.directory_sync,
            PlatformIoOperation::DirectoryListing => self.directory_listing,
            PlatformIoOperation::WriterLeaseAcquire => self.writer_lease_acquire,
        }
    }

    /// Returns the class of an operation.
    #[verifier::when_used_as_spec(class_of)]
    pub fn class_for(self, operation: PlatformIoOperation) -> (class: PlatformIoTaskClass)
        ensures
            class == self.class_of(operation),
    {
        match operation {
            PlatformIoOperation::LengthLookup => self.length_lookup,
            PlatformIoOperation::OwnedRandomRead => self.owned_random_read,
            PlatformIoOperation::OptionalWholeObjectRead => self.optional_whole_object_read,
            PlatformIoOperation::TempWriteRenamePublish => self.temp_write_rename_publish,
            PlatformIoOperation::AppendObjectOpen => self.append_object_open,
            PlatformIoOperation::Append => self.append,
            PlatformIoOperation::Persist => self.persist,
            PlatformIoOperation::WalRewrite => self.wal_rewrite,
            PlatformIoOperation::ObjectDelete => self.object_delete,
            PlatformIoOperation::DirectoryCreate => self.directory_create,
            PlatformIoOperation::DirectorySync => self.directory_sync,
            PlatformIoOperation::DirectoryListing => self.directory_listing,
            PlatformIoOperation::WriterLeaseAcquire => self.writer_lease_acquire,
        }
    }

    /// Tells whether some operation completes without blocking the caller.
    pub fn supports_platform_async_io(self) -> (supports: bool)
        ensures
            supports == exists|operation: PlatformIoOperation|
                class_is_async(#[trigger] self.class_of(operation)),
    {
        let supports: bool = self.length_lookup.is_async() || self.owned_random_read.is_async()
            || self.optional_whole_object_read.is_async()
            || self.temp_write_rename_publish.is_async() || self.append_object_open.is_async()
            || self.append.is_async() || self.persist.is_async() || self.wal_rewrite.is_async()
            || self.object_delete.is_async() || self.directory_create.is_async()
            || self.directory_sync.is_async() || self.directory_listing.is_async()
            || self.writer_lease_acquire.is_async();
        proof {
            if class_is_async(self.length_lookup) {
                assert(class_is_async(self.class_of(PlatformIoOperation::LengthLookup)));
            }
            if class_is_async(self.owned_random_read) {
                assert(class_is_async(self.class_of(PlatformIoOperation::OwnedRandomRead)));
            }
            if class_is_async(self.optional_whole_object_read) {
                assert(class_is_async(self.class_of(PlatformIoOperation::OptionalWholeObjectRead)));
            }
            if class_is_async(self.temp_write_rename_publish) {
                assert(class_is_async(self.class_of(PlatformIoOperation::TempWriteRenamePublish)));
            }
            if class_is_async(self.append_object_open) {
                assert(class_is_async(self.class_of(PlatformIoOperation::AppendObjectOpen)));
            }
            if class_is_async(self.append) {
                assert(class_is_async(self.class_of(PlatformIoOperation::Append)));
            }
            if class_is_async(self.persist) {
                assert(class_is_async(self.class_of(PlatformIoOperation::Persist)));
            }
            if class_is_async(self.wal_rewrite) {
                assert(class_is_async(self.class_of(PlatformIoOperation::WalRewrite)));
            }
            if class_is_async(self.object_delete) {
                assert(class_is_async(self.class_of(PlatformIoOperation::ObjectDelete)));
            }
            if class_is_async(self.directory_create) {
                assert(class_is_async(self.class_of(PlatformIoOperation::DirectoryCreate)));
            }
            if class_is_async(self.directory_sync) {
                assert(class_is_async(self.class_of(PlatformIoOperation::DirectorySync)));
            }
            if class_is_async(self.directory_listing) {
                assert(class_is_async(self.class_of(PlatformIoOperation::DirectoryListing)));
            }
            if class_is_async(self.writer_lease_acquire) {
                assert(class_is_async(self.class_of(PlatformIoOperation::WriterLeaseAcquire)));
            }
        }
        supports
    }

    /// A matrix that serves every operation in one way.
    pub fn uniform(kind: PlatformIoBackendKind, class: PlatformIoTaskClass) -> (matrix:
        PlatformIoBackendMatrix)
        ensures
            matrix == uniform_matrix(kind, class),
            forall|operation: PlatformIoOperation| #[trigger] matrix.class_of(operation) == class,
    {
        PlatformIoBackendMatrix {
            kind,
            length_lookup: class,
            owned_random_read: class,
            optional_whole_object_read: class,
            temp_write_rename_publish: class,
            append_object_open: class,
            append: class,
            persist: class,
            wal_rewrite: class,
            object_delete: class,
            directory_create: class,
            directory_sync: class,
            directory_listing: class,
            writer_lease_acquire: class,
        }
    }
}

/// Whether an operation writes or reads the bytes of an object as a whole, which every native
/// backend does by completions.
pub open spec fn moves_bytes(operation: PlatformIoOperation) -> bool {
    match operation {
        PlatformIoOperation::OwnedRandomRead => true,
        PlatformIoOperation::TempWriteRenamePublish => true,
        PlatformIoOperation::Append => true,
        PlatformIoOperation::WalRewrite => true,
        _ => false,
    }
}

/// The class of an operation on a backend.
pub open spec fn served_by(kind: PlatformIoBackendKind, operation: PlatformIoOperation) -> PlatformIoTaskClass {
    let partial = PlatformIoTaskClass::PlatformNativeAsyncButPartial;
    let pool = PlatformIoTaskClass::ThreadPoolManagedAsync;
    match kind {
        PlatformIoBackendKind::UnsupportedFallback => PlatformIoTaskClass::Unsupported,
        PlatformIoBackendKind::ThreadPoolManaged => pool,
        PlatformIoBackendKind::UnixFallback => pool,
        PlatformIoBackendKind::LinuxNative => match operation {
            PlatformIoOperation::DirectoryListing => pool,
            PlatformIoOperation::WriterLeaseAcquire => pool,
            _ => PlatformIoTaskClass::TruePlatformAsync,
        },
        PlatformIoBackendKind::WindowsNative => if moves_bytes(operation) || operation
            == PlatformIoOperation::OptionalWholeObjectRead {
            partial
        } else {
            pool
        },
        PlatformIoBackendKind::MacOsNative => if moves_bytes(operation) || operation
            == PlatformIoOperation::AppendObjectOpen || operation == PlatformIoOperation::Persist
            || operation == PlatformIoOperation::DirectorySync {
            partial
        } else {
            pool
        },
        PlatformIoBackendKind::FreeBsdNative | PlatformIoBackendKind::SolarishNative => if moves_bytes(
            operation,
        ) || operation == PlatformIoOperation::OptionalWholeObjectRead || operation
            == PlatformIoOperation::Persist || operation == PlatformIoOperation::DirectorySync {
            partial
        } else {
            pool
        },
    }
}

/// Returns how a backend serves each operation.
pub fn matrix(kind: PlatformIoBackendKind) -> (matrix: PlatformIoBackendMatrix)
    ensures
        matrix.kind == kind,
        forall|operation: PlatformIoOperation| #[trigger]
            matrix.class_of(operation) == served_by(kind, operation),
{
    let partial: PlatformIoTaskClass = PlatformIoTaskClass::PlatformNativeAsyncButPartial;
    let pool: PlatformIoTaskClass = PlatformIoTaskClass::ThreadPoolManagedAsync;
    match kind {
        PlatformIoBackendKind::UnsupportedFallback => PlatformIoBackendMatrix::uniform(
            kind,
            PlatformIoTaskClass::Unsupported,
        ),
        PlatformIoBackendKind::ThreadPoolManaged | PlatformIoBackendKind::UnixFallback => {
            PlatformIoBackendMatrix::uniform(kind, pool)
        },
        PlatformIoBackendKind::LinuxNative => {
            let mut matrix = PlatformIoBackendMatrix::uniform(
                kind,
                PlatformIoTaskClass::TruePlatformAsync,
            );
            // Listing has no native completion, and a lease is a file lock.
            matrix.directory_listing = pool;
            matrix.writer_lease_acquire = pool;
            matrix
        },
        PlatformIoBackendKind::WindowsNative => {
            let mut matrix = bytes_by_completions(kind);
            matrix.optional_whole_object_read = partial;
            matrix
        },
        PlatformIoBackendKind::MacOsNative => {
            let mut matrix = bytes_by_completions(kind);
            matrix.append_object_open = partial;
            matrix.persist = partial;
            matrix.directory_sync = partial;
            matrix
        },
        PlatformIoBackendKind::FreeBsdNative | PlatformIoBackendKind::SolarishNative => {
            let mut matrix = bytes_by_completions(kind);
            matrix.optional_whole_object_read = partial;
            matrix.persist = partial;
            matrix.directory_sync = partial;
            matrix
        },
    }
}

/// A matrix that moves bytes by completions and leaves everything else to the thread pool.
fn bytes_by_completions(kind: PlatformIoBackendKind) -> (matrix: PlatformIoBackendMatrix)
    ensures
        matrix == (PlatformIoBackendMatrix {
            owned_random_read: PlatformIoTaskClass::PlatformNativeAsyncButPartial,
            temp_write_rename_publish: PlatformIoTaskClass::PlatformNativeAsyncButPartial,
            append: PlatformIoTaskClass::PlatformNativeAsyncButPartial,
            wal_rewrite: PlatformIoTaskClass::PlatformNativeAsyncButPartial,
            ..uniform_matrix(kind, PlatformIoTaskClass::ThreadPoolManagedAsync)
        }),
{
    let partial: PlatformIoTaskClass = PlatformIoTaskClass::PlatformNativeAsyncButPartial;
    let mut matrix = PlatformIoBackendMatrix::uniform(
        kind,
        PlatformIoTaskClass::ThreadPoolManagedAsync,
    );
    matrix.owned_random_read = partial;
    matrix.temp_write_rename_publish = partial;
    matrix.append = partial;
    matrix.wal_rewrite = partial;
    matrix
}

/// Returns the matrix to use: the native one if its executor started, and the thread pool
/// otherwise.
pub fn selected_matrix(native: PlatformIoBackendKind, native_started: bool) -> (chosen:
    PlatformIoBackendMatrix)
    ensures
        chosen.kind == if native_started {
            native
        } else {
            PlatformIoBackendKind::ThreadPoolManaged
        },
        forall|operation: PlatformIoOperation| #[trigger]
            chosen.class_of(operation) == served_by(chosen.kind, operation),
{
    if native_started {
        matrix(native)
    } else {
        matrix(PlatformIoBackendKind::ThreadPoolManaged)
    }
}

/// Every backend but the missing one completes some operation without blocking the caller.
pub proof fn only_missing_backend_blocks(kind: PlatformIoBackendKind)
    ensures
        (kind != PlatformIoBackendKind::UnsupportedFallback) == exists|
            operation: PlatformIoOperation,
        | class_is_async(#[trigger] served_by(kind, operation)),
{
    if kind != PlatformIoBackendKind::UnsupportedFallback {
        assert(class_is_async(served_by(kind, PlatformIoOperation::Append)));
    }
}

/// Whether a backend is one of an operating system.
pub open spec fn is_native(kind: PlatformIoBackendKind) -> bool {
    kind is LinuxNative || kind is WindowsNative || kind is MacOsNative || kind is FreeBsdNative
        || kind is SolarishNative
}

/// Only the missing backend leaves an operation unserved, and no backend blocks the caller. A
/// backend of an operating system moves the bytes of reads and writes itself, and leaves listings
/// and leases to the pool; the others leave everything to the pool. Only Linux completes without
/// limits.
pub proof fn native_backends_move_bytes_themselves(
    kind: PlatformIoBackendKind,
    operation: PlatformIoOperation,
)
    ensures
        (served_by(kind, operation) is Unsupported) == (kind is UnsupportedFallback),
        !(served_by(kind, operation) is BlockingFallback),
        is_native(kind) && (operation is OwnedRandomRead || operation is TempWriteRenamePublish
            || operation is Append || operation is WalRewrite) ==> !(served_by(
            kind,
            operation,
        ) is ThreadPoolManagedAsync),
        operation is DirectoryListing || operation is WriterLeaseAcquire ==> !(served_by(
            kind,
            operation,
        ) is TruePlatformAsync) && !(served_by(
            kind,
            operation,
        ) is PlatformNativeAsyncButPartial),
        !is_native(kind) && !(kind is UnsupportedFallback) ==> served_by(
            kind,
            operation,
        ) is ThreadPoolManagedAsync,
        served_by(kind, operation) is TruePlatformAsync ==> kind is LinuxNative,
        served_by(kind, operation) is PlatformNativeAsyncButPartial ==> is_native(kind) && !(
        kind is LinuxNative),
        kind is LinuxNative && !(operation is DirectoryListing) && !(
        operation is WriterLeaseAcquire) ==> served_by(kind, operation) is TruePlatformAsync,
{
}

} // verus!
