//! Error and result types returned by Trine KV.
use vstd::prelude::*;

verus! {

/// Everything that can go wrong in a library call.
#[derive(Debug)]
pub enum Error {
    /// Bytes do not follow the layout they claim to have.
    InvalidFormat {
        /// What was wrong with the bytes.
        message: String,
    },
    /// Durable or in-memory state contradicts itself.
    Corruption {
        /// Which rule the state breaks.
        message: String,
    },
    /// Bytes carry a format version this build does not read.
    UnsupportedFormat {
        /// Which version was found.
        message: String,
    },
    /// The caller asked for something its own options do not allow.
    InvalidOptions {
        /// Which option or argument was refused.
        message: String,
    },
    /// The selected storage backend lacks the operation.
    UnsupportedBackend {
        /// Which operation is missing.
        message: String,
    },
    /// The operation does not exist yet.
    Unsupported {
        /// Which operation is missing.
        message: String,
    },
    /// Another writer changed the state first.
    Conflict {
        /// What was being changed.
        message: String,
    },
    /// A newer writer owns the database.
    Fenced {
        /// Epoch this writer holds.
        held_epoch: u64,
        /// Epoch found in the durable state.
        current_epoch: u64,
    },
    /// A checkpoint of that name is already recorded.
    CheckpointAlreadyExists {
        /// Name of the checkpoint.
        name: String,
    },
    /// No checkpoint of that name is recorded.
    CheckpointNotFound {
        /// Name of the checkpoint.
        name: String,
    },
    /// An object is not at the version the caller named.
    ObjectVersionChanged {
        /// Key of the object.
        key: String,
    },
    /// The manifest was published, but its durability is unknown.
    ManifestPublishedDurabilityUnknown {
        /// Why the durability is unknown.
        message: String,
    },
    /// The runtime cannot take the work now.
    RuntimeBusy {
        /// Why the work was refused.
        message: String,
    },
    /// The handle was closed.
    Closed,
    /// The host reported an I/O failure.
    Io {
        /// What the host reported.
        message: String,
    },
}

/// Result of a library call.
pub type Result<T> = core::result::Result<T, Error>;

/// The variants of [`Error`] without their payload.
#[derive(Debug, Clone, Copy, PartialEq, Eq, Structural)]
pub enum ErrorKind {
    /// See [`Error::InvalidFormat`].
    InvalidFormat,
    /// See [`Error::Corruption`].
    Corruption,
    /// See [`Error::UnsupportedFormat`].
    UnsupportedFormat,
    /// See [`Error::InvalidOptions`].
    InvalidOptions,
    /// See [`Error::UnsupportedBackend`].
    UnsupportedBackend,
    /// See [`Error::Unsupported`].
    Unsupported,
    /// See [`Error::Conflict`].
    Conflict,
    /// See [`Error::Fenced`].
    Fenced,
    /// See [`Error::CheckpointAlreadyExists`].
    CheckpointAlreadyExists,
    /// See [`Error::CheckpointNotFound`].
    CheckpointNotFound,
    /// See [`Error::ObjectVersionChanged`].
    ObjectVersionChanged,
    /// See [`Error::ManifestPublishedDurabilityUnknown`].
    ManifestPublishedDurabilityUnknown,
    /// See [`Error::RuntimeBusy`].
    RuntimeBusy,
    /// See [`Error::Closed`].
    Closed,
    /// See [`Error::Io`].
    Io,
}

impl Error {
    /// The variant of an error.
    pub open spec fn spec_kind(&self) -> ErrorKind {
        match self {
            Error::InvalidFormat { .. } => ErrorKind::InvalidFormat,
            Error::Corruption { .. } => ErrorKind::Corruption,
            Error::UnsupportedFormat { .. } => ErrorKind::UnsupportedFormat,
            Error::InvalidOptions { .. } => ErrorKind::InvalidOptions,
            Error::UnsupportedBackend { .. } => ErrorKind::UnsupportedBackend,
            Error::Unsupported { .. } => ErrorKind::Unsupported,
            Error::Conflict { .. } => ErrorKind::Conflict,
            Error::Fenced { .. } => ErrorKind::Fenced,
            Error::CheckpointAlreadyExists { .. } => ErrorKind::CheckpointAlreadyExists,
            Error::CheckpointNotFound { .. } => ErrorKind::CheckpointNotFound,
            Error::ObjectVersionChanged { .. } => ErrorKind::ObjectVersionChanged,
            Error::ManifestPublishedDurabilityUnknown { .. } =>
                ErrorKind::ManifestPublishedDurabilityUnknown,
            Error::RuntimeBusy { .. } => ErrorKind::RuntimeBusy,
            Error::Closed => ErrorKind::Closed,
            Error::Io { .. } => ErrorKind::Io,
        }
    }

    /// The text an error carries: its message, or the name or key it is about.
    pub open spec fn spec_text(&self) -> Seq<char> {
        match self {
            Error::InvalidFormat { message } => message@,
            Error::Corruption { message } => message@,
            Error::UnsupportedFormat { message } => message@,
            Error::InvalidOptions { message } => message@,
            Error::UnsupportedBackend { message } => message@,
            Error::Unsupported { message } => message@,
            Error::Conflict { message } => message@,
            Error::Fenced { .. } => Seq::empty(),
            Error::CheckpointAlreadyExists { name } => name@,
            Error::CheckpointNotFound { name } => name@,
            Error::ObjectVersionChanged { key } => key@,
            Error::ManifestPublishedDurabilityUnknown { message } => message@,
            Error::RuntimeBusy { message } => message@,
            Error::Closed => Seq::empty(),
            Error::Io { message } => message@,
        }
    }

    /// Whether an error is of the given kind and carries the given text.
    pub open spec fn says(&self, kind: ErrorKind, text: Seq<char>) -> bool {
        self.spec_kind() == kind && self.spec_text() == text
    }

    /// Returns the variant of this error.
    #[verifier::when_used_as_spec(spec_kind)]
    pub fn kind(&self) -> (kind: ErrorKind)
        ensures
            kind == self.spec_kind(),
    {
        match self {
            Error::InvalidFormat { .. } => ErrorKind::InvalidFormat,
            Error::Corruption { .. } => ErrorKind::Corruption,
            Error::UnsupportedFormat { .. } => ErrorKind::UnsupportedFormat,
            Error::InvalidOptions { .. } => ErrorKind::InvalidOptions,
            Error::UnsupportedBackend { .. } => ErrorKind::UnsupportedBackend,
            Error::Unsupported { .. } => ErrorKind::Unsupported,
            Error::Conflict { .. } => ErrorKind::Conflict,
            Error::Fenced { .. } => ErrorKind::Fenced,
            Error::CheckpointAlreadyExists { .. } => ErrorKind::CheckpointAlreadyExists,
            Error::CheckpointNotFound { .. } => ErrorKind::CheckpointNotFound,
            Error::ObjectVersionChanged { .. } => ErrorKind::ObjectVersionChanged,
            Error::ManifestPublishedDurabilityUnknown { .. } => {
                ErrorKind::ManifestPublishedDurabilityUnknown
            },
            Error::RuntimeBusy { .. } => ErrorKind::RuntimeBusy,
            Error::Closed => ErrorKind::Closed,
            Error::Io { .. } => ErrorKind::Io,
        }
    }

    /// Returns the text this error carries.
    pub fn text(&self) -> (text: String)
        ensures
            text@ == self.spec_text(),
    {
        match self {
            Error::InvalidFormat { message } => message.clone(),
            Error::Corruption { message } => message.clone(),
            Error::UnsupportedFormat { message } => message.clone(),
            Error::InvalidOptions { message } => message.clone(),
            Error::UnsupportedBackend { message } => message.clone(),
            Error::Unsupported { message } => message.clone(),
            Error::Conflict { message } => message.clone(),
            Error::Fenced { .. } => String::new(),
            Error::CheckpointAlreadyExists { name } => name.clone(),
            Error::CheckpointNotFound { name } => name.clone(),
            Error::ObjectVersionChanged { key } => key.clone(),
            Error::ManifestPublishedDurabilityUnknown { message } => message.clone(),
            Error::RuntimeBusy { message } => message.clone(),
            Error::Closed => String::new(),
            Error::Io { message } => message.clone(),
        }
    }

    /// Builds an [`Error::InvalidFormat`].
    pub fn invalid_format(message: &str) -> (error: Error)
        ensures
            error.says(ErrorKind::InvalidFormat, message@),
    {
        Error::InvalidFormat { message: message.to_owned() }
    }

    /// Builds an [`Error::Corruption`].
    pub fn corruption(message: &str) -> (error: Error)
        ensures
            error.says(ErrorKind::Corruption, message@),
    {
        Error::Corruption { message: message.to_owned() }
    }

    /// Builds an [`Error::UnsupportedFormat`].
    pub fn unsupported_format(message: &str) -> (error: Error)
        ensures
            error.says(ErrorKind::UnsupportedFormat, message@),
    {
        Error::UnsupportedFormat { message: message.to_owned() }
    }

    /// Builds an [`Error::InvalidOptions`].
    pub fn invalid_options(message: &str) -> (error: Error)
        ensures
            error.says(ErrorKind::InvalidOptions, message@),
    {
        Error::InvalidOptions { message: message.to_owned() }
    }

    /// Builds an [`Error::UnsupportedBackend`].
    pub fn unsupported_backend(message: &str) -> (error: Error)
        ensures
            error.says(ErrorKind::UnsupportedBackend, message@),
    {
        Error::UnsupportedBackend { message: message.to_owned() }
    }

    /// Builds an [`Error::Unsupported`].
    pub fn unsupported(message: &str) -> (error: Error)
        ensures
            error.says(ErrorKind::Unsupported, message@),
    {
        Error::Unsupported { message: message.to_owned() }
    }

    /// Builds an [`Error::RuntimeBusy`].
    pub fn runtime_busy(message: &str) -> (error: Error)
        ensures
            error.says(ErrorKind::RuntimeBusy, message@),
    {
        Error::RuntimeBusy { message: message.to_owned() }
    }

    /// Builds an [`Error::ObjectVersionChanged`] for the object at `key`.
    pub fn object_version_changed(key: &str) -> (error: Error)
        ensures
            error.says(ErrorKind::ObjectVersionChanged, key@),
    {
        Error::ObjectVersionChanged { key: key.to_owned() }
    }
}

/// What is wrong with the first of some items that something is wrong with.
pub open spec fn first_fault<T>(
    items: Seq<T>,
    fault: spec_fn(T) -> Option<Seq<char>>,
) -> Option<Seq<char>>
    decreases items.len(),
{
    if items.len() == 0 {
        None
    } else {
        match first_fault(items.drop_last(), fault) {
            Some(text) => Some(text),
            None => fault(items.last()),
        }
    }
}

/// One item more is looked at where nothing is wrong with the items before it.
pub proof fn one_more_item<T>(
    items: Seq<T>,
    fault: spec_fn(T) -> Option<Seq<char>>,
    count: int,
)
    requires
        0 <= count < items.len(),
    ensures
        first_fault(items.take(count + 1), fault) == match first_fault(items.take(count), fault) {
            Some(text) => Some(text),
            None => fault(items[count]),
        },
{
    assert(items.take(count + 1).drop_last() =~= items.take(count));
}

/// What is wrong with the first items is what is wrong with all of them.
pub proof fn first_fault_stays<T>(
    items: Seq<T>,
    fault: spec_fn(T) -> Option<Seq<char>>,
    count: int,
)
    requires
        0 <= count <= items.len(),
        first_fault(items.take(count), fault) is Some,
    ensures
        first_fault(items, fault) == first_fault(items.take(count), fault),
    decreases items.len() - count,
{
    if count < items.len() {
        one_more_item(items, fault, count);
        first_fault_stays(items, fault, count + 1);
    } else {
        assert(items.take(count) =~= items);
    }
}

/// Something is wrong with some items exactly where something is wrong with one of them.
pub proof fn fault_is_of_an_item<T>(items: Seq<T>, fault: spec_fn(T) -> Option<Seq<char>>)
    ensures
        first_fault(items, fault) is None <==> forall|i: int|
            0 <= i < items.len() ==> fault(#[trigger] items[i]) is None,
    decreases items.len(),
{
    if items.len() > 0 {
        let shorter = items.drop_last();
        fault_is_of_an_item(shorter, fault);
        assert forall|i: int| 0 <= i < shorter.len() implies shorter[i] == #[trigger] items[i] by {}
        if first_fault(items, fault) is None {
            assert forall|i: int| 0 <= i < items.len() implies fault(#[trigger] items[i]) is None by {
                if i < shorter.len() {
                    assert(fault(shorter[i]) is None);
                }
            }
        } else if first_fault(shorter, fault) is Some {
            let i = choose|i: int| 0 <= i < shorter.len() && fault(#[trigger] shorter[i]) is Some;
            assert(fault(items[i]) is Some);
        } else {
            assert(fault(items[items.len() - 1]) is Some);
        }
    }
}

} // verus!
