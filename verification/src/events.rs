//! The event types that long operations report their progress through.

use vstd::prelude::*;

use crate::error::StoreError;
use crate::hash::BlobHash;

verus! {

/// An event of the garbage collector's mark phase.
#[derive(Debug)]
pub enum GcMarkEvent {
    /// A custom event (info).
    CustomDebug(String),
    /// A custom non critical error.
    CustomWarning(String, Option<StoreError>),
    /// An unrecoverable error during GC.
    Error(StoreError),
}

/// An event of the garbage collector's sweep phase.
#[derive(Debug)]
pub enum GcSweepEvent {
    /// A custom event (debug).
    CustomDebug(String),
    /// A custom non critical error.
    CustomWarning(String, Option<StoreError>),
    /// An unrecoverable error during GC.
    Error(StoreError),
}

/// Progress messages for an import operation.
///
/// An import operation involves computing the outboard of the incoming bytes
/// and then landing them in the store.
#[derive(Debug)]
pub enum ImportProgress {
    /// Found a source to import; the first message for an id.
    Found {
        /// The id of the operation.
        id: u64,
        /// A name for the source.
        name: String,
    },
    /// Progress copying the source into the store; omitted when the store can
    /// use the source in place.
    CopyProgress {
        /// The id of the operation.
        id: u64,
        /// How many bytes have been copied.
        offset: u64,
    },
    /// Determined the size; comes after `Found` and any `CopyProgress`.
    Size {
        /// The id of the operation.
        id: u64,
        /// The size of the source in bytes.
        size: u64,
    },
    /// Progress computing the outboard.
    OutboardProgress {
        /// The id of the operation.
        id: u64,
        /// How many bytes have been hashed.
        offset: u64,
    },
    /// Done computing the outboard; comes after `Size` and any
    /// `OutboardProgress`.
    OutboardDone {
        /// The id of the operation.
        id: u64,
        /// The hash of the imported blob.
        hash: BlobHash,
    },
}

/// How files are imported.
///
/// This is a hint: a store may always copy, e.g. for very small files or when
/// referencing is not supported.
#[derive(Debug, Clone, Copy, PartialEq, Eq, Default, Structural)]
pub enum ImportMode {
    /// Copy the file into the store before hashing: the safe default, immune
    /// to the source changing afterwards.
    #[default]
    Copy,
    /// Try to reference the file in place and assume it stays unchanged.
    TryReference,
}

/// How files are exported.
///
/// This is a hint: a store may always copy, e.g. for very small files or when
/// referencing is not supported.
#[derive(Debug, Clone, Copy, PartialEq, Eq, Default, Structural)]
pub enum ExportMode {
    /// Copy the file to the target: the safe default, immune to the target
    /// changing afterwards.
    #[default]
    Copy,
    /// Try to move the file to the target and reference it from there.
    TryReference,
}

/// Progress messages for an export operation.
#[derive(Debug)]
pub enum ExportProgress {
    /// Starting to export to a file; the first message for an id.
    Start {
        /// The id of the operation.
        id: u64,
        /// The hash being exported.
        hash: BlobHash,
        /// The target path.
        path: String,
        /// Whether the target is expected to stay unchanged.
        stable: bool,
    },
    /// Progress copying to the target; omitted when the store can move the
    /// file or use copy on write.
    Progress {
        /// The id of the operation.
        id: u64,
        /// How many bytes have been written.
        offset: u64,
    },
    /// Done exporting.
    Done {
        /// The id of the operation.
        id: u64,
    },
}

/// Progress messages for a whole-store validation.
#[derive(Debug)]
pub enum ValidateProgress {
    /// Started validating.
    Starting {
        /// The total number of entries to validate.
        total: u64,
    },
    /// Started validating one entry.
    Entry {
        /// A fresh unique id for the entry.
        id: u64,
        /// The hash of the entry.
        hash: BlobHash,
        /// Where the entry lives, when that has a name.
        path: Option<String>,
        /// The size of the entry.
        size: u64,
    },
    /// Progress validating entry `id`.
    Progress {
        /// The unique id of the entry.
        id: u64,
        /// The offset of the progress, in bytes.
        offset: u64,
    },
    /// Done with entry `id`.
    Done {
        /// The unique id of the entry.
        id: u64,
        /// The failure, if the entry did not validate.
        error: Option<String>,
    },
    /// Done with the whole operation.
    AllDone,
    /// The operation had to abort.
    Abort(String),
}

/// Store-wide events.
#[derive(Debug, Clone, PartialEq, Eq, Structural)]
pub enum Event {
    /// A GC round was started.
    GcStarted,
    /// A GC round was completed.
    GcCompleted,
}

} // verus!
