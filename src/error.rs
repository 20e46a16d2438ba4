use vstd::prelude::*;

verus! {

/// Why an archiver operation failed.
///
/// Configuration problems come before any work; format problems come from a
/// malformed archive; path problems from a header whose name would escape the
/// destination directory. `Io` is only built by the code that drives the file
/// system and carries that layer's own description.
#[derive(PartialEq, Eq, Debug)]
pub enum ArchivalError {
    /// The command named no operation mode.
    MissingMode,
    /// The command named no input path.
    MissingInput,
    /// The command named no output path.
    MissingOutput,
    /// The command text could not be understood.
    InvalidCommand,
    /// Reading or writing the file system failed.
    Io(String),
    /// The archive ended in the middle of a header.
    TruncatedHeader,
    /// A header line does not have the expected `key:value` shape or value.
    MalformedField,
    /// The archive ended before a file's declared payload was complete.
    TruncatedPayload,
    /// A payload is not a well-formed stream for its compression method.
    MalformedPayload,
    /// Bytes remain after the number of files the archive header declares.
    TrailingData,
    /// A file name is absolute, empty, or climbs out of the destination.
    UnsafePath,
    /// No buffer-size range covers a file index.
    MissingRange,
    /// A profiling target is a directory rather than a file.
    NotAFile,
}

/// The broad class of an [`ArchivalError`].
#[derive(Clone, Copy, PartialEq, Eq, Debug, Structural)]
pub enum ErrorKind {
    /// The request was incomplete or not understood; nothing was done.
    Configuration,
    /// The file system refused an operation.
    Io,
    /// The archive is malformed or inconsistent with its header.
    Format,
    /// A file name would escape the destination.
    PathSafety,
}

/// The class each error belongs to.
pub open spec fn kind_of(e: ArchivalError) -> ErrorKind {
    match e {
        ArchivalError::MissingMode | ArchivalError::MissingInput | ArchivalError::MissingOutput
        | ArchivalError::InvalidCommand | ArchivalError::NotAFile | ArchivalError::MissingRange =>
            ErrorKind::Configuration,
        ArchivalError::Io(_) => ErrorKind::Io,
        ArchivalError::TruncatedHeader | ArchivalError::MalformedField
        | ArchivalError::TruncatedPayload | ArchivalError::MalformedPayload
        | ArchivalError::TrailingData => ErrorKind::Format,
        ArchivalError::UnsafePath => ErrorKind::PathSafety,
    }
}

impl ArchivalError {
    /// The class this error belongs to.
    pub fn kind(&self) -> (r: ErrorKind)
        ensures
            r == kind_of(*self),
    {
        match self {
            ArchivalError::MissingMode | ArchivalError::MissingInput
            | ArchivalError::MissingOutput | ArchivalError::InvalidCommand
            | ArchivalError::NotAFile | ArchivalError::MissingRange => ErrorKind::Configuration,
            ArchivalError::Io(_) => ErrorKind::Io,
            ArchivalError::TruncatedHeader | ArchivalError::MalformedField
            | ArchivalError::TruncatedPayload | ArchivalError::MalformedPayload
            | ArchivalError::TrailingData => ErrorKind::Format,
            ArchivalError::UnsafePath => ErrorKind::PathSafety,
        }
    }
}

} // verus!
