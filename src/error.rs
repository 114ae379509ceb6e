use vstd::prelude::*;

verus! {

/// Every failure the library reports, as one tagged value.
#[derive(Debug, Clone, PartialEq, Eq)]
pub enum GitError {
    /// A store object is missing.
    NotFound,
    /// Stored bytes do not inflate.
    Corrupt,
    /// A stored object's header is not `<kind> <size>\0` with a matching size.
    MalformedObject,
    /// A tree's content is not a sequence of well-formed entries.
    MalformedTree,
    /// A commit's first line is not `tree <id>`.
    MalformedCommit,
    /// A pack's container or an entry's framing is wrong.
    MalformedPack,
    /// A delta's instruction stream is truncated or inconsistent.
    MalformedDelta,
    /// A pack entry carries a type tag other than 1, 2, 3 or 7.
    UnsupportedPackEntry,
    /// A ref-delta names a base that is not available.
    DanglingDeltaBase,
    /// A filesystem entry that no tree mode can represent.
    UnsupportedFile,
    /// A caller-supplied hash or string is malformed.
    InvalidArgument,
    /// A structural failure described by a message.
    InvalidObjectFormat { message: String },
    /// Any other failure, described by a message.
    Generic { message: String },
}

impl GitError {
    /// A failure described by `message` alone.
    pub fn any(message: String) -> (r: GitError)
        ensures
            r == (GitError::Generic { message }),
    {
        GitError::Generic { message }
    }

    /// A malformed-object failure described by `message`.
    pub fn invalid_object_format(message: String) -> (r: GitError)
        ensures
            r == (GitError::InvalidObjectFormat { message }),
    {
        GitError::InvalidObjectFormat { message }
    }
}

} // verus!
