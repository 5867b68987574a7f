use crate::idx_reader::IdxError;
use vstd::prelude::*;

verus! {

/// The ways in which reading or rewriting a repository can fail.
#[derive(Clone, Copy, Debug, PartialEq, Eq, Structural)]
pub enum GitError {
    /// A pack index does not start with the version 2 magic and version.
    InvalidIndexHeader,
    /// A pack or a pack index ends inside a region of fixed size.
    TruncatedPackOrIndex,
    /// A pack entry carries a type code outside 1, 2, 3, 4, 6 and 7.
    UnknownObjectType,
    /// The base of a delta is not to be found.
    MissingBase,
    /// A commit, tree or tag does not follow its format, or compressed data
    /// does not decode.
    MalformedObject,
    /// A line of a contributor mapping holds no `=`.
    MalformedMapping,
    /// An annotated tag points at another annotated tag.
    UnsupportedTagChain,
    /// A reference does not hold 40 hexadecimal characters.
    MalformedRef,
    /// An object identifier is not 20 bytes long.
    UnsupportedHashAlgorithm,
    /// The file system failed.
    Io,
    /// A pattern for removal is of no supported form, or a regular
    /// expression does not compile.
    InvalidPattern,
}

impl GitError {
    /// The failure to read a pack index as a failure of the repository.
    pub fn from_idx(error: IdxError) -> (failure: GitError)
        ensures
            failure == (match error {
                IdxError::InvalidHeader => GitError::InvalidIndexHeader,
                IdxError::TruncatedIndex => GitError::TruncatedPackOrIndex,
            }),
    {
        match error {
            IdxError::InvalidHeader => GitError::InvalidIndexHeader,
            IdxError::TruncatedIndex => GitError::TruncatedPackOrIndex,
        }
    }

    /// A sentence that names the failure.
    pub fn message(&self) -> (text: &'static str)
        ensures
            text@ == error_text(*self),
    {
        match self {
            GitError::InvalidIndexHeader => "IDX file has invalid header.",
            GitError::TruncatedPackOrIndex => "Pack or index file is truncated.",
            GitError::UnknownObjectType => "Unknown git object type.",
            GitError::MissingBase => "Delta base object is missing.",
            GitError::MalformedObject => "Object is malformed.",
            GitError::MalformedMapping => "Line is malformed. Pattern: old = new",
            GitError::UnsupportedTagChain => "Did not expect a tag to point to another tag.",
            GitError::MalformedRef => "Reference is malformed.",
            GitError::UnsupportedHashAlgorithm => "ObjectHash has to be 20 bytes",
            GitError::Io => "File system operation failed.",
            GitError::InvalidPattern => "Unknown pattern.",
        }
    }
}

/// The sentence that [`GitError::message`] gives for each failure.
pub open spec fn error_text(error: GitError) -> Seq<char> {
    match error {
        GitError::InvalidIndexHeader => "IDX file has invalid header."@,
        GitError::TruncatedPackOrIndex => "Pack or index file is truncated."@,
        GitError::UnknownObjectType => "Unknown git object type."@,
        GitError::MissingBase => "Delta base object is missing."@,
        GitError::MalformedObject => "Object is malformed."@,
        GitError::MalformedMapping => "Line is malformed. Pattern: old = new"@,
        GitError::UnsupportedTagChain => "Did not expect a tag to point to another tag."@,
        GitError::MalformedRef => "Reference is malformed."@,
        GitError::UnsupportedHashAlgorithm => "ObjectHash has to be 20 bytes"@,
        GitError::Io => "File system operation failed."@,
        GitError::InvalidPattern => "Unknown pattern."@,
    }
}

} // verus!
