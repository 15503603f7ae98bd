//! What ends a build.

use crate::canonical_path::{CanonicalPath, CanonicalPathError};
use crate::imports::{ParseError, ParseFault};
use vstd::prelude::*;
use vstd::std_specs::convert::FromSpecImpl;

verus! {

/// Every error is fatal: the build stops at the first one and names the file
/// at which it stopped.
#[derive(Debug, PartialEq, Eq)]
pub enum CatsError {
    /// The file could not be read.
    Io { file: CanonicalPath },
    /// A text handed in as canonical is not.
    CanonicalPath(CanonicalPathError),
    /// The file is not a module that the parser accepts.
    Parse { file: CanonicalPath, error: ParseError },
    /// Nothing exists where the import points: `candidate` is the path that
    /// was looked up for `specifier`, as written in `importer`.
    UnresolvedImport { importer: CanonicalPath, specifier: String, candidate: String },
    /// The file has no directory above it.
    NoParent { file: CanonicalPath },
    /// The reply does not answer what was asked.
    UnexpectedReply,
}

/// A [`CatsError`] as a value of the logic.
pub enum CatsFault {
    Io { file: Seq<Seq<char>> },
    CanonicalPath(CanonicalPathError),
    Parse { file: Seq<Seq<char>>, error: ParseFault },
    UnresolvedImport { importer: Seq<Seq<char>>, specifier: Seq<char>, candidate: Seq<char> },
    NoParent { file: Seq<Seq<char>> },
    UnexpectedReply,
}

impl View for CatsError {
    type V = CatsFault;

    open spec fn view(&self) -> CatsFault {
        match self {
            CatsError::Io { file } => CatsFault::Io { file: file@ },
            CatsError::CanonicalPath(e) => CatsFault::CanonicalPath(*e),
            CatsError::Parse { file, error } => CatsFault::Parse { file: file@, error: error@ },
            CatsError::UnresolvedImport { importer, specifier, candidate } => {
                CatsFault::UnresolvedImport {
                    importer: importer@,
                    specifier: specifier@,
                    candidate: candidate@,
                }
            },
            CatsError::NoParent { file } => CatsFault::NoParent { file: file@ },
            CatsError::UnexpectedReply => CatsFault::UnexpectedReply,
        }
    }
}

impl From<CanonicalPathError> for CatsError {
    fn from(e: CanonicalPathError) -> (r: CatsError) {
        CatsError::CanonicalPath(e)
    }
}

impl FromSpecImpl<CanonicalPathError> for CatsError {
    open spec fn obeys_from_spec() -> bool {
        true
    }

    open spec fn from_spec(e: CanonicalPathError) -> CatsError {
        CatsError::CanonicalPath(e)
    }
}

} // verus!
