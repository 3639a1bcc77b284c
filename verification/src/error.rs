//! The failures that the library's operations report.

use vstd::prelude::*;

verus! {

/// Why an operation failed. Each variant carries a message for people;
/// contracts speak of the variant alone.
#[derive(Debug)]
pub enum Error {
    /// An input or output operation failed.
    Io(String),
    /// A value could not be written down or read back.
    Serialization(String),
    /// The storage backend failed, or handed back what it cannot have stored.
    Storage(String),
    /// A replica could not be reached in time.
    Communication(String),
    /// Conflict resolution was misused, or a quorum could not be met.
    Consistency(String),
    /// A node was named that is not known.
    Membership(String),
    /// Replication or quorum parameters are invalid.
    Configuration(String),
}

/// The kinds of failure, without their messages.
#[derive(Debug, Clone, Copy, PartialEq, Eq, Structural)]
pub enum ErrorKind {
    Io,
    Serialization,
    Storage,
    Communication,
    Consistency,
    Membership,
    Configuration,
}

impl Error {
    /// The kind of this failure.
    pub open spec fn spec_kind(&self) -> ErrorKind {
        match self {
            Error::Io(_) => ErrorKind::Io,
            Error::Serialization(_) => ErrorKind::Serialization,
            Error::Storage(_) => ErrorKind::Storage,
            Error::Communication(_) => ErrorKind::Communication,
            Error::Consistency(_) => ErrorKind::Consistency,
            Error::Membership(_) => ErrorKind::Membership,
            Error::Configuration(_) => ErrorKind::Configuration,
        }
    }

    /// The kind of this failure.
    #[verifier::when_used_as_spec(spec_kind)]
    pub fn kind(&self) -> (kind: ErrorKind)
        ensures
            kind == self.spec_kind(),
    {
        match self {
            Error::Io(_) => ErrorKind::Io,
            Error::Serialization(_) => ErrorKind::Serialization,
            Error::Storage(_) => ErrorKind::Storage,
            Error::Communication(_) => ErrorKind::Communication,
            Error::Consistency(_) => ErrorKind::Consistency,
            Error::Membership(_) => ErrorKind::Membership,
            Error::Configuration(_) => ErrorKind::Configuration,
        }
    }

    /// The message that the failure carries.
    pub fn message(&self) -> (text: &String)
        ensures
            text == self.spec_message(),
    {
        match self {
            Error::Io(m) => m,
            Error::Serialization(m) => m,
            Error::Storage(m) => m,
            Error::Communication(m) => m,
            Error::Consistency(m) => m,
            Error::Membership(m) => m,
            Error::Configuration(m) => m,
        }
    }

    /// The message that the failure carries.
    pub open spec fn spec_message(&self) -> &String {
        match self {
            Error::Io(m) => m,
            Error::Serialization(m) => m,
            Error::Storage(m) => m,
            Error::Communication(m) => m,
            Error::Consistency(m) => m,
            Error::Membership(m) => m,
            Error::Configuration(m) => m,
        }
    }
}

} // verus!
