//! The errors operations return.

use vstd::prelude::*;

use crate::text;
use crate::text::byte_list_text;

verus! {

/// What kind of failure an I/O error is.
#[derive(Debug, Clone, Copy, PartialEq, Eq, Structural)]
pub enum ErrorKind {
    NotFound,
    PermissionDenied,
    AlreadyExists,
    NotConnected,
    InvalidInput,
    InvalidData,
    UnexpectedEof,
    Interrupted,
    Unsupported,
    OutOfMemory,
    Other,
}

/// A failure reported by the host, or phrased the way the host phrases one.
#[derive(Debug, Clone)]
pub struct IoError {
    pub kind: ErrorKind,
    pub message: String,
}

impl IoError {
    /// An error of `kind` that reads as `message`.
    pub fn new(kind: ErrorKind, message: &str) -> (r: Self)
        ensures
            r.kind == kind,
            r.message@ == message@,
    {
        IoError { kind, message: message.to_owned() }
    }

    /// An error of no particular kind.
    pub fn other(message: &str) -> (r: Self)
        ensures
            r.kind == ErrorKind::Other,
            r.message@ == message@,
    {
        IoError::new(ErrorKind::Other, message)
    }

    /// Malformed data.
    pub fn invalid_data(message: &str) -> (r: Self)
        ensures
            r.kind == ErrorKind::InvalidData,
            r.message@ == message@,
    {
        IoError::new(ErrorKind::InvalidData, message)
    }

    /// The kind of failure.
    pub fn kind(&self) -> (r: ErrorKind)
        ensures
            r == self.kind,
    {
        self.kind
    }

    /// The error as text.
    pub fn to_text(&self) -> (r: String)
        ensures
            r@ == self.message@,
    {
        self.message.clone()
    }
}

/// Errors returned by database operations.
#[non_exhaustive]
#[derive(Debug, Clone)]
pub enum Error {
    /// A caller supplied an invalid option, key, value, range, or other API
    /// argument.
    InvalidArgument(String),
    /// Stored data was malformed or truncated.
    Corruption(IoError),
    /// A mutating operation was attempted through a read-only handle.
    ReadOnly,
    /// An operation was attempted after the database handle was closed.
    Closed,
    /// A column-family handle or id is stale, dropped, or belongs to a
    /// different database handle.
    InvalidColumnFamily(String),
    /// The engine refused to block the caller and returned early; the string
    /// names the stall condition.
    Busy(&'static str),
    /// The merge operator returned `None` when asked to combine a value with
    /// its operands. The user key is included.
    MergeFailed(Vec<u8>),
    /// An underlying I/O error.
    Io(IoError),
}

/// The result of a database operation.
pub type Result<T> = std::result::Result<T, Error>;

/// An error, as contracts speak of it.
pub ghost enum Fault {
    InvalidArgument(Seq<char>),
    Corruption(Seq<char>),
    ReadOnly,
    Closed,
    InvalidColumnFamily(Seq<char>),
    MergeFailed(Seq<u8>),
    Busy(Seq<char>),
    NotFound(Seq<char>),
}

/// `e` is the error that `f` names.
pub open spec fn is_fault(e: Error, f: Fault) -> bool {
    match f {
        Fault::InvalidArgument(text) => e matches Error::InvalidArgument(m) && m@ == text,
        Fault::Corruption(text) => e matches Error::Corruption(io) && io.kind
            == ErrorKind::InvalidData && io.message@ == text,
        Fault::ReadOnly => e is ReadOnly,
        Fault::Closed => e is Closed,
        Fault::InvalidColumnFamily(text) => e matches Error::InvalidColumnFamily(m) && m@ == text,
        Fault::MergeFailed(key) => e matches Error::MergeFailed(k) && k@ == key,
        Fault::Busy(reason) => e matches Error::Busy(m) && m@ == reason,
        Fault::NotFound(text) => e matches Error::Io(io) && io.kind == ErrorKind::NotFound
            && io.message@ == text,
    }
}

/// A check came out as `f` says: passed, or the error named.
pub open spec fn checked(r: Result<()>, f: Option<Fault>) -> bool {
    match f {
        None => r is Ok,
        Some(fault) => r matches Err(e) && is_fault(e, fault),
    }
}

/// The error an I/O failure is reported as: bad input and bad data keep
/// their own variants, the closed handle's own message is recognised, and
/// everything else stays an I/O error.
pub open spec fn error_of(err: IoError) -> Error {
    match err.kind {
        ErrorKind::InvalidInput => Error::InvalidArgument(err.message),
        ErrorKind::InvalidData => Error::Corruption(err),
        ErrorKind::UnexpectedEof => Error::Corruption(err),
        ErrorKind::NotConnected => if err.message@ == "database is closed"@ {
            Error::Closed
        } else {
            Error::Io(err)
        },
        _ => Error::Io(err),
    }
}

impl Error {
    pub fn invalid_argument(message: &str) -> (r: Self)
        ensures
            r matches Error::InvalidArgument(m) && m@ == message@,
    {
        Error::InvalidArgument(message.to_owned())
    }

    pub fn invalid_column_family(message: &str) -> (r: Self)
        ensures
            r matches Error::InvalidColumnFamily(m) && m@ == message@,
    {
        Error::InvalidColumnFamily(message.to_owned())
    }

    pub fn corruption(message: &str) -> (r: Self)
        ensures
            r matches Error::Corruption(e) && e.kind == ErrorKind::InvalidData && e.message@
                == message@,
    {
        Error::Corruption(IoError::new(ErrorKind::InvalidData, message))
    }

    /// How the error reads.
    pub open spec fn text(self) -> Seq<char> {
        match self {
            Error::InvalidArgument(m) => "invalid argument: "@ + m@,
            Error::Corruption(e) => "corruption: "@ + e.message@,
            Error::ReadOnly => "database was opened read-only"@,
            Error::Closed => "database is closed"@,
            Error::InvalidColumnFamily(m) => "invalid column family: "@ + m@,
            Error::Busy(m) => "engine busy: "@ + m@,
            Error::MergeFailed(key) => "merge operator failed for key "@ + byte_list_text(key@),
            Error::Io(e) => "I/O error: "@ + e.message@,
        }
    }

    /// The error as text.
    pub fn to_text(&self) -> (r: String)
        ensures
            r@ == self.text(),
    {
        match self {
            Error::InvalidArgument(m) => text::join2("invalid argument: ", m.as_str()),
            Error::Corruption(e) => text::join2("corruption: ", e.message.as_str()),
            Error::ReadOnly => "database was opened read-only".to_owned(),
            Error::Closed => "database is closed".to_owned(),
            Error::InvalidColumnFamily(m) => text::join2("invalid column family: ", m.as_str()),
            Error::Busy(m) => text::join2("engine busy: ", m),
            Error::MergeFailed(key) => text::join2(
                "merge operator failed for key ",
                text::byte_list(key.as_slice()).as_str(),
            ),
            Error::Io(e) => text::join2("I/O error: ", e.message.as_str()),
        }
    }

    /// Render this error as the I/O error a caller on an I/O boundary sees,
    /// with the kind and message a direct I/O path uses for the same
    /// condition.
    pub fn into_io_error(self) -> (r: IoError)
        ensures
            match self {
                Error::Io(io) => r == io,
                Error::Corruption(io) => r == io,
                Error::InvalidArgument(m) => r.kind == ErrorKind::InvalidInput && r.message@ == m@,
                Error::InvalidColumnFamily(m) => r.kind == ErrorKind::InvalidInput && r.message@
                    == m@,
                Error::ReadOnly => r.kind == ErrorKind::PermissionDenied && r.message@
                    == "database was opened read-only"@,
                Error::Closed => r.kind == ErrorKind::NotConnected && r.message@
                    == "database is closed"@,
                Error::Busy(_) => r.kind == ErrorKind::Other && r.message@ == self.text(),
                Error::MergeFailed(_) => r.kind == ErrorKind::Other && r.message@ == self.text(),
            },
    {
        match self {
            Error::Io(io) => io,
            Error::Corruption(io) => io,
            Error::InvalidArgument(message) => IoError {
                kind: ErrorKind::InvalidInput,
                message,
            },
            Error::InvalidColumnFamily(message) => IoError {
                kind: ErrorKind::InvalidInput,
                message,
            },
            Error::ReadOnly => IoError::new(
                ErrorKind::PermissionDenied,
                "database was opened read-only",
            ),
            Error::Closed => IoError::new(ErrorKind::NotConnected, "database is closed"),
            Error::Busy(_) => IoError { kind: ErrorKind::Other, message: self.to_text() },
            Error::MergeFailed(_) => IoError { kind: ErrorKind::Other, message: self.to_text() },
        }
    }
}

impl From<IoError> for Error {
    fn from(err: IoError) -> (r: Self) {
        match err.kind {
            ErrorKind::InvalidInput => Error::InvalidArgument(err.message),
            ErrorKind::InvalidData => Error::Corruption(err),
            ErrorKind::UnexpectedEof => Error::Corruption(err),
            ErrorKind::NotConnected => {
                if crate::text::same_text(err.message.as_str(), "database is closed") {
                    Error::Closed
                } else {
                    Error::Io(err)
                }
            },
            _ => Error::Io(err),
        }
    }
}

impl vstd::std_specs::convert::FromSpecImpl<IoError> for Error {
    open spec fn obeys_from_spec() -> bool {
        true
    }

    open spec fn from_spec(err: IoError) -> Self {
        error_of(err)
    }
}

/// A closed handle, a bad argument and every corruption read back from the
/// I/O form as the error they were.
pub proof fn lemma_io_round_trip(err: Error, io: IoError)
    requires
        match err {
            Error::Corruption(e) => io == e && (e.kind == ErrorKind::InvalidData || e.kind
                == ErrorKind::UnexpectedEof),
            Error::InvalidArgument(m) => io.kind == ErrorKind::InvalidInput && io.message == m,
            Error::Closed => io.kind == ErrorKind::NotConnected && io.message@
                == "database is closed"@,
            _ => false,
        },
    ensures
        error_of(io) == err,
{
}

} // verus!
