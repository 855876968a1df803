//! Errors met while scanning, hashing, backing up or deleting.
use vstd::prelude::*;
use vstd::slice::slice_to_vec;

verus! {

#[verifier::external_type_specification]
#[verifier::external_body]
pub struct ExIoError(std::io::Error);

#[verifier::external_type_specification]
#[verifier::external_body]
pub struct ExGlobError(globset::Error);

/// The kinds of I/O failure that are told apart when an error is attached to
/// a path.
#[derive(Debug, Clone, Copy, PartialEq, Eq, Structural)]
pub enum IoErrorKind {
    PermissionDenied,
    NotFound,
    Other,
}

/// The kind that `std::io::Error::kind` reports for an error, reduced to the
/// kinds that are told apart.
pub uninterp spec fn io_kind_of(err: std::io::Error) -> IoErrorKind;

/// Reads `std::io::Error::kind` and reduces it to the kinds that are told
/// apart; the kind is a property of the error value, named, not described.
#[verifier::external_body]
pub(crate) fn io_error_kind(err: &std::io::Error) -> (r: IoErrorKind)
    ensures
        r == io_kind_of(*err),
{
    match err.kind() {
        std::io::ErrorKind::PermissionDenied => IoErrorKind::PermissionDenied,
        std::io::ErrorKind::NotFound => IoErrorKind::NotFound,
        _ => IoErrorKind::Other,
    }
}

/// An error met during a scan; paths are held as raw bytes.
#[derive(Debug)]
pub enum ScanError {
    Metadata(Vec<u8>, std::io::Error),
    PermissionDenied(Vec<u8>),
    NotFound(Vec<u8>),
    PathNotExists(Vec<u8>),
    NotADirectory(Vec<u8>),
    FileRead(Vec<u8>, std::io::Error),
    HashError(Vec<u8>, std::io::Error),
    GlobPattern(String, globset::Error),
    BackupDirCreate(Vec<u8>, std::io::Error),
    BackupFailed(Vec<u8>, Vec<u8>, std::io::Error),
    DeleteFailed(Vec<u8>, std::io::Error),
    BackupInsideScanned(Vec<u8>, Vec<u8>),
    Io(std::io::Error),
    Config(String),
    Cancelled,
}

impl ScanError {
    /// The error for an I/O failure on `path`: permission and existence
    /// failures get their own variants, any other failure is a read error.
    pub fn from_io_with_path(path: &[u8], err: std::io::Error) -> (r: ScanError)
        ensures
            r is PermissionDenied || r is NotFound || r is FileRead,
            io_kind_of(err) == IoErrorKind::PermissionDenied ==> r is PermissionDenied,
            io_kind_of(err) == IoErrorKind::NotFound ==> r is NotFound,
            io_kind_of(err) == IoErrorKind::Other ==> r is FileRead,
            r matches ScanError::PermissionDenied(p) ==> p@ == path@,
            r matches ScanError::NotFound(p) ==> p@ == path@,
            r matches ScanError::FileRead(p, e) ==> p@ == path@ && e == err,
    {
        let kind = io_error_kind(&err);
        Self::from_io_kind(path, kind, err)
    }

    /// The error for an I/O failure of kind `kind` on `path`.
    pub fn from_io_kind(path: &[u8], kind: IoErrorKind, err: std::io::Error) -> (r: ScanError)
        ensures
            kind == IoErrorKind::PermissionDenied ==> (r matches ScanError::PermissionDenied(p)
                && p@ == path@),
            kind == IoErrorKind::NotFound ==> (r matches ScanError::NotFound(p) && p@ == path@),
            kind == IoErrorKind::Other ==> (r matches ScanError::FileRead(p, e) && p@ == path@ && e
                == err),
    {
        match kind {
            IoErrorKind::PermissionDenied => ScanError::PermissionDenied(slice_to_vec(path)),
            IoErrorKind::NotFound => ScanError::NotFound(slice_to_vec(path)),
            IoErrorKind::Other => ScanError::FileRead(slice_to_vec(path), err),
        }
    }

    /// Whether this error stops the whole operation.
    pub fn is_fatal(&self) -> (r: bool)
        ensures
            r == (self is Config || self is BackupInsideScanned || self is Cancelled),
    {
        match self {
            ScanError::Config(_) | ScanError::BackupInsideScanned(_, _) | ScanError::Cancelled => true,
            _ => false,
        }
    }

    /// Whether this error is only worth a warning.
    pub fn is_ignorable(&self) -> (r: bool)
        ensures
            r == (self is PermissionDenied || self is NotFound || self is FileRead),
    {
        match self {
            ScanError::PermissionDenied(_) | ScanError::NotFound(_) | ScanError::FileRead(_, _) => true,
            _ => false,
        }
    }
}

/// How many warnings are listed one by one; the rest are only counted.
pub const WARNINGS_LISTED: usize = 10;

/// The non-fatal errors met during a scan, in order.
#[derive(Debug)]
pub struct ErrorLog {
    pub warnings: Vec<ScanError>,
}

impl ErrorLog {
    pub fn new() -> (r: Self)
        ensures
            r.warnings@.len() == 0,
    {
        ErrorLog { warnings: Vec::new() }
    }

    pub fn add(&mut self, error: ScanError)
        ensures
            final(self).warnings@ == old(self).warnings@.push(error),
    {
        self.warnings.push(error);
    }

    pub fn is_empty(&self) -> (r: bool)
        ensures
            r == (self.warnings@.len() == 0),
    {
        self.warnings.len() == 0
    }

    pub fn len(&self) -> (r: usize)
        ensures
            r == self.warnings@.len(),
    {
        self.warnings.len()
    }

    /// Number of warnings beyond those listed one by one.
    pub fn unlisted_count(&self) -> (r: usize)
        ensures
            r == (if self.warnings@.len() > WARNINGS_LISTED {
                self.warnings@.len() - WARNINGS_LISTED
            } else {
                0
            }),
    {
        if self.warnings.len() > WARNINGS_LISTED {
            self.warnings.len() - WARNINGS_LISTED
        } else {
            0
        }
    }
}

impl Default for ErrorLog {
    fn default() -> (r: Self)
        ensures
            r.warnings@.len() == 0,
    {
        ErrorLog::new()
    }
}

} // verus!
