use vstd::prelude::*;

verus! {

/// `std::io::Error`, carried through the library's errors.
#[verifier::external_type_specification]
#[verifier::external_body]
pub struct ExIoError(std::io::Error);

/// Errors of the library.
#[derive(Debug)]
pub enum Error {
    /// A file of the process could not be used.
    Io { source: std::io::Error, path: String },
    /// A system call failed.
    Os { source: std::io::Error, syscall: String },
    /// Any other failure, told by its message.
    Other { message: String },
}

/// The library's results.
pub type Result<T> = std::result::Result<T, Error>;

/// The last error that the operating system reported on this thread.
/// Wraps `std::io::Error::last_os_error`; what it holds depends on the
/// machine and the moment, so nothing is stated of it.
#[verifier::external_body]
fn last_os_error() -> std::io::Error {
    std::io::Error::last_os_error()
}

impl Error {
    /// An I/O failure on `path`.
    pub fn io(source: std::io::Error, path: String) -> (res: Self)
        ensures
            res == (Error::Io { source, path }),
    {
        Error::Io { source, path }
    }

    /// A failure of the system call named `syscall`, with the last OS error.
    pub fn os(syscall: &str) -> (res: Self)
        ensures
            res matches Error::Os { syscall: s, .. } && s@ == syscall@,
    {
        Error::Os { source: last_os_error(), syscall: syscall.to_owned() }
    }

    /// A failure told by `message`.
    pub fn other(message: &str) -> (res: Self)
        ensures
            res.is_other(message@),
    {
        Error::Other { message: message.to_owned() }
    }

    /// This is a failure told by the message `m`.
    pub open spec fn is_other(&self, m: Seq<char>) -> bool {
        self matches Error::Other { message } && message@ == m
    }
}

} // verus!
