//! Conventional process exit codes, after the BSD `sysexits` list.

use vstd::prelude::*;

verus! {

/// A process exit status class.
#[derive(Debug, Clone, Copy, PartialEq, Eq, Structural)]
pub enum ExitCode {
    /// Successful termination.
    OK,
    /// General failure.
    FAILURE,
    /// The command was used incorrectly: bad arguments, a bad flag,
    /// bad syntax in a parameter.
    USAGE,
    /// The input data was incorrect in some way.
    DATAERR,
    /// An input file did not exist or was not readable.
    NOINPUT,
    /// The user specified did not exist.
    NOUSER,
    /// The host specified did not exist.
    NOHOST,
    /// A service is unavailable.
    UNAVAILABLE,
    /// An internal software error has been detected.
    SOFTWARE,
    /// An operating system error has been detected.
    OSERR,
    /// A system file does not exist or cannot be opened.
    OSFILE,
    /// A user-specified output file cannot be created.
    CANTCREAT,
    /// An error occurred while doing I/O on some file.
    IOERR,
    /// A temporary failure; the request should be reattempted later.
    TEMPFAIL,
    /// The remote system broke a protocol exchange.
    PROTOCOL,
    /// Insufficient permission to perform the operation.
    NOPERM,
    /// Configuration error.
    CONFIG,
}

impl ExitCode {
    /// The numeric status handed to the operating system.
    pub fn code(self) -> (r: i32)
        ensures
            r == spec_exit_code(self),
    {
        match self {
            ExitCode::OK => 0,
            ExitCode::FAILURE => 1,
            ExitCode::USAGE => 64,
            ExitCode::DATAERR => 65,
            ExitCode::NOINPUT => 66,
            ExitCode::NOUSER => 67,
            ExitCode::NOHOST => 68,
            ExitCode::UNAVAILABLE => 69,
            ExitCode::SOFTWARE => 70,
            ExitCode::OSERR => 71,
            ExitCode::OSFILE => 72,
            ExitCode::CANTCREAT => 73,
            ExitCode::IOERR => 74,
            ExitCode::TEMPFAIL => 75,
            ExitCode::PROTOCOL => 76,
            ExitCode::NOPERM => 77,
            ExitCode::CONFIG => 78,
        }
    }
}

/// The numeric value of each exit status class.
pub open spec fn spec_exit_code(c: ExitCode) -> i32 {
    match c {
        ExitCode::OK => 0,
        ExitCode::FAILURE => 1,
        ExitCode::USAGE => 64,
        ExitCode::DATAERR => 65,
        ExitCode::NOINPUT => 66,
        ExitCode::NOUSER => 67,
        ExitCode::NOHOST => 68,
        ExitCode::UNAVAILABLE => 69,
        ExitCode::SOFTWARE => 70,
        ExitCode::OSERR => 71,
        ExitCode::OSFILE => 72,
        ExitCode::CANTCREAT => 73,
        ExitCode::IOERR => 74,
        ExitCode::TEMPFAIL => 75,
        ExitCode::PROTOCOL => 76,
        ExitCode::NOPERM => 77,
        ExitCode::CONFIG => 78,
    }
}

} // verus!
