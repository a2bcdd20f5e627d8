//! Status codes of the firmware interfaces.

use vstd::prelude::*;

verus! {

/// The status that a firmware interface returns to say whether an operation
/// completed.
///
/// The firmware numbers the warnings from one and the errors from one as
/// well, and sets the highest bit of the number of an error.
#[derive(Debug, Copy, Clone, Eq, PartialEq, Structural)]
pub enum Status {
    /// The operation completed successfully.
    Success,
    /// The string contained characters that the device could not render and were skipped.
    WarnUnknownGlyph,
    /// The handle was closed, but the file was not deleted.
    WarnDeleteFailure,
    /// The handle was closed, but the data to the file was not flushed properly.
    WarnWriteFailure,
    /// The resulting buffer was too small, and the data was truncated to the buffer size.
    WarnBufferTooSmall,
    /// The data has not been updated within the timeframe set by local policy.
    WarnStaleData,
    /// The resulting buffer contains a UEFI-compliant file system.
    WarnFileSystem,
    /// The operation will be processed across a system reset.
    WarnResetRequired,
    /// The image failed to load.
    LoadError,
    /// A parameter was incorrect.
    InvalidParameter,
    /// The operation is not supported.
    Unsupported,
    /// The buffer was not the proper size for the request.
    BadBufferSize,
    /// The buffer is not large enough to hold the requested data.
    BufferTooSmall,
    /// There is no data pending upon return.
    NotReady,
    /// The physical device reported an error while attempting the operation.
    DeviceError,
    /// The device cannot be written to.
    WriteProtected,
    /// A resource has run out.
    OutOfResources,
    /// An inconsistency was detected on the file system.
    VolumeCorrupted,
    /// There is no more space on the file system.
    VolumeFull,
    /// The device does not contain any medium to perform the operation.
    NoMedia,
    /// The medium in the device has changed since the last access.
    MediaChanged,
    /// The item was not found.
    NotFound,
    /// Access was denied.
    AccessDenied,
    /// The server was not found or did not respond to the request.
    NoResponse,
    /// A mapping to a device does not exist.
    NoMapping,
    /// The timeout time expired.
    Timeout,
    /// The protocol has not been started.
    NotStarted,
    /// The protocol has already been started.
    AlreadyStarted,
    /// The operation was aborted.
    Aborted,
    /// An ICMP error occurred during the network operation.
    IcmpError,
    /// A TFTP error occurred during the network operation.
    TftpError,
    /// A protocol error occurred during the network operation.
    ProtocolError,
    /// The function encountered an internal version that was incompatible
    /// with a version requested by the caller.
    IncompatibleVersion,
    /// The function was not performed due to a security violation.
    SecurityViolation,
    /// A CRC error was detected.
    CrcError,
    /// Beginning or end of media was reached.
    EndOfMedia,
    /// The end of the file was reached.
    EndOfFile,
    /// The language specified was invalid.
    InvalidLanguage,
    /// The security status of the data is unknown or compromised.
    CompromisedData,
    /// There is an address conflict in address allocation.
    IpAddressConflict,
    /// An HTTP error occurred during the network operation.
    HttpError,
}

/// The highest bit of a status number, which marks an error.
pub const ERROR_BIT: usize = usize::MAX - usize::MAX / 2;

impl Status {
    /// Whether the highest bit of the number of this status is set.
    pub open spec fn high_bit(self) -> bool {
        !(self is Success || self is WarnUnknownGlyph || self is WarnDeleteFailure
            || self is WarnWriteFailure || self is WarnBufferTooSmall || self is WarnStaleData
            || self is WarnFileSystem || self is WarnResetRequired)
    }

    /// The number of this status without its highest bit.
    pub open spec fn number(self) -> int {
        match self {
            Status::Success => 0,
            Status::WarnUnknownGlyph => 1,
            Status::WarnDeleteFailure => 2,
            Status::WarnWriteFailure => 3,
            Status::WarnBufferTooSmall => 4,
            Status::WarnStaleData => 5,
            Status::WarnFileSystem => 6,
            Status::WarnResetRequired => 7,
            Status::LoadError => 1,
            Status::InvalidParameter => 2,
            Status::Unsupported => 3,
            Status::BadBufferSize => 4,
            Status::BufferTooSmall => 5,
            Status::NotReady => 6,
            Status::DeviceError => 7,
            Status::WriteProtected => 8,
            Status::OutOfResources => 9,
            Status::VolumeCorrupted => 10,
            Status::VolumeFull => 11,
            Status::NoMedia => 12,
            Status::MediaChanged => 13,
            Status::NotFound => 14,
            Status::AccessDenied => 15,
            Status::NoResponse => 16,
            Status::NoMapping => 17,
            Status::Timeout => 18,
            Status::NotStarted => 19,
            Status::AlreadyStarted => 20,
            Status::Aborted => 21,
            Status::IcmpError => 22,
            Status::TftpError => 23,
            Status::ProtocolError => 24,
            Status::IncompatibleVersion => 25,
            Status::SecurityViolation => 26,
            Status::CrcError => 27,
            Status::EndOfMedia => 28,
            Status::EndOfFile => 31,
            Status::InvalidLanguage => 32,
            Status::CompromisedData => 33,
            Status::IpAddressConflict => 34,
            Status::HttpError => 35,
        }
    }

    /// The number by which the firmware names this status.
    pub open spec fn code_of(self) -> int {
        if self.high_bit() {
            ERROR_BIT + self.number()
        } else {
            self.number()
        }
    }

    /// The number of this status without its highest bit.
    fn low_bits(self) -> (n: usize)
        ensures
            n == self.number(),
            n <= 35,
    {
        match self {
            Status::Success => 0,
            Status::WarnUnknownGlyph => 1,
            Status::WarnDeleteFailure => 2,
            Status::WarnWriteFailure => 3,
            Status::WarnBufferTooSmall => 4,
            Status::WarnStaleData => 5,
            Status::WarnFileSystem => 6,
            Status::WarnResetRequired => 7,
            Status::LoadError => 1,
            Status::InvalidParameter => 2,
            Status::Unsupported => 3,
            Status::BadBufferSize => 4,
            Status::BufferTooSmall => 5,
            Status::NotReady => 6,
            Status::DeviceError => 7,
            Status::WriteProtected => 8,
            Status::OutOfResources => 9,
            Status::VolumeCorrupted => 10,
            Status::VolumeFull => 11,
            Status::NoMedia => 12,
            Status::MediaChanged => 13,
            Status::NotFound => 14,
            Status::AccessDenied => 15,
            Status::NoResponse => 16,
            Status::NoMapping => 17,
            Status::Timeout => 18,
            Status::NotStarted => 19,
            Status::AlreadyStarted => 20,
            Status::Aborted => 21,
            Status::IcmpError => 22,
            Status::TftpError => 23,
            Status::ProtocolError => 24,
            Status::IncompatibleVersion => 25,
            Status::SecurityViolation => 26,
            Status::CrcError => 27,
            Status::EndOfMedia => 28,
            Status::EndOfFile => 31,
            Status::InvalidLanguage => 32,
            Status::CompromisedData => 33,
            Status::IpAddressConflict => 34,
            Status::HttpError => 35,
        }
    }

    /// The number by which the firmware names this status.
    pub fn code(self) -> (n: usize)
        ensures
            n == self.code_of(),
    {
        if self.is_warning() {
            self.low_bits()
        } else {
            ERROR_BIT + self.low_bits()
        }
    }

    /// The status that the firmware names by `n`, if there is one.
    pub fn from_code(n: usize) -> (status: Option<Status>)
        ensures
            match status {
                Some(s) => s.code_of() == n,
                None => forall|s: Status| s.code_of() != n,
            },
    {
        if n < ERROR_BIT {
            match n {
                0 => Some(Status::Success),
                1 => Some(Status::WarnUnknownGlyph),
                2 => Some(Status::WarnDeleteFailure),
                3 => Some(Status::WarnWriteFailure),
                4 => Some(Status::WarnBufferTooSmall),
                5 => Some(Status::WarnStaleData),
                6 => Some(Status::WarnFileSystem),
                7 => Some(Status::WarnResetRequired),
                _ => None,
            }
        } else {
            match n - ERROR_BIT {
                1 => Some(Status::LoadError),
                2 => Some(Status::InvalidParameter),
                3 => Some(Status::Unsupported),
                4 => Some(Status::BadBufferSize),
                5 => Some(Status::BufferTooSmall),
                6 => Some(Status::NotReady),
                7 => Some(Status::DeviceError),
                8 => Some(Status::WriteProtected),
                9 => Some(Status::OutOfResources),
                10 => Some(Status::VolumeCorrupted),
                11 => Some(Status::VolumeFull),
                12 => Some(Status::NoMedia),
                13 => Some(Status::MediaChanged),
                14 => Some(Status::NotFound),
                15 => Some(Status::AccessDenied),
                16 => Some(Status::NoResponse),
                17 => Some(Status::NoMapping),
                18 => Some(Status::Timeout),
                19 => Some(Status::NotStarted),
                20 => Some(Status::AlreadyStarted),
                21 => Some(Status::Aborted),
                22 => Some(Status::IcmpError),
                23 => Some(Status::TftpError),
                24 => Some(Status::ProtocolError),
                25 => Some(Status::IncompatibleVersion),
                26 => Some(Status::SecurityViolation),
                27 => Some(Status::CrcError),
                28 => Some(Status::EndOfMedia),
                31 => Some(Status::EndOfFile),
                32 => Some(Status::InvalidLanguage),
                33 => Some(Status::CompromisedData),
                34 => Some(Status::IpAddressConflict),
                35 => Some(Status::HttpError),
                _ => None,
            }
        }
    }

    /// Returns true if the status code indicates success.
    pub fn is_success(self) -> (b: bool)
        ensures
            b == (self == Status::Success),
    {
        self == Status::Success
    }

    /// Returns true if the status code is none of an error: its highest bit
    /// is clear.
    pub fn is_warning(self) -> (b: bool)
        ensures
            b == !self.high_bit(),
    {
        match self {
            Status::Success
            | Status::WarnUnknownGlyph
            | Status::WarnDeleteFailure
            | Status::WarnWriteFailure
            | Status::WarnBufferTooSmall
            | Status::WarnStaleData
            | Status::WarnFileSystem
            | Status::WarnResetRequired => true,
            _ => false,
        }
    }

    /// Returns true if the status code indicates an error: its highest bit
    /// is set.
    pub fn is_error(self) -> (b: bool)
        ensures
            b == self.high_bit(),
    {
        !self.is_warning()
    }

    /// `Ok` for success, and the status itself as the error for a warning or
    /// an error.
    pub fn into_result(self) -> (r: Result<(), Status>)
        ensures
            r == if self == Status::Success {
                Ok::<(), Status>(())
            } else {
                Err::<(), Status>(self)
            },
    {
        if self.is_success() {
            Ok(())
        } else {
            Err(self)
        }
    }

    /// The status that stands for the error `error`.
    pub fn from_error(error: Status) -> (s: Status)
        ensures
            s == error,
    {
        error
    }

    /// The status that stands for a result without an error.
    pub fn from_ok(ok: ()) -> (s: Status)
        ensures
            s == Status::Success,
    {
        Status::Success
    }
}

} // verus!
