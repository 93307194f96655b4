//! The library's error type and the mapping of NBD device error codes.

use vstd::prelude::*;

verus! {

/// Everything that can go wrong inside a handshake or a session.
///
/// Framing errors and short reads are fatal to the session that raised them;
/// a `Device` error is the peer refusing one request, and the session stays
/// usable.
#[derive(Debug, Clone, Copy, PartialEq, Eq, Structural)]
pub enum NbdError {
    /// The transport delivered fewer bytes than a frame demanded before EOF.
    ShortRead,
    /// Server: the client's initial flags were not exactly `NBD_FLAG_C_FIXED_NEWSTYLE`.
    InvalidClientFlag,
    /// Server: an option did not start with the `IHAVEOPT` magic.
    InvalidOptMagic,
    /// Server: an option announced a payload larger than `MAX_OPT_LEN`.
    OptionTooLong,
    /// Server: the client sent an option code the server does not know.
    InvalidOptionType,
    /// Server: `NBD_OPT_LIST` arrived with a nonempty payload.
    ListWithContent,
    /// Server: the client aborted the negotiation with `NBD_OPT_ABORT`.
    ClientAbort,
    /// Server: the client asked for TLS, which is not supported.
    TlsNotSupported,
    /// Server: a request frame did not start with the request magic.
    InvalidRequestMagic,
    /// Server: a request carried an unknown command code.
    UnknownCommand,
    /// Server: the backing store ran out of data before a READ was served in full.
    SuddenEof,
    /// Client: the server's greeting did not start with `NBDMAGIC`.
    InvalidMagic1,
    /// Client: the second magic of the greeting was neither new-style nor old-style.
    InvalidMagic2,
    /// Client: the 124 padding bytes after the export block were not all zero.
    NonzeroPadding,
    /// Client: a named export was requested from an old-style server.
    OldstyleNamedExport,
    /// Client: a reply frame did not start with the reply magic.
    InvalidReplyMagic,
    /// Client: a reply echoed a handle other than 0.
    UnexpectedHandle,
    /// Client: a relative seek overflowed the 64-bit cursor.
    InvalidSeek,
    /// Client: a read or write was attempted with the cursor past the end of the device.
    PastEnd,
    /// Client: the peer answered a request with this nonzero NBD error code.
    Device(u32),
    /// Server: the backing store failed outside a request, with this code.
    Store(u32),
}

/// The categories a device error code decodes to at the client.
#[derive(Debug, Clone, Copy, PartialEq, Eq, Structural)]
pub enum DeviceErrorKind {
    /// Code 1, `EPERM`.
    PermissionDenied,
    /// Code 5, `EIO`.
    Io,
    /// Code 12, `ENOMEM`.
    OutOfMemory,
    /// Code 22, `EINVAL`.
    InvalidArgument,
    /// Code 28, `ENOSPC`.
    NoSpace,
    /// Any other nonzero code.
    Other,
}

/// The category a nonzero device error code belongs to.
pub open spec fn spec_device_error_kind(code: u32) -> DeviceErrorKind {
    if code == 1 {
        DeviceErrorKind::PermissionDenied
    } else if code == 5 {
        DeviceErrorKind::Io
    } else if code == 12 {
        DeviceErrorKind::OutOfMemory
    } else if code == 22 {
        DeviceErrorKind::InvalidArgument
    } else if code == 28 {
        DeviceErrorKind::NoSpace
    } else {
        DeviceErrorKind::Other
    }
}

/// Decode a nonzero error code from a reply into its category.
pub fn device_error_kind(code: u32) -> (r: DeviceErrorKind)
    ensures
        r == spec_device_error_kind(code),
{
    match code {
        1 => DeviceErrorKind::PermissionDenied,
        5 => DeviceErrorKind::Io,
        12 => DeviceErrorKind::OutOfMemory,
        22 => DeviceErrorKind::InvalidArgument,
        28 => DeviceErrorKind::NoSpace,
        _ => DeviceErrorKind::Other,
    }
}

} // verus!
