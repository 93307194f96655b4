//! Named constants of the NBD wire protocol.

use vstd::prelude::*;

verus! {

/// "NBDMAGIC" in ASCII, the first eight bytes a server sends.
pub const NBDMAGIC: u64 = 0x4E42444D41474943;
/// "IHAVEOPT" in ASCII: the new-style second magic, also the option magic.
pub const IHAVEOPT: u64 = 0x49484156454F5054;
/// The reserved second magic of the old-style server greeting.
pub const OLDSTYLE_MAGIC: u64 = 0x00420281861253;
/// Magic of a server's reply to an option during the handshake.
pub const OPT_REPLY_MAGIC: u64 = 0x3e889045565a9;
/// Magic of a request frame in the transmission phase.
pub const REQUEST_MAGIC: u32 = 0x25609513;
/// Magic of a simple reply frame in the transmission phase.
pub const REPLY_MAGIC: u32 = 0x67446698;

/// Option length cap: the server refuses larger option payloads.
pub const MAX_OPT_LEN: u32 = 100000;

pub const NBD_OPT_EXPORT_NAME: u32 = 1;
pub const NBD_OPT_ABORT: u32 = 2;
pub const NBD_OPT_LIST: u32 = 3;
pub const NBD_OPT_STARTTLS: u32 = 5;
pub const NBD_OPT_INFO: u32 = 6;
pub const NBD_OPT_GO: u32 = 7;

pub const NBD_REP_ACK: u32 = 1;
pub const NBD_REP_SERVER: u32 = 2;
pub const NBD_REP_INFO: u32 = 3;
pub const NBD_REP_FLAG_ERROR: u32 = 0x80000000;
pub const NBD_REP_ERR_UNSUP: u32 = 1 | 0x80000000;
pub const NBD_REP_ERR_POLICY: u32 = 2 | 0x80000000;
pub const NBD_REP_ERR_INVALID: u32 = 3 | 0x80000000;
pub const NBD_REP_ERR_PLATFORM: u32 = 4 | 0x80000000;
pub const NBD_REP_ERR_TLS_REQD: u32 = 5 | 0x80000000;
pub const NBD_REP_ERR_UNKNOWN: u32 = 6 | 0x80000000;
pub const NBD_REP_ERR_BLOCK_SIZE_REQD: u32 = 8 | 0x80000000;

pub const NBD_FLAG_FIXED_NEWSTYLE: u16 = 1;
pub const NBD_FLAG_NO_ZEROES: u16 = 2;

pub const NBD_FLAG_C_FIXED_NEWSTYLE: u32 = 1;
pub const NBD_FLAG_C_NO_ZEROES: u32 = 2;

pub const NBD_INFO_EXPORT: u16 = 0;
pub const NBD_INFO_NAME: u16 = 1;
pub const NBD_INFO_DESCRIPTION: u16 = 2;
pub const NBD_INFO_BLOCK_SIZE: u16 = 3;

pub const NBD_FLAG_HAS_FLAGS: u16 = 1;
pub const NBD_FLAG_READ_ONLY: u16 = 2;
pub const NBD_FLAG_SEND_FLUSH: u16 = 4;
pub const NBD_FLAG_SEND_FUA: u16 = 8;
pub const NBD_FLAG_ROTATIONAL: u16 = 16;
pub const NBD_FLAG_SEND_TRIM: u16 = 32;
pub const NBD_FLAG_SEND_WRITE_ZEROES: u16 = 64;
pub const NBD_FLAG_CAN_MULTI_CONN: u16 = 256;
pub const NBD_FLAG_SEND_RESIZE: u16 = 512;

pub const NBD_CMD_READ: u16 = 0;
pub const NBD_CMD_WRITE: u16 = 1;
pub const NBD_CMD_DISC: u16 = 2;
pub const NBD_CMD_FLUSH: u16 = 3;
pub const NBD_CMD_TRIM: u16 = 4;
pub const NBD_CMD_WRITE_ZEROES: u16 = 6;
pub const NBD_CMD_RESIZE: u16 = 8;

/// Recommended port for NBD servers, especially with new handshake format.
pub const DEFAULT_TCP_PORT: u16 = 10809;

/// The size of the scratch buffer the server streams READ/WRITE payloads through.
pub const COPY_CHUNK: usize = 65536;

} // verus!
