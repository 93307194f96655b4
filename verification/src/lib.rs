//! Client and server sides of the NBD (Network Block Device) wire protocol,
//! "new-style fixed" variant, over an in-memory byte-stream model.
//!
//! The transport is modelled by [`chan::Chan`], a pair of byte queues; an
//! application shuttles bytes between a real socket and the `Chan`. The
//! server's backing storage is any implementation of [`store::BlockStore`];
//! [`store::MemStore`] is a verified in-memory one.

use vstd::prelude::*;

pub mod consts;
pub mod error;
pub mod wire;
pub mod chan;
pub mod store;
pub mod server;
pub mod client;
pub mod laws;

verus! {

/// Information about an export (without name)
#[derive(Debug, Hash, Eq, PartialEq, Structural, Clone, Copy)]
pub struct Export {
    /// Size of the underlying data, in bytes
    pub size: u64,
    /// Tell client it's readonly
    pub readonly: bool,
    /// Tell that NBD_CMD_RESIZE should be supported
    pub resizeable: bool,
    /// Tell that the exposed device has slow seeks, hence clients should use elevator algorithm
    pub rotational: bool,
    /// Tell that NBD_CMD_TRIM operation is supported
    pub send_trim: bool,
    /// Tell that NBD_CMD_FLUSH may be sent
    pub send_flush: bool,
}

impl Default for Export {
    /// An export of size zero with every feature flag off.
    fn default() -> (r: Self)
        ensures
            r.size == 0,
            !r.readonly,
            !r.resizeable,
            !r.rotational,
            !r.send_trim,
            !r.send_flush,
    {
        Export {
            size: 0,
            readonly: false,
            resizeable: false,
            rotational: false,
            send_trim: false,
            send_flush: false,
        }
    }
}

} // verus!
