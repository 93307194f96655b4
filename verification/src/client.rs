//! The client side: negotiate an export, then present an ordered-access
//! surface (`seek`/`read`/`write`/`flush`, and the `trim`/`resize`
//! extensions) over one-request-at-a-time exchanges on the transport.

use vstd::prelude::*;

pub use crate::Export;

use crate::chan::Chan;
use crate::consts::{NBDMAGIC, IHAVEOPT, OLDSTYLE_MAGIC, REQUEST_MAGIC, REPLY_MAGIC,
    NBD_OPT_EXPORT_NAME, NBD_FLAG_C_FIXED_NEWSTYLE, NBD_FLAG_HAS_FLAGS, NBD_FLAG_READ_ONLY,
    NBD_FLAG_SEND_FLUSH, NBD_FLAG_SEND_RESIZE, NBD_FLAG_ROTATIONAL, NBD_FLAG_SEND_TRIM,
    NBD_CMD_READ, NBD_CMD_WRITE, NBD_CMD_FLUSH, NBD_CMD_TRIM, NBD_CMD_RESIZE};
use crate::error::NbdError;
use crate::wire::{be16, be32, be64, u16_bytes, u32_bytes, u64_bytes, zeros};
use vstd::slice::slice_subrange;

verus! {

/// Where a seek is measured from, mirroring the ordinary file surface.
#[derive(Debug, Clone, Copy, PartialEq, Eq, Structural)]
pub enum SeekFrom {
    /// An absolute offset.
    Start(u64),
    /// Relative to the current cursor.
    Current(i64),
    /// Relative to the end of the device.
    End(i64),
}

/// The export an advertised flag word describes, starting from `e`: each set
/// feature bit switches its field on; without `HAS_FLAGS` nothing is read.
pub open spec fn fill_flags_spec(e: Export, flags: u16) -> Export {
    if flags & NBD_FLAG_HAS_FLAGS != 0 {
        Export {
            size: e.size,
            readonly: e.readonly || flags & NBD_FLAG_READ_ONLY != 0,
            resizeable: e.resizeable || flags & NBD_FLAG_SEND_RESIZE != 0,
            rotational: e.rotational || flags & NBD_FLAG_ROTATIONAL != 0,
            send_trim: e.send_trim || flags & NBD_FLAG_SEND_TRIM != 0,
            send_flush: e.send_flush || flags & NBD_FLAG_SEND_FLUSH != 0,
        }
    } else {
        e
    }
}

/// An export freshly decoded from a size and a flag word.
pub open spec fn export_from(size: u64, flags: u16) -> Export {
    fill_flags_spec(
        Export {
            size,
            readonly: false,
            resizeable: false,
            rotational: false,
            send_trim: false,
            send_flush: false,
        },
        flags,
    )
}

/// Switch on the export features an advertised flag word names.
pub fn fill_in_flags(export: &mut Export, flags: u16)
    ensures
        *final(export) == fill_flags_spec(*old(export), flags),
{
    if flags & NBD_FLAG_HAS_FLAGS != 0 {
        if flags & NBD_FLAG_READ_ONLY != 0 {
            export.readonly = true;
        }
        if flags & NBD_FLAG_SEND_RESIZE != 0 {
            export.resizeable = true;
        }
        if flags & NBD_FLAG_ROTATIONAL != 0 {
            export.rotational = true;
        }
        if flags & NBD_FLAG_SEND_TRIM != 0 {
            export.send_trim = true;
        }
        if flags & NBD_FLAG_SEND_FLUSH != 0 {
            export.send_flush = true;
        }
    }
}

/// Everything the client sends during a new-style handshake: its flags, the
/// option magic, `EXPORT_NAME`, the name length, the name.
pub open spec fn client_hello_bytes(name: Seq<u8>) -> Seq<u8> {
    u32_bytes(NBD_FLAG_C_FIXED_NEWSTYLE) + u64_bytes(IHAVEOPT) + u32_bytes(NBD_OPT_EXPORT_NAME)
        + u32_bytes(name.len() as u32) + name
}

/// A new-style server greeting the client accepts: both magics, then (after
/// the two ignored handshake-flag bytes) size, flags, and 124 zero bytes.
pub open spec fn newstyle_ok(inc: Seq<u8>) -> bool {
    &&& inc.len() >= 152
    &&& be64(inc.subrange(0, 8)) == NBDMAGIC
    &&& be64(inc.subrange(8, 16)) == IHAVEOPT
    &&& inc.subrange(28, 152) == zeros(124)
}

/// An old-style server greeting the client accepts: the name must be empty,
/// and size, 32-bit flags and the 124 zero bytes follow the magics directly.
pub open spec fn oldstyle_ok(inc: Seq<u8>, name: Seq<u8>) -> bool {
    &&& inc.len() >= 152
    &&& be64(inc.subrange(0, 8)) == NBDMAGIC
    &&& be64(inc.subrange(8, 16)) == OLDSTYLE_MAGIC
    &&& name.len() == 0
    &&& inc.subrange(28, 152) == zeros(124)
}

/// Whether the greeting goes far enough down the new-style path that the
/// client has sent its hello: both magics plus the two handshake-flag bytes.
/// The hello goes out before the rest of the greeting is read, so it is on
/// the wire even when that rest turns out short or malformed.
pub open spec fn newstyle_started(inc: Seq<u8>) -> bool {
    &&& inc.len() >= 18
    &&& be64(inc.subrange(0, 8)) == NBDMAGIC
    &&& be64(inc.subrange(8, 16)) == IHAVEOPT
}

/// The error a rejected greeting produces, in the order the checks run.
/// Meaningful only when neither [`newstyle_ok`] nor [`oldstyle_ok`] holds;
/// on an accepted greeting it falls through to an arbitrary branch.
pub open spec fn client_hs_error(inc: Seq<u8>, name: Seq<u8>) -> NbdError {
    if inc.len() < 8 {
        NbdError::ShortRead
    } else if be64(inc.subrange(0, 8)) != NBDMAGIC {
        NbdError::InvalidMagic1
    } else if inc.len() < 16 {
        NbdError::ShortRead
    } else if be64(inc.subrange(8, 16)) == IHAVEOPT {
        if inc.len() < 152 {
            NbdError::ShortRead
        } else {
            NbdError::NonzeroPadding
        }
    } else if be64(inc.subrange(8, 16)) == OLDSTYLE_MAGIC {
        if name.len() != 0 {
            NbdError::OldstyleNamedExport
        } else if inc.len() < 152 {
            NbdError::ShortRead
        } else {
            NbdError::NonzeroPadding
        }
    } else {
        NbdError::InvalidMagic2
    }
}

/// Negotiate with a server, use before creating the actual client.
///
/// Succeeds exactly on the server byte sequences [`newstyle_ok`] or
/// [`oldstyle_ok`] accepts, consuming 152 of them, and fails with exactly
/// the error [`client_hs_error`] names otherwise. The hello goes out
/// exactly when the greeting opens new-style ([`newstyle_started`]), even
/// when its remainder then turns out short or malformed; on every other
/// path nothing is sent.
pub fn handshake(c: &mut Chan, name: &[u8]) -> (r: Result<Export, NbdError>)
    requires
        name@.len() <= 0xFFFF_FFFF,
    ensures
        newstyle_started(old(c).incoming()) ==> final(c).outgoing() == old(c).outgoing()
            + client_hello_bytes(name@),
        !newstyle_started(old(c).incoming()) ==> final(c).outgoing() == old(c).outgoing(),
        r is Ok <==> newstyle_ok(old(c).incoming()) || oldstyle_ok(old(c).incoming(), name@),
        r is Err ==> r == Result::<Export, NbdError>::Err(
            client_hs_error(old(c).incoming(), name@),
        ),
        r is Ok ==> ({
            let inc = old(c).incoming();
            &&& final(c).incoming() == inc.skip(152)
            &&& (newstyle_ok(inc) ==> r.unwrap() == export_from(
                be64(inc.subrange(18, 26)),
                be16(inc.subrange(26, 28)),
            ) && final(c).outgoing() == old(c).outgoing() + client_hello_bytes(name@))
            &&& (!newstyle_ok(inc) ==> r.unwrap() == export_from(
                be64(inc.subrange(16, 24)),
                be32(inc.subrange(24, 28)) as u16,
            ) && final(c).outgoing() == old(c).outgoing())
        }),
{
    broadcast use crate::wire::lemma_concat_prefix, crate::wire::lemma_take_all;

    let ghost inc0 = old(c).incoming();
    let ghost out0 = old(c).outgoing();

    let magic1 = match c.read_u64() {
        Ok(x) => x,
        Err(err) => {
            return Err(err);
        },
    };
    proof {
        assert(inc0.subrange(0, 8) =~= inc0.take(8));
    }
    if magic1 != NBDMAGIC {
        return Err(NbdError::InvalidMagic1);
    }
    let magic2 = match c.read_u64() {
        Ok(x) => x,
        Err(err) => {
            return Err(err);
        },
    };
    proof {
        assert(inc0.subrange(8, 16) =~= inc0.skip(8).take(8));
    }

    let (size, flags): (u64, u16) = if magic2 == IHAVEOPT {
        // newstyle
        let _hs_flags = match c.read_u16() {
            Ok(x) => x,
            Err(err) => {
                return Err(err);
            },
        };
        c.write_u32(NBD_FLAG_C_FIXED_NEWSTYLE);
        c.write_u64(IHAVEOPT);
        c.write_u32(NBD_OPT_EXPORT_NAME);
        c.write_u32(name.len() as u32);
        c.write_bytes(name);
        c.flush();
        proof {
            assert(c.outgoing() =~= out0 + client_hello_bytes(name@));
        }

        let size = match c.read_u64() {
            Ok(x) => x,
            Err(err) => {
                return Err(err);
            },
        };
        proof {
            assert(inc0.subrange(18, 26) =~= inc0.skip(8).skip(8).skip(2).take(8));
        }
        let flags = match c.read_u16() {
            Ok(x) => x,
            Err(err) => {
                return Err(err);
            },
        };
        proof {
            assert(inc0.subrange(26, 28) =~= inc0.skip(8).skip(8).skip(2).skip(8).take(2));
        }
        let z = match c.read_bytes(124) {
            Ok(v) => v,
            Err(err) => {
                return Err(err);
            },
        };
        proof {
            assert(z@ =~= inc0.subrange(28, 152));
            assert(c.incoming() =~= inc0.skip(152));
        }
        if !all_zero(z.as_slice()) {
            return Err(NbdError::NonzeroPadding);
        }
        proof {
            assert(inc0.subrange(28, 152) =~= zeros(124));
        }
        (size, flags)
    } else if magic2 == OLDSTYLE_MAGIC {
        // oldstyle; not produced by this crate's server and untested against
        // real old-style servers
        if name.len() != 0 {
            return Err(NbdError::OldstyleNamedExport);
        }
        let size = match c.read_u64() {
            Ok(x) => x,
            Err(err) => {
                return Err(err);
            },
        };
        proof {
            assert(inc0.subrange(16, 24) =~= inc0.skip(8).skip(8).take(8));
        }
        let flags32 = match c.read_u32() {
            Ok(x) => x,
            Err(err) => {
                return Err(err);
            },
        };
        proof {
            assert(inc0.subrange(24, 28) =~= inc0.skip(8).skip(8).skip(8).take(4));
        }
        let z = match c.read_bytes(124) {
            Ok(v) => v,
            Err(err) => {
                return Err(err);
            },
        };
        proof {
            assert(z@ =~= inc0.subrange(28, 152));
            assert(c.incoming() =~= inc0.skip(152));
        }
        if !all_zero(z.as_slice()) {
            return Err(NbdError::NonzeroPadding);
        }
        proof {
            assert(inc0.subrange(28, 152) =~= zeros(124));
        }
        let flags = flags32 as u16;
        (size, flags)
    } else {
        return Err(NbdError::InvalidMagic2);
    };

    let mut e = Export::default();
    e.size = size;
    fill_in_flags(&mut e, flags);
    Ok(e)
}

/// Whether every byte of `b` is zero.
fn all_zero(b: &[u8]) -> (r: bool)
    ensures
        r <==> b@ == zeros(b@.len()),
{
    let mut i: usize = 0;
    while i < b.len()
        invariant
            i <= b@.len(),
            forall|j: int| 0 <= j < i ==> b@[j] == 0u8,
        decreases b@.len() - i,
    {
        if b[i] != 0 {
            proof {
                assert(b@[i as int] != 0u8);
                assert(zeros(b@.len())[i as int] == 0u8);
            }
            return false;
        }
        i = i + 1;
    }
    proof {
        assert(b@ =~= zeros(b@.len()));
    }
    true
}

/// `a + b` over a 64-bit unsigned cursor and a signed displacement, `None`
/// when the sum leaves `[0, u64::MAX]` (or when `b` is `i64::MIN`, the one
/// displacement that cannot be negated).
pub fn checked_add_i64(a: u64, b: i64) -> (r: Option<u64>)
    ensures
        r is Some <==> (0 <= a + b <= u64::MAX && b != i64::MIN),
        r is Some ==> r == Some((a + b) as u64),
{
    if b >= 0 {
        let ub = b as u64;
        if a > u64::MAX - ub {
            None
        } else {
            Some(a + ub)
        }
    } else if b == i64::MIN {
        None
    } else {
        let ub = (-b) as u64;
        if a < ub {
            None
        } else {
            Some(a - ub)
        }
    }
}

/// `x` clamped to what fits in 32 bits.
fn clamp_u64_to_u32(x: u64) -> (r: u32)
    ensures
        r == if x > 0xFFFF_FFFF {
            0xFFFF_FFFFu32
        } else {
            x as u32
        },
{
    if x > 0xFFFF_FFFF {
        0xFFFF_FFFF
    } else {
        x as u32
    }
}

/// `x` clamped to what fits in 32 bits.
fn clamp_usize_to_u32(x: usize) -> (r: u32)
    ensures
        r == if x > 0xFFFF_FFFF {
            0xFFFF_FFFFu32
        } else {
            x as u32
        },
{
    if x as u64 > 0xFFFF_FFFF {
        0xFFFF_FFFF
    } else {
        x as u32
    }
}

/// How many bytes one read or write at cursor `pos` moves, for `pos <= size`:
/// the buffer length, the bytes left on the device, and `u32::MAX`, whichever
/// is least.
pub open spec fn effective_len(pos: u64, size: u64, buflen: int) -> u32 {
    let maxlen: u32 = if size - pos > 0xFFFF_FFFF {
        0xFFFF_FFFFu32
    } else {
        (size - pos) as u32
    };
    let bl: u32 = if buflen > 0xFFFF_FFFF {
        0xFFFF_FFFFu32
    } else {
        buflen as u32
    };
    if bl < maxlen {
        bl
    } else {
        maxlen
    }
}

/// A request frame as this client sends it: fixed `flags = 0`, `handle = 0`.
pub open spec fn request_bytes(cmd: u16, offset: u64, len: u32) -> Seq<u8> {
    u32_bytes(REQUEST_MAGIC) + u16_bytes(0) + u16_bytes(cmd) + u64_bytes(0) + u64_bytes(offset)
        + u32_bytes(len)
}

/// A simple reply the client accepts: reply magic, error code 0, handle 0.
pub open spec fn reply_ok(inc: Seq<u8>) -> bool {
    &&& inc.len() >= 16
    &&& be32(inc.subrange(0, 4)) == REPLY_MAGIC
    &&& be32(inc.subrange(4, 8)) == 0
    &&& be64(inc.subrange(8, 16)) == 0
}

/// The error a reply the client does not accept produces, in the order the
/// checks run: too short, wrong magic, foreign handle, then the peer's
/// nonzero code as the device error carrying it.
pub open spec fn reply_error_of(inc: Seq<u8>) -> NbdError {
    if inc.len() < 16 {
        NbdError::ShortRead
    } else if be32(inc.subrange(0, 4)) != REPLY_MAGIC {
        NbdError::InvalidReplyMagic
    } else if be64(inc.subrange(8, 16)) != 0 {
        NbdError::UnexpectedHandle
    } else {
        NbdError::Device(be32(inc.subrange(4, 8)))
    }
}

/// Send one request frame with `flags = 0` and `handle = 0`.
pub fn sendrequest(c: &mut Chan, cmd: u16, offset: u64, len: u32) -> (r: Result<(), NbdError>)
    ensures
        r is Ok,
        final(c).outgoing() == old(c).outgoing() + request_bytes(cmd, offset, len),
        final(c).incoming() == old(c).incoming(),
{
    c.write_u32(REQUEST_MAGIC);
    c.write_u16(0);
    c.write_u16(cmd);
    c.write_u64(0);
    c.write_u64(offset);
    c.write_u32(len);
    c.flush();
    proof {
        assert(c.outgoing() =~= old(c).outgoing() + request_bytes(cmd, offset, len));
    }
    Ok(())
}

/// Decode the error code of a reply: 0 is success, anything else a device
/// error carrying the code.
pub fn check_err(error: u32) -> (r: Result<(), NbdError>)
    ensures
        r is Ok <==> error == 0,
        error == 0 ==> r == Result::<(), NbdError>::Ok(()),
        r is Err ==> r == Result::<(), NbdError>::Err(NbdError::Device(error)),
{
    if error == 0 {
        Ok(())
    } else {
        Err(NbdError::Device(error))
    }
}

/// Consume one simple reply frame and check magic, handle and error code.
/// Succeeds exactly on [`reply_ok`] frames, fails with exactly
/// [`reply_error_of`] otherwise; 16 bytes are consumed whenever that many
/// were available.
pub fn getreply(c: &mut Chan) -> (r: Result<(), NbdError>)
    ensures
        final(c).outgoing() == old(c).outgoing(),
        r is Ok <==> reply_ok(old(c).incoming()),
        r is Err ==> r == Result::<(), NbdError>::Err(reply_error_of(old(c).incoming())),
        old(c).incoming().len() >= 16 ==> final(c).incoming() == old(c).incoming().skip(16),
{
    let ghost inc0 = old(c).incoming();
    let signature = match c.read_u32() {
        Ok(x) => x,
        Err(err) => {
            return Err(err);
        },
    };
    let error = match c.read_u32() {
        Ok(x) => x,
        Err(err) => {
            return Err(err);
        },
    };
    let handle = match c.read_u64() {
        Ok(x) => x,
        Err(err) => {
            return Err(err);
        },
    };
    proof {
        assert(inc0.subrange(0, 4) =~= inc0.take(4));
        assert(inc0.subrange(4, 8) =~= inc0.skip(4).take(4));
        assert(inc0.subrange(8, 16) =~= inc0.skip(4).skip(4).take(8));
        assert(c.incoming() =~= inc0.skip(16));
    }
    if signature != REPLY_MAGIC {
        return Err(NbdError::InvalidReplyMagic);
    }
    if handle != 0 {
        return Err(NbdError::UnexpectedHandle);
    }
    check_err(error)?;
    Ok(())
}

/// Represents an NBD client session: the owned transport, the negotiated
/// size, and the logical cursor. Use `seek`, `read`, `write` and `flush`,
/// block-aligned where the server demands it.
pub struct NbdClient {
    c: Chan,
    seek_pos: u64,
    size: u64,
}

impl NbdClient {
    /// The logical cursor.
    pub closed spec fn cursor(self) -> u64 {
        self.seek_pos
    }

    /// The size of the device as this session believes it.
    pub closed spec fn device_size(self) -> u64 {
        self.size
    }

    /// The bytes from the server not consumed yet.
    pub closed spec fn incoming(self) -> Seq<u8> {
        self.c.incoming()
    }

    /// The bytes sent to the server so far.
    pub closed spec fn outgoing(self) -> Seq<u8> {
        self.c.outgoing()
    }

    /// Create a new NbdClient from the `Export` returned from `handshake`.
    /// The connection should of course be the same one `handshake` ran on.
    pub fn new(c: Chan, export: &Export) -> (r: Self)
        ensures
            r.cursor() == 0,
            r.device_size() == export.size,
            r.incoming() == c.incoming(),
            r.outgoing() == c.outgoing(),
    {
        NbdClient { c, seek_pos: 0, size: export.size }
    }

    /// Hand bytes that arrived from the server to the session.
    pub fn feed(&mut self, more: &[u8])
        ensures
            final(self).incoming() == old(self).incoming() + more@,
            final(self).outgoing() == old(self).outgoing(),
            final(self).cursor() == old(self).cursor(),
            final(self).device_size() == old(self).device_size(),
    {
        self.c.feed(more);
    }

    /// Take the bytes the session wants delivered to the server.
    pub fn take_outgoing(&mut self) -> (r: Vec<u8>)
        ensures
            r@ == old(self).outgoing(),
            final(self).outgoing() == Seq::<u8>::empty(),
            final(self).incoming() == old(self).incoming(),
            final(self).cursor() == old(self).cursor(),
            final(self).device_size() == old(self).device_size(),
    {
        self.c.take_outgoing()
    }

    /// Move the logical cursor. `Start` sets it; `Current` and `End` apply a
    /// signed displacement and fail on overflow, leaving the cursor alone.
    /// Seeking past the end is legal; only a later read or write minds.
    pub fn seek(&mut self, sf: SeekFrom) -> (r: Result<u64, NbdError>)
        ensures
            final(self).device_size() == old(self).device_size(),
            final(self).incoming() == old(self).incoming(),
            final(self).outgoing() == old(self).outgoing(),
            match sf {
                SeekFrom::Start(x) => r == Result::<u64, NbdError>::Ok(x) && final(self).cursor()
                    == x,
                SeekFrom::Current(x) => {
                    if 0 <= old(self).cursor() + x <= u64::MAX && x != i64::MIN {
                        &&& final(self).cursor() == old(self).cursor() + x
                        &&& r == Result::<u64, NbdError>::Ok((old(self).cursor() + x) as u64)
                    } else {
                        &&& final(self).cursor() == old(self).cursor()
                        &&& r == Result::<u64, NbdError>::Err(NbdError::InvalidSeek)
                    }
                },
                SeekFrom::End(x) => {
                    if 0 <= old(self).device_size() + x <= u64::MAX && x != i64::MIN {
                        &&& final(self).cursor() == old(self).device_size() + x
                        &&& r == Result::<u64, NbdError>::Ok(
                            (old(self).device_size() + x) as u64,
                        )
                    } else {
                        &&& final(self).cursor() == old(self).cursor()
                        &&& r == Result::<u64, NbdError>::Err(NbdError::InvalidSeek)
                    }
                },
            },
    {
        match sf {
            SeekFrom::Start(x) => {
                self.seek_pos = x;
            },
            SeekFrom::Current(x) => {
                match checked_add_i64(self.seek_pos, x) {
                    Some(xx) => {
                        self.seek_pos = xx;
                    },
                    None => {
                        return Err(NbdError::InvalidSeek);
                    },
                }
            },
            SeekFrom::End(x) => {
                match checked_add_i64(self.size, x) {
                    Some(xx) => {
                        self.seek_pos = xx;
                    },
                    None => {
                        return Err(NbdError::InvalidSeek);
                    },
                }
            },
        }
        Ok(self.seek_pos)
    }

    /// How many bytes the next read or write of a `buflen`-byte buffer will
    /// move; an error when the cursor is past the end of the device.
    pub fn get_effective_len(&self, buflen: usize) -> (r: Result<u32, NbdError>)
        ensures
            r is Ok <==> self.cursor() <= self.device_size(),
            r is Ok ==> r.unwrap() == effective_len(
                self.cursor(),
                self.device_size(),
                buflen as int,
            ),
            r is Err ==> r == Result::<u32, NbdError>::Err(NbdError::PastEnd),
    {
        if self.seek_pos == self.size {
            return Ok(0);
        }
        if self.seek_pos > self.size {
            return Err(NbdError::PastEnd);
        }
        let maxlen = clamp_u64_to_u32(self.size - self.seek_pos);
        let bl = clamp_usize_to_u32(buflen);
        let len = if bl < maxlen {
            bl
        } else {
            maxlen
        };
        Ok(len)
    }
}


impl NbdClient {
    /// Send one READ request for the current cursor and a `buflen`-byte
    /// buffer, without waiting for the reply: the sending half of [`read`],
    /// for callers that must carry the reply bytes over a transport in
    /// between. Returns how many bytes the request asks for; zero means
    /// nothing was sent.
    ///
    /// [`read`]: NbdClient::read
    pub fn read_begin(&mut self, buflen: usize) -> (r: Result<u32, NbdError>)
        ensures
            final(self).device_size() == old(self).device_size(),
            final(self).cursor() == old(self).cursor(),
            final(self).incoming() == old(self).incoming(),
            r is Ok <==> old(self).cursor() <= old(self).device_size(),
            r is Err ==> r == Result::<u32, NbdError>::Err(NbdError::PastEnd)
                && final(self).outgoing() == old(self).outgoing(),
            r is Ok ==> ({
                let n = effective_len(old(self).cursor(), old(self).device_size(), buflen as int);
                &&& r.unwrap() == n
                &&& n > 0 ==> final(self).outgoing() == old(self).outgoing() + request_bytes(
                    NBD_CMD_READ,
                    old(self).cursor(),
                    n,
                )
                &&& n == 0 ==> final(self).outgoing() == old(self).outgoing()
            }),
    {
        let len = match self.get_effective_len(buflen) {
            Ok(l) => l,
            Err(err) => {
                return Err(err);
            },
        };
        if len == 0 {
            return Ok(0);
        }
        let _ = sendrequest(&mut self.c, NBD_CMD_READ, self.seek_pos, len);
        Ok(len)
    }

    /// Consume the reply to a READ of `n` bytes and copy the payload into
    /// the front of `buf`: the receiving half of [`read`]. On any error the
    /// cursor and `buf` are untouched.
    ///
    /// [`read`]: NbdClient::read
    pub fn read_finish(&mut self, buf: &mut Vec<u8>, n: u32) -> (r: Result<usize, NbdError>)
        requires
            n <= old(buf)@.len(),
            old(self).cursor() + n <= u64::MAX,
        ensures
            final(self).device_size() == old(self).device_size(),
            final(self).outgoing() == old(self).outgoing(),
            final(buf)@.len() == old(buf)@.len(),
            ({
                let inc = old(self).incoming();
                &&& (r is Ok <==> reply_ok(inc) && inc.len() >= 16 + n)
                &&& (r is Ok ==> {
                    &&& r.unwrap() == n
                    &&& final(self).cursor() == old(self).cursor() + n
                    &&& final(self).incoming() == inc.skip(16 + n)
                    &&& final(buf)@ == inc.subrange(16, 16 + n) + old(buf)@.skip(n as int)
                })
                &&& (!reply_ok(inc) ==> r == Result::<usize, NbdError>::Err(reply_error_of(inc)))
                &&& (reply_ok(inc) && inc.len() < 16 + n ==> r == Result::<usize, NbdError>::Err(
                    NbdError::ShortRead,
                ))
                &&& (r is Err && inc.len() >= 16 ==> final(self).incoming() == inc.skip(16))
                &&& (r is Err ==> final(self).cursor() == old(self).cursor()
                    && final(buf)@ == old(buf)@)
            }),
    {
        match getreply(&mut self.c) {
            Ok(()) => (),
            Err(err) => {
                return Err(err);
            },
        }
        let nu = n as usize;
        let v = match self.c.read_bytes(nu) {
            Ok(v) => v,
            Err(err) => {
                return Err(err);
            },
        };
        let ghost bufpre = buf@;
        let mut i: usize = 0;
        while i < nu
            invariant
                i <= nu,
                nu <= buf@.len(),
                v@.len() == nu,
                buf@.len() == bufpre.len(),
                forall|j: int| 0 <= j < i ==> buf@[j] == v@[j],
                forall|j: int| i <= j < buf@.len() ==> buf@[j] == bufpre[j],
            decreases nu - i,
        {
            let b = v[i];
            buf.set(i, b);
            i = i + 1;
        }
        proof {
            let inc = old(self).incoming();
            assert(v@ =~= inc.subrange(16, 16 + n));
            assert(buf@ =~= inc.subrange(16, 16 + n) + bufpre.skip(n as int));
        }
        self.seek_pos = self.seek_pos + n as u64;
        Ok(nu)
    }

    /// Read into the front of `buf` at the cursor: send one READ request for
    /// [`effective_len`] bytes, consume one reply and the payload, advance
    /// the cursor. Zero bytes move at the end of the device; a cursor past
    /// the end is an error. On any error the cursor and `buf` are untouched.
    pub fn read(&mut self, buf: &mut Vec<u8>) -> (r: Result<usize, NbdError>)
        ensures
            final(self).device_size() == old(self).device_size(),
            final(self).outgoing().len() >= old(self).outgoing().len(),
            final(self).outgoing().take(old(self).outgoing().len() as int) == old(self).outgoing(),
            final(buf)@.len() == old(buf)@.len(),
            ({
                let pos = old(self).cursor();
                let size = old(self).device_size();
                let inc = old(self).incoming();
                let n = effective_len(pos, size, old(buf)@.len() as int) as int;
                &&& (r is Ok <==> pos <= size && (n == 0 || (reply_ok(inc) && inc.len() >= 16
                    + n)))
                &&& (pos > size ==> r == Result::<usize, NbdError>::Err(NbdError::PastEnd)
                    && final(self).outgoing() == old(self).outgoing() && final(self).incoming()
                    == inc)
                &&& (pos <= size && n > 0 && !reply_ok(inc) ==> r == Result::<
                    usize,
                    NbdError,
                >::Err(reply_error_of(inc)))
                &&& (pos <= size && n > 0 && reply_ok(inc) && inc.len() < 16 + n ==> r
                    == Result::<usize, NbdError>::Err(NbdError::ShortRead))
                &&& (r is Err && pos <= size && inc.len() >= 16 ==> final(self).incoming()
                    == inc.skip(16))
                &&& (r is Ok ==> if n == 0 {
                    &&& r.unwrap() == 0
                    &&& final(self).cursor() == pos
                    &&& final(self).incoming() == inc
                    &&& final(self).outgoing() == old(self).outgoing()
                    &&& final(buf)@ == old(buf)@
                } else {
                    &&& r.unwrap() == n
                    &&& final(self).cursor() == pos + n
                    &&& final(self).outgoing() == old(self).outgoing() + request_bytes(
                        NBD_CMD_READ,
                        pos,
                        n as u32,
                    )
                    &&& final(self).incoming() == inc.skip(16 + n)
                    &&& final(buf)@ == inc.subrange(16, 16 + n) + old(buf)@.skip(n)
                })
                &&& (r is Err ==> final(self).cursor() == pos && final(buf)@ == old(buf)@)
            }),
    {
        broadcast use crate::wire::lemma_concat_prefix, crate::wire::lemma_take_all;

        let len = match self.read_begin(buf.len()) {
            Ok(l) => l,
            Err(err) => {
                return Err(err);
            },
        };
        if len == 0 {
            return Ok(0);
        }
        self.read_finish(buf, len)
    }

    /// Write from the front of `buf` at the cursor: send one WRITE request
    /// with [`effective_len`] payload bytes, consume one reply, advance the
    /// cursor. Zero bytes move at the end of the device; a cursor past the
    /// end is an error. On any error the cursor is untouched.
    pub fn write(&mut self, buf: &[u8]) -> (r: Result<usize, NbdError>)
        ensures
            final(self).device_size() == old(self).device_size(),
            final(self).outgoing().len() >= old(self).outgoing().len(),
            final(self).outgoing().take(old(self).outgoing().len() as int) == old(self).outgoing(),
            ({
                let pos = old(self).cursor();
                let size = old(self).device_size();
                let inc = old(self).incoming();
                let n = effective_len(pos, size, buf@.len() as int) as int;
                &&& (r is Ok <==> pos <= size && (n == 0 || reply_ok(inc)))
                &&& (r is Ok ==> if n == 0 {
                    &&& r.unwrap() == 0
                    &&& final(self).cursor() == pos
                    &&& final(self).incoming() == inc
                    &&& final(self).outgoing() == old(self).outgoing()
                } else {
                    &&& r.unwrap() == n
                    &&& final(self).cursor() == pos + n
                    &&& final(self).outgoing() == old(self).outgoing() + request_bytes(
                        NBD_CMD_WRITE,
                        pos,
                        n as u32,
                    ) + buf@.take(n)
                    &&& final(self).incoming() == inc.skip(16)
                })
                &&& (pos > size ==> r == Result::<usize, NbdError>::Err(NbdError::PastEnd)
                    && final(self).outgoing() == old(self).outgoing() && final(self).incoming()
                    == inc)
                &&& (pos <= size && n > 0 && !reply_ok(inc) ==> r == Result::<
                    usize,
                    NbdError,
                >::Err(reply_error_of(inc)))
                &&& (r is Err && pos <= size && inc.len() >= 16 ==> final(self).incoming()
                    == inc.skip(16))
                &&& (r is Err ==> final(self).cursor() == pos)
            }),
    {
        broadcast use crate::wire::lemma_concat_prefix, crate::wire::lemma_take_all;

        let len = match self.get_effective_len(buf.len()) {
            Ok(l) => l,
            Err(err) => {
                return Err(err);
            },
        };
        if len == 0 {
            return Ok(0);
        }
        let n = len as usize;
        let _ = sendrequest(&mut self.c, NBD_CMD_WRITE, self.seek_pos, len);
        let payload = slice_subrange(buf, 0, n);
        self.c.write_bytes(payload);
        self.c.flush();
        proof {
            assert(buf@.subrange(0, n as int) =~= buf@.take(n as int));
            assert(self.c.outgoing() =~= old(self).outgoing() + request_bytes(
                NBD_CMD_WRITE,
                old(self).cursor(),
                len,
            ) + buf@.take(n as int));
        }
        match getreply(&mut self.c) {
            Ok(()) => (),
            Err(err) => {
                return Err(err);
            },
        }
        self.seek_pos = self.seek_pos + len as u64;
        Ok(n)
    }

    /// Ask the server to flush its backing store: send one FLUSH request and
    /// consume one reply. The cursor does not move.
    pub fn flush(&mut self) -> (r: Result<(), NbdError>)
        ensures
            final(self).device_size() == old(self).device_size(),
            final(self).cursor() == old(self).cursor(),
            final(self).outgoing() == old(self).outgoing() + request_bytes(NBD_CMD_FLUSH, 0, 0),
            r is Ok <==> reply_ok(old(self).incoming()),
            r is Err ==> r == Result::<(), NbdError>::Err(reply_error_of(old(self).incoming())),
            old(self).incoming().len() >= 16 ==> final(self).incoming() == old(
                self,
            ).incoming().skip(16),
    {
        let _ = sendrequest(&mut self.c, NBD_CMD_FLUSH, 0, 0);
        match getreply(&mut self.c) {
            Ok(()) => (),
            Err(err) => {
                return Err(err);
            },
        }
        Ok(())
    }
}

/// Additional operations (apart from reading and writing) supported by NBD
/// extensions.
pub trait NbdExt {
    /// Discard the data from the current seek offset up to the given length.
    fn trim(&mut self, length: usize) -> Result<(), NbdError>;

    /// Change the size of the device.
    fn resize(&mut self, newsize: u64) -> Result<(), NbdError>;
}

impl NbdExt for NbdClient {
    /// Send one TRIM request for [`effective_len`] bytes at the cursor and
    /// consume one reply. The cursor does not move; zero effective bytes
    /// make it a no-op.
    fn trim(&mut self, length: usize) -> (r: Result<(), NbdError>)
        ensures
            final(self).device_size() == old(self).device_size(),
            final(self).cursor() == old(self).cursor(),
            final(self).outgoing().len() >= old(self).outgoing().len(),
            final(self).outgoing().take(old(self).outgoing().len() as int) == old(self).outgoing(),
            ({
                let pos = old(self).cursor();
                let size = old(self).device_size();
                let inc = old(self).incoming();
                let n = effective_len(pos, size, length as int) as int;
                &&& (r is Ok <==> pos <= size && (n == 0 || reply_ok(inc)))
                &&& (r is Ok ==> if n == 0 {
                    final(self).incoming() == inc && final(self).outgoing() == old(self).outgoing()
                } else {
                    final(self).outgoing() == old(self).outgoing() + request_bytes(
                        NBD_CMD_TRIM,
                        pos,
                        n as u32,
                    ) && final(self).incoming() == inc.skip(16)
                })
                &&& (pos > size ==> r == Result::<(), NbdError>::Err(NbdError::PastEnd)
                    && final(self).outgoing() == old(self).outgoing() && final(self).incoming()
                    == inc)
                &&& (pos <= size && n > 0 && !reply_ok(inc) ==> r == Result::<(), NbdError>::Err(
                    reply_error_of(inc),
                ))
                &&& (r is Err && pos <= size && inc.len() >= 16 ==> final(self).incoming()
                    == inc.skip(16))
            }),
    {
        broadcast use crate::wire::lemma_concat_prefix, crate::wire::lemma_take_all;

        let len = match self.get_effective_len(length) {
            Ok(l) => l,
            Err(err) => {
                return Err(err);
            },
        };
        if len == 0 {
            return Ok(());
        }
        let _ = sendrequest(&mut self.c, NBD_CMD_TRIM, self.seek_pos, len);
        match getreply(&mut self.c) {
            Ok(()) => (),
            Err(err) => {
                return Err(err);
            },
        }
        Ok(())
    }

    /// Send one RESIZE request carrying the new size in the offset field and
    /// consume one reply; on success the session adopts the new size.
    fn resize(&mut self, newsize: u64) -> (r: Result<(), NbdError>)
        ensures
            final(self).cursor() == old(self).cursor(),
            final(self).outgoing() == old(self).outgoing() + request_bytes(
                NBD_CMD_RESIZE,
                newsize,
                0,
            ),
            r is Ok <==> reply_ok(old(self).incoming()),
            r is Err ==> r == Result::<(), NbdError>::Err(reply_error_of(old(self).incoming())),
            old(self).incoming().len() >= 16 ==> final(self).incoming() == old(
                self,
            ).incoming().skip(16),
            r is Ok ==> final(self).device_size() == newsize,
            r is Err ==> final(self).device_size() == old(self).device_size(),
    {
        let _ = sendrequest(&mut self.c, NBD_CMD_RESIZE, newsize, 0);
        match getreply(&mut self.c) {
            Ok(()) => (),
            Err(err) => {
                return Err(err);
            },
        }
        self.size = newsize;
        Ok(())
    }
}

} // verus!
