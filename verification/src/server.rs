//! The server side of the protocol: option negotiation and the
//! request/reply transmission loop, driven by a [`BlockStore`].
//!
//! The contracts are stated against byte-level specification functions:
//! [`hs_spec`] says exactly which client byte sequences a handshake accepts
//! and what the server sends back for them; [`trans_rel`] relates a whole
//! transmission session to the store contents before and after it.

use vstd::prelude::*;

pub use crate::Export;
pub use crate::consts::DEFAULT_TCP_PORT;

use crate::chan::Chan;
use crate::consts::{NBDMAGIC, IHAVEOPT, OLDSTYLE_MAGIC, OPT_REPLY_MAGIC, REQUEST_MAGIC,
    REPLY_MAGIC, MAX_OPT_LEN, NBD_OPT_EXPORT_NAME, NBD_OPT_ABORT, NBD_OPT_LIST, NBD_OPT_STARTTLS,
    NBD_OPT_INFO, NBD_OPT_GO, NBD_REP_ACK, NBD_REP_SERVER, NBD_REP_ERR_UNSUP,
    NBD_FLAG_FIXED_NEWSTYLE, NBD_FLAG_C_FIXED_NEWSTYLE, NBD_FLAG_HAS_FLAGS, NBD_FLAG_READ_ONLY,
    NBD_FLAG_SEND_FLUSH, NBD_FLAG_SEND_RESIZE, NBD_FLAG_ROTATIONAL, NBD_FLAG_SEND_TRIM,
    NBD_CMD_READ, NBD_CMD_WRITE, NBD_CMD_DISC, NBD_CMD_FLUSH, NBD_CMD_TRIM, NBD_CMD_WRITE_ZEROES,
    COPY_CHUNK};
use crate::error::NbdError;
use crate::store::{BlockStore, StoreError, store_write};
use crate::wire::{be16, be32, be64, be16_of, be32_of, push_u16_be, push_u64_be, u16_bytes,
    u32_bytes, u64_bytes, zeros};
use vstd::slice::slice_subrange;

verus! {

/// The transmission flags the server advertises for an export: always
/// `HAS_FLAGS`; `READ_ONLY` when read-only, else `SEND_FLUSH`; and
/// `SEND_RESIZE`, `ROTATIONAL`, `SEND_TRIM` as configured.
pub open spec fn transmission_flags(e: Export) -> u16 {
    let f = NBD_FLAG_HAS_FLAGS;
    let f = if e.readonly {
        f | NBD_FLAG_READ_ONLY
    } else {
        f | NBD_FLAG_SEND_FLUSH
    };
    let f = if e.resizeable {
        f | NBD_FLAG_SEND_RESIZE
    } else {
        f
    };
    let f = if e.rotational {
        f | NBD_FLAG_ROTATIONAL
    } else {
        f
    };
    if e.send_trim {
        f | NBD_FLAG_SEND_TRIM
    } else {
        f
    }
}

/// The fixed greeting a new-style server opens with: the two magics and the
/// handshake flags.
pub open spec fn greeting_bytes() -> Seq<u8> {
    u64_bytes(NBDMAGIC) + u64_bytes(IHAVEOPT) + u16_bytes(NBD_FLAG_FIXED_NEWSTYLE)
}

/// The export information block sent for `NBD_OPT_EXPORT_NAME`: size,
/// transmission flags, 124 bytes of padding.
pub open spec fn export_block_bytes(e: Export) -> Seq<u8> {
    u64_bytes(e.size) + u16_bytes(transmission_flags(e)) + zeros(124)
}

/// An option reply frame: magic, echoed option code, reply type, payload
/// length, payload.
pub open spec fn opt_reply_bytes(clopt: u32, rtype: u32, data: Seq<u8>) -> Seq<u8> {
    u64_bytes(OPT_REPLY_MAGIC) + u32_bytes(clopt) + u32_bytes(rtype) + u32_bytes(
        data.len() as u32,
    ) + data
}

/// The payload of the single `SERVER` reply to `NBD_OPT_LIST`: a name length
/// of 7 followed by "rustnbd" in ASCII.
pub open spec fn list_payload() -> Seq<u8> {
    seq![0u8, 0u8, 0u8, 7u8, 0x72u8, 0x75u8, 0x73u8, 0x74u8, 0x6eu8, 0x62u8, 0x64u8]
}

/// What the server sends for `NBD_OPT_LIST`: one `SERVER` entry, then `ACK`.
pub open spec fn list_replies() -> Seq<u8> {
    opt_reply_bytes(NBD_OPT_LIST, NBD_REP_SERVER, list_payload()) + opt_reply_bytes(
        NBD_OPT_LIST,
        NBD_REP_ACK,
        Seq::<u8>::empty(),
    )
}

/// The option loop of the handshake, as a function of the option bytes the
/// client sends. `None` means the negotiation fails (bad magic, oversized or
/// truncated option, abort, TLS, an unknown option, `LIST` with a payload);
/// `Some((consumed, out))` means the server consumes `consumed` option bytes,
/// sends `out` beyond the greeting, and proceeds to transmission.
pub open spec fn hs_opts(input: Seq<u8>, e: Export) -> Option<(int, Seq<u8>)>
    decreases input.len(),
{
    if input.len() < 16 {
        None
    } else {
        let magic = be64(input.subrange(0, 8));
        let clopt = be32(input.subrange(8, 12));
        let optlen = be32(input.subrange(12, 16)) as int;
        if magic != IHAVEOPT {
            None
        } else if optlen > MAX_OPT_LEN {
            None
        } else if input.len() < 16 + optlen {
            None
        } else {
            if clopt == NBD_OPT_EXPORT_NAME {
                Some((16 + optlen, export_block_bytes(e)))
            } else if clopt == NBD_OPT_LIST {
                if optlen != 0 {
                    None
                } else {
                    match hs_opts(input.skip(16), e) {
                        None => None,
                        Some(p) => Some((16 + p.0, list_replies() + p.1)),
                    }
                }
            } else if clopt == NBD_OPT_INFO || clopt == NBD_OPT_GO {
                match hs_opts(input.skip(16 + optlen), e) {
                    None => None,
                    Some(p) => Some(
                        (
                            16 + optlen + p.0,
                            opt_reply_bytes(clopt, NBD_REP_ERR_UNSUP, Seq::<u8>::empty()) + p.1,
                        ),
                    ),
                }
            } else {
                None
            }
        }
    }
}

/// The whole server handshake as a function of the client's bytes: the
/// client flags must be exactly `FIXED_NEWSTYLE`, then the option loop runs.
/// `Some((consumed, out))` means `consumed` client bytes are consumed and
/// `greeting ++ out` is sent.
pub open spec fn hs_spec(input: Seq<u8>, e: Export) -> Option<(int, Seq<u8>)> {
    if input.len() < 4 {
        None
    } else if be32(input.subrange(0, 4)) != NBD_FLAG_C_FIXED_NEWSTYLE {
        None
    } else {
        match hs_opts(input.skip(4), e) {
            None => None,
            Some(p) => Some((4 + p.0, p.1)),
        }
    }
}

/// What a failing option loop has sent beyond the greeting, the error it
/// returns, and how many option bytes it consumed, in the order the checks
/// run; `None` when the loop accepts the options instead ([`hs_opts`] then
/// says what is sent). An oversized option is refused after its 16 header
/// bytes, before any of its payload is consumed, and an abort is
/// acknowledged before the failure is returned.
pub open spec fn hs_opts_err(input: Seq<u8>, e: Export) -> Option<(Seq<u8>, NbdError, int)>
    decreases input.len(),
{
    if input.len() < 8 {
        Some((Seq::<u8>::empty(), NbdError::ShortRead, 0))
    } else if be64(input.subrange(0, 8)) != IHAVEOPT {
        Some((Seq::<u8>::empty(), NbdError::InvalidOptMagic, 8))
    } else if input.len() < 12 {
        Some((Seq::<u8>::empty(), NbdError::ShortRead, 8))
    } else if input.len() < 16 {
        Some((Seq::<u8>::empty(), NbdError::ShortRead, 12))
    } else {
        let clopt = be32(input.subrange(8, 12));
        let optlen = be32(input.subrange(12, 16)) as int;
        if optlen > MAX_OPT_LEN {
            Some((Seq::<u8>::empty(), NbdError::OptionTooLong, 16))
        } else if input.len() < 16 + optlen {
            Some((Seq::<u8>::empty(), NbdError::ShortRead, 16))
        } else {
            if clopt == NBD_OPT_EXPORT_NAME {
                None
            } else if clopt == NBD_OPT_ABORT {
                Some(
                    (
                        opt_reply_bytes(clopt, NBD_REP_ACK, Seq::<u8>::empty()),
                        NbdError::ClientAbort,
                        16 + optlen,
                    ),
                )
            } else if clopt == NBD_OPT_LIST {
                if optlen != 0 {
                    Some((Seq::<u8>::empty(), NbdError::ListWithContent, 16 + optlen))
                } else {
                    match hs_opts_err(input.skip(16), e) {
                        None => None,
                        Some(p) => Some((list_replies() + p.0, p.1, 16 + p.2)),
                    }
                }
            } else if clopt == NBD_OPT_STARTTLS {
                Some((Seq::<u8>::empty(), NbdError::TlsNotSupported, 16 + optlen))
            } else if clopt == NBD_OPT_INFO || clopt == NBD_OPT_GO {
                match hs_opts_err(input.skip(16 + optlen), e) {
                    None => None,
                    Some(p) => Some(
                        (
                            opt_reply_bytes(clopt, NBD_REP_ERR_UNSUP, Seq::<u8>::empty()) + p.0,
                            p.1,
                            16 + optlen + p.2,
                        ),
                    ),
                }
            } else {
                Some((Seq::<u8>::empty(), NbdError::InvalidOptionType, 16 + optlen))
            }
        }
    }
}

/// What a failing handshake has sent beyond the greeting, the error it
/// returns, and how many client bytes it consumed; `None` when the
/// handshake accepts the client's bytes.
pub open spec fn hs_err(input: Seq<u8>, e: Export) -> Option<(Seq<u8>, NbdError, int)> {
    if input.len() < 4 {
        Some((Seq::<u8>::empty(), NbdError::ShortRead, 0))
    } else if be32(input.subrange(0, 4)) != NBD_FLAG_C_FIXED_NEWSTYLE {
        Some((Seq::<u8>::empty(), NbdError::InvalidClientFlag, 4))
    } else {
        match hs_opts_err(input.skip(4), e) {
            None => None,
            Some(p) => Some((p.0, p.1, 4 + p.2)),
        }
    }
}

/// The old-style server greeting: both old magics, size, 32-bit flags, 124
/// bytes of padding.
pub open spec fn oldstyle_header_bytes(size: u64, flags: u32) -> Seq<u8> {
    u64_bytes(NBDMAGIC) + u64_bytes(OLDSTYLE_MAGIC) + u64_bytes(size) + u32_bytes(flags) + zeros(
        124,
    )
}

/// The greeting as bytes, for an application that writes it to a socket
/// before pumping the rest of the handshake.
pub fn greeting_frame() -> (r: Vec<u8>)
    ensures
        r@ == greeting_bytes(),
{
    let mut v: Vec<u8> = Vec::new();
    push_u64_be(&mut v, NBDMAGIC);
    push_u64_be(&mut v, IHAVEOPT);
    push_u16_be(&mut v, NBD_FLAG_FIXED_NEWSTYLE);
    proof {
        assert(v@ =~= greeting_bytes());
    }
    v
}

/// How many payload bytes follow a 28-byte request header on the wire: a
/// WRITE carries its length, every other command none. For an application
/// that frames requests before handing them to [`handle_request`].
pub fn request_extra_bytes(header: &[u8]) -> (r: usize)
    requires
        header@.len() == 28,
    ensures
        r == if be16(header@.subrange(6, 8)) == NBD_CMD_WRITE {
            be32(header@.subrange(24, 28)) as int
        } else {
            0
        },
{
    let cmd = be16_of(slice_subrange(header, 6, 8));
    if cmd == NBD_CMD_WRITE {
        be32_of(slice_subrange(header, 24, 28)) as usize
    } else {
        0
    }
}

/// Send the old-style greeting. Untested by real clients; kept for parity
/// with old-style peers.
pub fn oldstyle_header(c: &mut Chan, size: u64, flags: u32) -> (r: Result<(), NbdError>)
    ensures
        r is Ok,
        final(c).outgoing() == old(c).outgoing() + oldstyle_header_bytes(size, flags),
        final(c).incoming() == old(c).incoming(),
{
    c.write_u64(NBDMAGIC);
    c.write_u64(OLDSTYLE_MAGIC);
    c.write_u64(size);
    c.write_u32(flags);
    c.write_zeros(124);
    c.flush();
    proof {
        assert(c.outgoing() =~= old(c).outgoing() + oldstyle_header_bytes(size, flags));
    }
    Ok(())
}

/// Send one option reply frame.
fn reply(c: &mut Chan, clopt: u32, rtype: u32, data: &[u8]) -> (r: Result<(), NbdError>)
    requires
        data@.len() <= 0xFFFF_FFFF,
    ensures
        r is Ok,
        final(c).outgoing() == old(c).outgoing() + opt_reply_bytes(clopt, rtype, data@),
        final(c).incoming() == old(c).incoming(),
{
    c.write_u64(OPT_REPLY_MAGIC);
    c.write_u32(clopt);
    c.write_u32(rtype);
    c.write_u32(data.len() as u32);
    c.write_bytes(data);
    c.flush();
    proof {
        assert(c.outgoing() =~= old(c).outgoing() + opt_reply_bytes(clopt, rtype, data@));
    }
    Ok(())
}

/// Compute the transmission flags the handshake advertises for `export`.
pub fn compute_transmission_flags(export: &Export) -> (r: u16)
    ensures
        r == transmission_flags(*export),
{
    let mut flags: u16 = NBD_FLAG_HAS_FLAGS;
    if export.readonly {
        flags = flags | NBD_FLAG_READ_ONLY;
    } else {
        flags = flags | NBD_FLAG_SEND_FLUSH;
    }
    if export.resizeable {
        flags = flags | NBD_FLAG_SEND_RESIZE;
    }
    if export.rotational {
        flags = flags | NBD_FLAG_ROTATIONAL;
    }
    if export.send_trim {
        flags = flags | NBD_FLAG_SEND_TRIM;
    }
    flags
}

/// Negotiate with a client until it selects the export (the incoming export
/// name is ignored: a single export is served) or the negotiation fails.
///
/// Succeeds exactly on the client byte sequences [`hs_spec`] accepts, and
/// then has sent `greeting ++ out` and consumed `consumed` bytes, for
/// `hs_spec`'s `(consumed, out)`. On every other byte sequence it fails
/// with exactly the error [`hs_err`] names, having sent and consumed
/// exactly what `hs_err` says (an abort is acknowledged first; an oversized
/// option is refused with none of its payload consumed).
#[verifier::rlimit(100)]
pub fn handshake(c: &mut Chan, export: &Export) -> (r: Result<(), NbdError>)
    ensures
        r is Ok <==> hs_spec(old(c).incoming(), *export) is Some,
        r is Ok ==> (hs_spec(old(c).incoming(), *export) matches Some(p) && {
            &&& final(c).incoming() == old(c).incoming().skip(p.0)
            &&& final(c).outgoing() == old(c).outgoing() + greeting_bytes() + p.1
        }),
        r is Err ==> (hs_err(old(c).incoming(), *export) matches Some(p) && {
            &&& r == Result::<(), NbdError>::Err(p.1)
            &&& final(c).outgoing() == old(c).outgoing() + greeting_bytes() + p.0
            &&& final(c).incoming() == old(c).incoming().skip(p.2)
        }),
{
    broadcast use crate::wire::lemma_concat_prefix, crate::wire::lemma_take_all,
        crate::wire::lemma_concat_empty;

    let ghost inc0 = old(c).incoming();
    let ghost out0 = old(c).outgoing();
    let ghost e = *export;

    c.write_u64(NBDMAGIC);
    c.write_u64(IHAVEOPT);
    c.write_u16(NBD_FLAG_FIXED_NEWSTYLE);
    c.flush();
    proof {
        assert(c.outgoing() =~= out0 + greeting_bytes());
    }

    let client_flags = match c.read_u32() {
        Ok(x) => x,
        Err(err) => {
            return Err(err);
        },
    };
    proof {
        assert(inc0.subrange(0, 4) =~= inc0.take(4));
    }
    if client_flags != NBD_FLAG_C_FIXED_NEWSTYLE {
        return Err(NbdError::InvalidClientFlag);
    }

    let ghost opts0 = inc0.skip(4);
    let ghost mut done: int = 0;
    let ghost mut acc: Seq<u8> = Seq::<u8>::empty();
    proof {
        assert(opts0.skip(0) =~= opts0);
        assert(c.outgoing() =~= out0 + greeting_bytes() + acc);
        if hs_opts(opts0, e) is Some {
            let p = hs_opts(opts0, e).unwrap();
            assert(acc + p.1 =~= p.1);
        }
        if hs_opts_err(opts0, e) is Some {
            let p = hs_opts_err(opts0, e).unwrap();
            assert(acc + p.0 =~= p.0);
        }
    }
    loop
        invariant
            0 <= done <= opts0.len(),
            c.incoming() == opts0.skip(done),
            c.outgoing() == out0 + greeting_bytes() + acc,
            hs_opts(opts0.skip(done), e) is Some ==> hs_opts(opts0, e) == Some(
                (
                    done + hs_opts(opts0.skip(done), e).unwrap().0,
                    acc + hs_opts(opts0.skip(done), e).unwrap().1,
                ),
            ),
            hs_opts(opts0.skip(done), e) is None ==> hs_opts(opts0, e) is None,
            hs_opts_err(opts0.skip(done), e) matches Some(p) ==> hs_opts_err(opts0, e) == Some(
                (acc + p.0, p.1, done + p.2),
            ),
            inc0 == old(c).incoming(),
            out0 == old(c).outgoing(),
            opts0 == inc0.skip(4),
            inc0.len() >= 4,
            be32(inc0.subrange(0, 4)) == NBD_FLAG_C_FIXED_NEWSTYLE,
            e == *export,
        decreases opts0.len() - done,
    {
        let ghost cur = c.incoming();
        let optmagic = match c.read_u64() {
            Ok(x) => x,
            Err(err) => {
                return Err(err);
            },
        };
        proof {
            assert(cur.subrange(0, 8) =~= cur.take(8));
        }
        if optmagic != IHAVEOPT {
            return Err(NbdError::InvalidOptMagic);
        }
        let clopt = match c.read_u32() {
            Ok(x) => x,
            Err(err) => {
                return Err(err);
            },
        };
        proof {
            assert(cur.subrange(8, 12) =~= cur.skip(8).take(4));
        }
        let optlen = match c.read_u32() {
            Ok(x) => x,
            Err(err) => {
                return Err(err);
            },
        };
        proof {
            assert(cur.subrange(12, 16) =~= cur.skip(8).skip(4).take(4));
            assert(c.incoming() =~= cur.skip(16));
        }
        if optlen > MAX_OPT_LEN {
            return Err(NbdError::OptionTooLong);
        }
        let opt = match c.read_bytes(optlen as usize) {
            Ok(v) => v,
            Err(err) => {
                return Err(err);
            },
        };
        proof {
            assert(opt@ =~= cur.subrange(16, 16 + optlen as int));
            assert(c.incoming() =~= cur.skip(16 + optlen as int));
        }

        if clopt == NBD_OPT_EXPORT_NAME {
            let ghost pre = c.outgoing();
            c.write_u64(export.size);
            let flags = compute_transmission_flags(export);
            c.write_u16(flags);
            c.write_zeros(124);
            c.flush();
            proof {
                assert(c.outgoing() =~= pre + export_block_bytes(e));
                let step: int = 16 + optlen as int;
                assert(hs_opts(cur, e) == Some((step, export_block_bytes(e))));
                assert(c.outgoing() =~= out0 + greeting_bytes() + (acc + export_block_bytes(e)));
                assert(opts0.skip(done).skip(step) =~= opts0.skip(done + step));
                assert(inc0.skip(4).skip(done + step) =~= inc0.skip(4 + done + step));
            }
            return Ok(());
        } else if clopt == NBD_OPT_ABORT {
            let _ = reply(c, clopt, NBD_REP_ACK, &[]);
            proof {
                let ackrep = opt_reply_bytes(clopt, NBD_REP_ACK, Seq::<u8>::empty());
                assert(c.outgoing() =~= out0 + greeting_bytes() + (acc + ackrep));
            }
            return Err(NbdError::ClientAbort);
        } else if clopt == NBD_OPT_LIST {
            if optlen != 0 {
                return Err(NbdError::ListWithContent);
            }
            let mut payload: Vec<u8> = Vec::new();
            payload.push(0u8);
            payload.push(0u8);
            payload.push(0u8);
            payload.push(7u8);
            payload.push(0x72u8);
            payload.push(0x75u8);
            payload.push(0x73u8);
            payload.push(0x74u8);
            payload.push(0x6eu8);
            payload.push(0x62u8);
            payload.push(0x64u8);
            proof {
                assert(payload@ =~= list_payload());
            }
            let ghost pre = c.outgoing();
            let _ = reply(c, clopt, NBD_REP_SERVER, payload.as_slice());
            let _ = reply(c, clopt, NBD_REP_ACK, &[]);
            proof {
                assert(c.outgoing() =~= pre + list_replies());
                let step: int = 16;
                assert(opts0.skip(done).skip(step) =~= opts0.skip(done + step));
                lemma_hs_opts_compose(opts0, e, done, done + step, acc, acc + list_replies(), step,
                    list_replies());
                lemma_hs_err_compose(opts0, e, done, done + step, acc, acc + list_replies(), step,
                    list_replies());
                done = done + step;
                acc = acc + list_replies();
                assert(c.outgoing() =~= out0 + greeting_bytes() + acc);
            }
        } else if clopt == NBD_OPT_STARTTLS {
            return Err(NbdError::TlsNotSupported);
        } else if clopt == NBD_OPT_INFO || clopt == NBD_OPT_GO {
            let ghost pre = c.outgoing();
            let _ = reply(c, clopt, NBD_REP_ERR_UNSUP, &[]);
            proof {
                let rep = opt_reply_bytes(clopt, NBD_REP_ERR_UNSUP, Seq::<u8>::empty());
                assert(c.outgoing() =~= pre + rep);
                let step: int = 16 + optlen as int;
                assert(opts0.skip(done).skip(step) =~= opts0.skip(done + step));
                lemma_hs_opts_compose(opts0, e, done, done + step, acc, acc + rep, step, rep);
                lemma_hs_err_compose(opts0, e, done, done + step, acc, acc + rep, step, rep);
                done = done + step;
                acc = acc + rep;
                assert(c.outgoing() =~= out0 + greeting_bytes() + acc);
            }
        } else {
            return Err(NbdError::InvalidOptionType);
        }
    }
}

/// One unfolding of the option loop: when the option at `done` continues the
/// loop with `step` bytes consumed and `rep` sent, the loop invariant moves
/// from `done` to `done2`.
proof fn lemma_hs_opts_compose(
    opts0: Seq<u8>,
    e: Export,
    done: int,
    done2: int,
    acc: Seq<u8>,
    acc2: Seq<u8>,
    step: int,
    rep: Seq<u8>,
)
    requires
        0 <= done,
        done2 == done + step,
        step >= 16,
        done2 <= opts0.len(),
        acc2 == acc + rep,
        opts0.skip(done).skip(step) == opts0.skip(done2),
        hs_opts(opts0.skip(done), e) is Some ==> hs_opts(opts0, e) == Some(
            (
                done + hs_opts(opts0.skip(done), e).unwrap().0,
                acc + hs_opts(opts0.skip(done), e).unwrap().1,
            ),
        ),
        hs_opts(opts0.skip(done), e) is None ==> hs_opts(opts0, e) is None,
        hs_opts(opts0.skip(done2), e) is Some ==> hs_opts(opts0.skip(done), e) == Some(
            (
                step + hs_opts(opts0.skip(done2), e).unwrap().0,
                rep + hs_opts(opts0.skip(done2), e).unwrap().1,
            ),
        ),
        hs_opts(opts0.skip(done2), e) is None ==> hs_opts(opts0.skip(done), e) is None,
    ensures
        hs_opts(opts0.skip(done2), e) is Some ==> hs_opts(opts0, e) == Some(
            (
                done2 + hs_opts(opts0.skip(done2), e).unwrap().0,
                acc2 + hs_opts(opts0.skip(done2), e).unwrap().1,
            ),
        ),
        hs_opts(opts0.skip(done2), e) is None ==> hs_opts(opts0, e) is None,
{
    if hs_opts(opts0.skip(done2), e) is Some {
        let p = hs_opts(opts0.skip(done2), e).unwrap();
        assert(acc + (rep + p.1) =~= acc2 + p.1);
    }
}

/// One unfolding of the failing option loop: when the option at `done`
/// continues the loop with `step` bytes consumed and `rep` sent, the failure
/// invariant moves from `done` to `done2`.
proof fn lemma_hs_err_compose(
    opts0: Seq<u8>,
    e: Export,
    done: int,
    done2: int,
    acc: Seq<u8>,
    acc2: Seq<u8>,
    step: int,
    rep: Seq<u8>,
)
    requires
        0 <= done,
        done2 == done + step,
        step >= 16,
        done2 <= opts0.len(),
        acc2 == acc + rep,
        opts0.skip(done).skip(step) == opts0.skip(done2),
        hs_opts_err(opts0.skip(done), e) matches Some(p) ==> hs_opts_err(opts0, e) == Some(
            (acc + p.0, p.1, done + p.2),
        ),
        hs_opts_err(opts0.skip(done2), e) matches Some(p) ==> hs_opts_err(opts0.skip(done), e)
            == Some((rep + p.0, p.1, step + p.2)),
    ensures
        hs_opts_err(opts0.skip(done2), e) matches Some(p) ==> hs_opts_err(opts0, e) == Some(
            (acc2 + p.0, p.1, done2 + p.2),
        ),
{
    if hs_opts_err(opts0.skip(done2), e) is Some {
        let p = hs_opts_err(opts0.skip(done2), e).unwrap();
        assert(acc + (rep + p.0) =~= acc2 + p.0);
    }
}


/// A simple reply frame: magic, error code, echoed handle.
pub open spec fn reply_bytes(error: u32, handle: u64) -> Seq<u8> {
    u32_bytes(REPLY_MAGIC) + u32_bytes(error) + u64_bytes(handle)
}

/// The NBD error code a host-side store failure is reported as: the raw OS
/// code when there is a nonzero one, else 5 (`EIO`).
pub open spec fn err_code_of(e: StoreError) -> u32 {
    if e.code != 0 {
        e.code
    } else {
        5u32
    }
}

/// A byte sequence that starts with a well-formed request header: 28 bytes
/// led by the request magic.
pub open spec fn req_header_ok(input: Seq<u8>) -> bool {
    input.len() >= 28 && be32(input.subrange(0, 4)) == REQUEST_MAGIC
}

/// The command code of a request frame.
pub open spec fn req_cmd(input: Seq<u8>) -> u16 {
    be16(input.subrange(6, 8))
}

/// The handle of a request frame.
pub open spec fn req_handle(input: Seq<u8>) -> u64 {
    be64(input.subrange(8, 16))
}

/// The offset of a request frame.
pub open spec fn req_offset(input: Seq<u8>) -> u64 {
    be64(input.subrange(16, 24))
}

/// The length of a request frame.
pub open spec fn req_len(input: Seq<u8>) -> u32 {
    be32(input.subrange(24, 28))
}

/// A request head the dispatcher takes a step on: well-formed header and a
/// command it knows.
pub open spec fn req_head_known(input: Seq<u8>) -> bool {
    &&& req_header_ok(input)
    &&& (req_cmd(input) == NBD_CMD_READ || req_cmd(input) == NBD_CMD_WRITE || req_cmd(input)
        == NBD_CMD_DISC || req_cmd(input) == NBD_CMD_FLUSH || req_cmd(input) == NBD_CMD_TRIM
        || req_cmd(input) == NBD_CMD_WRITE_ZEROES)
}

/// A session the server accepts without ever consulting the store: refused
/// TRIM/WRITE_ZEROES requests ending in a DISC.
pub open spec fn storefree_accepted(input: Seq<u8>) -> bool
    decreases input.len(),
{
    &&& req_header_ok(input)
    &&& (req_cmd(input) == NBD_CMD_DISC || ((req_cmd(input) == NBD_CMD_TRIM || req_cmd(input)
        == NBD_CMD_WRITE_ZEROES) && storefree_accepted(input.skip(28))))
}

/// A whole session the given store is certain to serve cleanly: every
/// request is well formed with a known command, every READ lies within the
/// contents, every WRITE is accepted by the store with its payload complete
/// on the wire, seeks, reads and flushes cannot fail, and a DISC ends it.
/// `contents` tracks the byte space as the writes apply.
pub open spec fn session_served<D: BlockStore>(
    input: Seq<u8>,
    contents: Seq<u8>,
    store: &D,
) -> bool
    decreases input.len(),
{
    &&& req_header_ok(input)
    &&& ({
        let cmd = req_cmd(input);
        if cmd == NBD_CMD_DISC {
            true
        } else if cmd == NBD_CMD_TRIM || cmd == NBD_CMD_WRITE_ZEROES {
            session_served(input.skip(28), contents, store)
        } else if cmd == NBD_CMD_FLUSH {
            store.control_infallible() && session_served(input.skip(28), contents, store)
        } else if cmd == NBD_CMD_READ {
            &&& store.control_infallible()
            &&& store.reads_infallible()
            &&& req_offset(input) + req_len(input) <= contents.len()
            &&& session_served(input.skip(28), contents, store)
        } else if cmd == NBD_CMD_WRITE {
            &&& store.control_infallible()
            &&& store.write_accepted(req_offset(input) as int, req_len(input) as nat)
            &&& input.len() >= 28 + req_len(input)
            &&& session_served(
                input.skip(28 + req_len(input) as int),
                store_write(
                    contents,
                    req_offset(input) as int,
                    input.subrange(28, 28 + req_len(input) as int),
                ),
                store,
            )
        } else {
            false
        }
    })
}

/// One request handled by the transmission loop: `input` starts with a valid
/// request frame, `consumed` bytes of it are consumed, `out` is sent, and the
/// store contents move from `d` to `d2`; `disc` marks a `DISC` request. The
/// disjunctions under READ and WRITE cover the store failing before or in the
/// middle of a request; the error reply sent then always carries
/// [`err_code_of`] of some store failure: the raw OS code, or 5 when the
/// store gave none.
pub open spec fn step_rel(
    input: Seq<u8>,
    d: Seq<u8>,
    d2: Seq<u8>,
    out: Seq<u8>,
    consumed: int,
    disc: bool,
) -> bool {
    &&& input.len() >= 28
    &&& be32(input.subrange(0, 4)) == REQUEST_MAGIC
    &&& ({
        let cmd = be16(input.subrange(6, 8));
        let handle = be64(input.subrange(8, 16));
        let offset = be64(input.subrange(16, 24)) as int;
        let len = be32(input.subrange(24, 28)) as int;
        if cmd == NBD_CMD_DISC {
            &&& disc
            &&& consumed == 28
            &&& d2 == d
            &&& out == Seq::<u8>::empty()
        } else if cmd == NBD_CMD_READ {
            &&& !disc
            &&& consumed == 28
            &&& d2 == d
            &&& ({
                ||| (exists|se: StoreError|
                    #![trigger reply_bytes(err_code_of(se), handle)]
                    out == reply_bytes(err_code_of(se), handle))
                ||| (len == 0 && out == reply_bytes(0, handle))
                ||| (offset + len <= d.len() && out == reply_bytes(0, handle) + d.subrange(
                    offset,
                    offset + len,
                ))
                ||| (exists|j: int, se: StoreError|
                    #![trigger d.subrange(offset, offset + j), reply_bytes(err_code_of(se), handle)]
                    0 <= j <= len && offset + j <= d.len() && out == reply_bytes(0, handle)
                        + d.subrange(offset, offset + j) + reply_bytes(err_code_of(se), handle))
                ||| (offset > d.len() && exists|se: StoreError|
                    #![trigger reply_bytes(err_code_of(se), handle)]
                    out == reply_bytes(0, handle) + reply_bytes(err_code_of(se), handle))
            })
        } else if cmd == NBD_CMD_WRITE {
            &&& !disc
            &&& ({
                ||| (consumed == 28 && d2 == d && exists|se: StoreError|
                    #![trigger reply_bytes(err_code_of(se), handle)]
                    out == reply_bytes(err_code_of(se), handle))
                ||| (input.len() >= 28 + len && consumed == 28 + len && d2 == store_write(
                    d,
                    offset,
                    input.subrange(28, 28 + len),
                ) && out == reply_bytes(0, handle))
                ||| (28 <= consumed <= 28 + len && input.len() >= consumed && exists|se: StoreError|
                    #![trigger reply_bytes(err_code_of(se), handle)]
                    out == reply_bytes(err_code_of(se), handle))
            })
        } else if cmd == NBD_CMD_FLUSH {
            &&& !disc
            &&& consumed == 28
            &&& d2 == d
            &&& out == reply_bytes(0, handle)
        } else if cmd == NBD_CMD_TRIM || cmd == NBD_CMD_WRITE_ZEROES {
            &&& !disc
            &&& consumed == 28
            &&& d2 == d
            &&& out == reply_bytes(38, handle)
        } else {
            false
        }
    })
}

/// A whole transmission session: a chain of [`step_rel`] requests ending in
/// a `DISC`, relating the input bytes, the store contents before and after,
/// and everything sent.
pub open spec fn trans_rel(input: Seq<u8>, d: Seq<u8>, d2: Seq<u8>, out: Seq<u8>) -> bool
    decreases input.len(),
{
    ||| exists|consumed: int, o1: Seq<u8>|
        #![trigger step_rel(input, d, d2, o1, consumed, true)]
        {
            &&& step_rel(input, d, d2, o1, consumed, true)
            &&& 0 < consumed <= input.len()
            &&& out == o1
        }
    ||| exists|consumed: int, dmid: Seq<u8>, o1: Seq<u8>|
        #![trigger step_rel(input, d, dmid, o1, consumed, false)]
        {
            &&& step_rel(input, d, dmid, o1, consumed, false)
            &&& 0 < consumed <= input.len()
            &&& o1.len() <= out.len()
            &&& out.take(o1.len() as int) == o1
            &&& trans_rel(input.skip(consumed), dmid, d2, out.skip(o1.len() as int))
        }
}

/// Send a simple reply frame.
pub fn replyt(c: &mut Chan, error: u32, handle: u64) -> (r: Result<(), NbdError>)
    ensures
        r is Ok,
        final(c).outgoing() == old(c).outgoing() + reply_bytes(error, handle),
        final(c).incoming() == old(c).incoming(),
{
    c.write_u32(REPLY_MAGIC);
    c.write_u32(error);
    c.write_u64(handle);
    proof {
        assert(c.outgoing() =~= old(c).outgoing() + reply_bytes(error, handle));
    }
    Ok(())
}

/// Send a simple reply frame carrying a store failure, mapped to an NBD
/// error code by [`err_code_of`].
pub fn replyte(c: &mut Chan, error: StoreError, handle: u64) -> (r: Result<(), NbdError>)
    ensures
        r is Ok,
        final(c).outgoing() == old(c).outgoing() + reply_bytes(err_code_of(error), handle),
        final(c).incoming() == old(c).incoming(),
{
    let ec: u32 = if error.code != 0 {
        error.code
    } else {
        5
    };
    replyt(c, ec, handle)
}

/// Stream up to `limit` bytes from the store's cursor to the transport, in
/// chunks of [`COPY_CHUNK`], retrying interrupted reads. Returns how many
/// bytes were streamed; fewer than `limit` means the store ran out of data.
fn copy_store_to_chan<D: BlockStore>(data: &mut D, c: &mut Chan, limit: usize) -> (r: Result<
    usize,
    StoreError,
>)
    requires
        0 <= old(data).cursor(),
    ensures
        final(data).contents() == old(data).contents(),
        final(c).incoming() == old(c).incoming(),
        ({
            let d = old(data).contents();
            let p = old(data).cursor();
            match r {
                Ok(w) => {
                    &&& w <= limit
                    &&& (p <= d.len() ==> p + w <= d.len() && final(c).outgoing() == old(
                        c,
                    ).outgoing() + d.subrange(p, p + w) && (w < limit ==> p + w == d.len()))
                    &&& (p > d.len() ==> w == 0 && final(c).outgoing() == old(c).outgoing())
                },
                Err(_) => {
                    ||| (p <= d.len() && exists|j: int|
                        #![trigger d.subrange(p, p + j)]
                        0 <= j <= limit && p + j <= d.len() && final(c).outgoing() == old(
                            c,
                        ).outgoing() + d.subrange(p, p + j))
                    ||| (p > d.len() && final(c).outgoing() == old(c).outgoing())
                },
            }
        }),
        (old(data).reads_infallible() && 0 <= old(data).cursor() <= old(data).contents().len())
            ==> (r matches Ok(w) && w == if limit <= old(data).contents().len() - old(
            data,
        ).cursor() {
            limit as int
        } else {
            old(data).contents().len() - old(data).cursor()
        }),
        final(data).control_infallible() == old(data).control_infallible(),
        final(data).reads_infallible() == old(data).reads_infallible(),
        final(data).writes_denied() == old(data).writes_denied(),
        forall|p: int, l: nat| #[trigger]
            final(data).write_accepted(p, l) == old(data).write_accepted(p, l),
{
    let ghost d = old(data).contents();
    let ghost p0 = old(data).cursor();
    let mut written: usize = 0;
    let mut fuel: usize = usize::MAX;
    loop
        invariant
            d == old(data).contents(),
            p0 == old(data).cursor(),
            0 <= p0,
            written <= limit,
            data.contents() == d,
            data.cursor() == p0 + written,
            data.control_infallible() == old(data).control_infallible(),
            data.reads_infallible() == old(data).reads_infallible(),
            data.writes_denied() == old(data).writes_denied(),
            forall|p: int, l: nat| #[trigger]
                data.write_accepted(p, l) == old(data).write_accepted(p, l),
            c.incoming() == old(c).incoming(),
            p0 <= d.len() ==> p0 + written <= d.len() && c.outgoing() == old(c).outgoing()
                + d.subrange(p0, p0 + written),
            p0 > d.len() ==> written == 0 && c.outgoing() == old(c).outgoing(),
        decreases limit - written, fuel,
    {
        if written == limit {
            return Ok(written);
        }
        let want = if COPY_CHUNK < limit - written {
            COPY_CHUNK
        } else {
            limit - written
        };
        match data.read_some(want) {
            Err(e) => {
                if e.interrupted && fuel > 0 {
                    fuel = fuel - 1;
                } else {
                    return Err(e);
                }
            },
            Ok(v) => {
                if v.len() == 0 {
                    return Ok(written);
                }
                c.write_bytes(v.as_slice());
                written = written + v.len();
                proof {
                    if p0 <= d.len() {
                        assert(d.subrange(p0, p0 + written) =~= d.subrange(
                            p0,
                            p0 + (written - v@.len()),
                        ) + v@);
                        assert(c.outgoing() =~= old(c).outgoing() + d.subrange(p0, p0 + written));
                    }
                }
            },
        }
    }
}

/// Writing `a` and then `b` right after it is one write of `a ++ b`.
proof fn lemma_store_write_append(d: Seq<u8>, p: int, a: Seq<u8>, b: Seq<u8>)
    requires
        0 <= p,
    ensures
        store_write(store_write(d, p, a), p + a.len(), b) == store_write(d, p, a + b),
{
    assert(store_write(store_write(d, p, a), p + a.len(), b) =~= store_write(d, p, a + b));
}

/// Consume up to `limit` bytes from the transport and write them to the
/// store's cursor, in chunks of [`COPY_CHUNK`]. Returns how many bytes were
/// copied; fewer than `limit` means the transport ran out of bytes.
fn copy_chan_to_store<D: BlockStore>(c: &mut Chan, data: &mut D, limit: usize) -> (r: Result<
    usize,
    StoreError,
>)
    requires
        0 <= old(data).cursor(),
    ensures
        final(c).outgoing() == old(c).outgoing(),
        ({
            let inc = old(c).incoming();
            let d = old(data).contents();
            let p = old(data).cursor();
            match r {
                Ok(w) => {
                    &&& w <= limit
                    &&& w <= inc.len()
                    &&& final(c).incoming() == inc.skip(w as int)
                    &&& final(data).contents() == store_write(d, p, inc.take(w as int))
                    &&& final(data).cursor() == p + w
                    &&& (w < limit ==> w == inc.len())
                },
                Err(_) => exists|j: int|
                    #![trigger inc.skip(j)]
                    0 <= j <= limit && j <= inc.len() && final(c).incoming() == inc.skip(j),
            }
        }),
        old(data).write_accepted(old(data).cursor(), limit as nat) ==> (r matches Ok(w) && w
            == if limit <= old(c).incoming().len() {
            limit as int
        } else {
            old(c).incoming().len() as int
        }),
        (old(data).writes_denied() && limit > 0 && old(c).incoming().len() > 0) ==> r
            == Result::<usize, StoreError>::Err(StoreError { code: 1, interrupted: false })
            && final(data).contents() == old(data).contents(),
        final(data).control_infallible() == old(data).control_infallible(),
        final(data).reads_infallible() == old(data).reads_infallible(),
        final(data).writes_denied() == old(data).writes_denied(),
        forall|p: int, l: nat| #[trigger]
            final(data).write_accepted(p, l) == old(data).write_accepted(p, l),
{
    let ghost inc0 = old(c).incoming();
    let ghost d0 = old(data).contents();
    let ghost p0 = old(data).cursor();
    let mut written: usize = 0;
    proof {
        assert(store_write(d0, p0, inc0.take(0)) =~= store_write(d0, p0, Seq::<u8>::empty()));
        assert(d0 =~= store_write(d0, p0, Seq::<u8>::empty()));
    }
    loop
        invariant
            inc0 == old(c).incoming(),
            d0 == old(data).contents(),
            p0 == old(data).cursor(),
            0 <= p0,
            written <= limit,
            written <= inc0.len(),
            c.incoming() == inc0.skip(written as int),
            c.outgoing() == old(c).outgoing(),
            data.contents() == store_write(d0, p0, inc0.take(written as int)),
            data.cursor() == p0 + written,
            data.control_infallible() == old(data).control_infallible(),
            data.reads_infallible() == old(data).reads_infallible(),
            data.writes_denied() == old(data).writes_denied(),
            forall|p: int, l: nat| #[trigger]
                data.write_accepted(p, l) == old(data).write_accepted(p, l),
            old(data).writes_denied() ==> written == 0,
        decreases limit - written,
    {
        if written == limit {
            return Ok(written);
        }
        let want = if COPY_CHUNK < limit - written {
            COPY_CHUNK
        } else {
            limit - written
        };
        let avail = c.available();
        let take = if want < avail {
            want
        } else {
            avail
        };
        if take == 0 {
            return Ok(written);
        }
        let v = match c.read_bytes(take) {
            Ok(v) => v,
            Err(_) => {
                return Ok(written);
            },
        };
        proof {
            if data.write_accepted(p0, limit as nat) {
                data.write_accepted_sub(
                    p0,
                    limit as nat,
                    p0 + written,
                    take as nat,
                );
            }
        }
        match data.write_all(v.as_slice()) {
            Ok(()) => {
                proof {
                    lemma_store_write_append(d0, p0, inc0.take(written as int), v@);
                    assert(inc0.take(written as int) + v@ =~= inc0.take(written + take));
                    assert(inc0.skip(written as int).skip(take as int) =~= inc0.skip(
                        (written + take) as int,
                    ));
                }
                written = written + take;
            },
            Err(e) => {
                proof {
                    assert(inc0.skip(written as int).skip(take as int) =~= inc0.skip(
                        (written + take) as int,
                    ));
                    assert(0 <= written + take <= limit);
                    assert(written + take <= inc0.len());
                    if old(data).writes_denied() {
                        assert(inc0.take(0) =~= Seq::<u8>::empty());
                        assert(store_write(d0, p0, Seq::<u8>::empty()) =~= d0);
                    }
                }
                return Err(e);
            },
        }
    }
}


/// Chaining one non-final [`step_rel`] step onto a session tail gives a
/// session.
pub proof fn lemma_trans_rel_step(
    input: Seq<u8>,
    d: Seq<u8>,
    dmid: Seq<u8>,
    o1: Seq<u8>,
    consumed: int,
    d2: Seq<u8>,
    o2: Seq<u8>,
)
    requires
        step_rel(input, d, dmid, o1, consumed, false),
        0 < consumed <= input.len(),
        trans_rel(input.skip(consumed), dmid, d2, o2),
    ensures
        trans_rel(input, d, d2, o1 + o2),
{
    assert((o1 + o2).take(o1.len() as int) =~= o1);
    assert((o1 + o2).skip(o1.len() as int) =~= o2);
}

/// A `DISC` step alone is a complete session.
pub proof fn lemma_trans_rel_disc(input: Seq<u8>, d: Seq<u8>, d2: Seq<u8>, o1: Seq<u8>, consumed: int)
    requires
        step_rel(input, d, d2, o1, consumed, true),
        0 < consumed <= input.len(),
    ensures
        trans_rel(input, d, d2, o1),
{
}

/// Read and dispatch one request frame: serve READ/WRITE/FLUSH from the
/// store, refuse TRIM/WRITE_ZEROES with error code 38, and stop at DISC.
/// `Ok(true)` means the loop goes on, `Ok(false)` is a clean disconnect; any
/// framing trouble is a fatal `Err`. On success the exchange is one
/// [`step_rel`] step. Beyond that the contract owes outcomes wherever the
/// store has no say: the exact framing error for a short, mismarked or
/// unknown frame; success with the exact reply for DISC, TRIM and
/// WRITE_ZEROES; success with the exact reply, payload and store change for
/// READ, WRITE and FLUSH whenever the store's own promises
/// ([`BlockStore::control_infallible`] and friends) rule failure out; and
/// the code-1 refusal of a WRITE against a write-denying store.
pub fn handle_request<D: BlockStore>(c: &mut Chan, data: &mut D) -> (r: Result<bool, NbdError>)
    ensures
        final(c).outgoing().len() >= old(c).outgoing().len(),
        final(c).outgoing().take(old(c).outgoing().len() as int) == old(c).outgoing(),
        final(data).control_infallible() == old(data).control_infallible(),
        final(data).reads_infallible() == old(data).reads_infallible(),
        final(data).writes_denied() == old(data).writes_denied(),
        forall|p: int, l: nat| #[trigger]
            final(data).write_accepted(p, l) == old(data).write_accepted(p, l),
        ({
            let inc = old(c).incoming();
            &&& (inc.len() < 4 ==> r == Result::<bool, NbdError>::Err(NbdError::ShortRead))
            &&& (inc.len() >= 4 && be32(inc.subrange(0, 4)) != REQUEST_MAGIC ==> r == Result::<
                bool,
                NbdError,
            >::Err(NbdError::InvalidRequestMagic))
            &&& (4 <= inc.len() < 28 && be32(inc.subrange(0, 4)) == REQUEST_MAGIC ==> r
                == Result::<bool, NbdError>::Err(NbdError::ShortRead))
            &&& (req_header_ok(inc) && !req_head_known(inc) ==> r == Result::<bool, NbdError>::Err(
                NbdError::UnknownCommand,
            ))
            &&& (req_header_ok(inc) && req_cmd(inc) == NBD_CMD_DISC ==> {
                &&& r == Result::<bool, NbdError>::Ok(false)
                &&& final(data).contents() == old(data).contents()
                &&& final(c).outgoing() == old(c).outgoing()
                &&& final(c).incoming() == inc.skip(28)
            })
            &&& (req_header_ok(inc) && (req_cmd(inc) == NBD_CMD_TRIM || req_cmd(inc)
                == NBD_CMD_WRITE_ZEROES) ==> {
                &&& r == Result::<bool, NbdError>::Ok(true)
                &&& final(data).contents() == old(data).contents()
                &&& final(c).outgoing() == old(c).outgoing() + reply_bytes(38, req_handle(inc))
                &&& final(c).incoming() == inc.skip(28)
            })
            &&& (req_header_ok(inc) && req_cmd(inc) == NBD_CMD_FLUSH && r is Err ==> {
                &&& (r matches Err(e) && e is Store)
                &&& final(data).contents() == old(data).contents()
                &&& final(c).outgoing() == old(c).outgoing()
                &&& final(c).incoming() == inc.skip(28)
            })
            &&& (req_header_ok(inc) && req_cmd(inc) == NBD_CMD_FLUSH && old(
                data,
            ).control_infallible() ==> {
                &&& r == Result::<bool, NbdError>::Ok(true)
                &&& final(data).contents() == old(data).contents()
                &&& final(c).outgoing() == old(c).outgoing() + reply_bytes(0, req_handle(inc))
                &&& final(c).incoming() == inc.skip(28)
            })
            &&& (req_header_ok(inc) && req_cmd(inc) == NBD_CMD_READ && old(
                data,
            ).control_infallible() && old(data).reads_infallible() && req_offset(inc) + req_len(
                inc,
            ) <= old(data).contents().len() ==> {
                &&& r == Result::<bool, NbdError>::Ok(true)
                &&& final(data).contents() == old(data).contents()
                &&& final(c).outgoing() == old(c).outgoing() + (reply_bytes(0, req_handle(inc))
                    + old(data).contents().subrange(
                    req_offset(inc) as int,
                    req_offset(inc) + req_len(inc),
                ))
                &&& final(c).incoming() == inc.skip(28)
            })
            &&& (req_header_ok(inc) && req_cmd(inc) == NBD_CMD_WRITE && old(
                data,
            ).control_infallible() && old(data).write_accepted(
                req_offset(inc) as int,
                req_len(inc) as nat,
            ) && inc.len() >= 28 + req_len(inc) ==> {
                &&& r == Result::<bool, NbdError>::Ok(true)
                &&& final(data).contents() == store_write(
                    old(data).contents(),
                    req_offset(inc) as int,
                    inc.subrange(28, 28 + req_len(inc) as int),
                )
                &&& final(c).outgoing() == old(c).outgoing() + reply_bytes(0, req_handle(inc))
                &&& final(c).incoming() == inc.skip(28 + req_len(inc) as int)
            })
            &&& (req_header_ok(inc) && req_cmd(inc) == NBD_CMD_WRITE && old(
                data,
            ).control_infallible() && old(data).writes_denied() && req_len(inc) > 0 && inc.len()
                > 28 ==> {
                &&& r == Result::<bool, NbdError>::Ok(true)
                &&& final(data).contents() == old(data).contents()
                &&& final(c).outgoing() == old(c).outgoing() + reply_bytes(1, req_handle(inc))
            })
        }),
        match r {
            Ok(cont) => exists|consumed: int, o1: Seq<u8>, disc: bool|
                {
                    &&& disc == !cont
                    &&& 0 < consumed <= old(c).incoming().len()
                    &&& final(c).incoming() == old(c).incoming().skip(consumed)
                    &&& final(c).outgoing() == old(c).outgoing() + o1
                    &&& #[trigger] step_rel(
                        old(c).incoming(),
                        old(data).contents(),
                        final(data).contents(),
                        o1,
                        consumed,
                        disc,
                    )
                },
            Err(_) => true,
        },
{
    broadcast use crate::wire::lemma_concat_prefix, crate::wire::lemma_take_all;

    let ghost inc0 = old(c).incoming();
    let ghost d0 = old(data).contents();
    let ghost out0 = old(c).outgoing();

    let magic = match c.read_u32() {
        Ok(x) => x,
        Err(err) => {
            return Err(err);
        },
    };
    proof {
        assert(inc0.subrange(0, 4) =~= inc0.take(4));
    }
    if magic != REQUEST_MAGIC {
        return Err(NbdError::InvalidRequestMagic);
    }
    let _flags = match c.read_u16() {
        Ok(x) => x,
        Err(err) => {
            return Err(err);
        },
    };
    let typ = match c.read_u16() {
        Ok(x) => x,
        Err(err) => {
            return Err(err);
        },
    };
    let handle = match c.read_u64() {
        Ok(x) => x,
        Err(err) => {
            return Err(err);
        },
    };
    let offset = match c.read_u64() {
        Ok(x) => x,
        Err(err) => {
            return Err(err);
        },
    };
    let length = match c.read_u32() {
        Ok(x) => x,
        Err(err) => {
            return Err(err);
        },
    };
    proof {
        assert(inc0.subrange(0, 4) =~= inc0.take(4));
        assert(inc0.subrange(6, 8) =~= inc0.skip(4).skip(2).take(2));
        assert(inc0.subrange(8, 16) =~= inc0.skip(4).skip(2).skip(2).take(8));
        assert(inc0.subrange(16, 24) =~= inc0.skip(4).skip(2).skip(2).skip(8).take(8));
        assert(inc0.subrange(24, 28) =~= inc0.skip(4).skip(2).skip(2).skip(8).skip(8).take(4));
        assert(c.incoming() =~= inc0.skip(28));
    }

    if typ == NBD_CMD_READ {
        match data.seek(offset) {
            Err(se) => {
                let _ = replyte(c, se, handle);
                c.flush();
                proof {
                    let o1 = reply_bytes(err_code_of(se), handle);
                    assert(step_rel(inc0, d0, data.contents(), o1, 28, false));
                }
                Ok(true)
            },
            Ok(()) => {
                let _ = replyt(c, 0, handle);
                let ghost mid_out = c.outgoing();
                match copy_store_to_chan(data, c, length as usize) {
                    Err(se) => {
                        let _ = replyte(c, se, handle);
                        c.flush();
                        proof {
                            let off = offset as int;
                            let len = length as int;
                            let ec = err_code_of(se);
                            if off <= d0.len() {
                                let j = choose|j: int|
                                    #![trigger d0.subrange(off, off + j)]
                                    0 <= j <= len && off + j <= d0.len() && c.outgoing() == (
                                    mid_out + d0.subrange(off, off + j)) + reply_bytes(ec, handle);
                                let o1 = reply_bytes(0, handle) + d0.subrange(off, off + j)
                                    + reply_bytes(ec, handle);
                                assert(c.outgoing() =~= out0 + o1);
                                assert(step_rel(inc0, d0, data.contents(), o1, 28, false));
                            } else {
                                let o1 = reply_bytes(0, handle) + reply_bytes(ec, handle);
                                assert(c.outgoing() =~= out0 + o1);
                                assert(step_rel(inc0, d0, data.contents(), o1, 28, false));
                            }
                        }
                        Ok(true)
                    },
                    Ok(w) => {
                        if w == length as usize {
                            c.flush();
                            proof {
                                let off = offset as int;
                                let len = length as int;
                                if off <= d0.len() {
                                    let o1 = reply_bytes(0, handle) + d0.subrange(off, off + len);
                                    assert(c.outgoing() =~= out0 + o1);
                                    assert(step_rel(inc0, d0, data.contents(), o1, 28, false));
                                } else {
                                    let o1 = reply_bytes(0, handle);
                                    assert(reply_bytes(0, handle) + Seq::<u8>::empty() =~= o1);
                                    assert(c.outgoing() =~= out0 + o1);
                                    assert(step_rel(inc0, d0, data.contents(), o1, 28, false));
                                }
                            }
                            Ok(true)
                        } else {
                            Err(NbdError::SuddenEof)
                        }
                    },
                }
            },
        }
    } else if typ == NBD_CMD_WRITE {
        match data.seek(offset) {
            Err(se) => {
                let _ = replyte(c, se, handle);
                c.flush();
                proof {
                    let o1 = reply_bytes(err_code_of(se), handle);
                    assert(step_rel(inc0, d0, data.contents(), o1, 28, false));
                }
                Ok(true)
            },
            Ok(()) => {
                let ghost inc28 = c.incoming();
                match copy_chan_to_store(c, data, length as usize) {
                    Err(se) => {
                        let _ = replyte(c, se, handle);
                        c.flush();
                        proof {
                            let len = length as int;
                            let j = choose|j: int|
                                #![trigger inc28.skip(j)]
                                0 <= j <= len && j <= inc28.len() && c.incoming() == inc28.skip(j);
                            let o1 = reply_bytes(err_code_of(se), handle);
                            assert(inc28.skip(j) =~= inc0.skip(28 + j));
                            assert(step_rel(inc0, d0, data.contents(), o1, 28 + j, false));
                        }
                        Ok(true)
                    },
                    Ok(w) => {
                        if w == length as usize {
                            let _ = replyt(c, 0, handle);
                            c.flush();
                            proof {
                                let len = length as int;
                                let o1 = reply_bytes(0, handle);
                                assert(inc28.take(len) =~= inc0.subrange(28, 28 + len));
                                assert(inc28.skip(len) =~= inc0.skip(28 + len));
                                assert(step_rel(inc0, d0, data.contents(), o1, 28 + len, false));
                            }
                            Ok(true)
                        } else {
                            Err(NbdError::SuddenEof)
                        }
                    },
                }
            },
        }
    } else if typ == NBD_CMD_DISC {
        proof {
            assert(c.outgoing() =~= out0);
            assert(c.outgoing() =~= out0 + Seq::<u8>::empty());
            assert(step_rel(inc0, d0, data.contents(), Seq::<u8>::empty(), 28, true));
        }
        Ok(false)
    } else if typ == NBD_CMD_FLUSH {
        match data.flush() {
            Err(se) => Err(NbdError::Store(se.code)),
            Ok(()) => {
                let _ = replyt(c, 0, handle);
                c.flush();
                proof {
                    let o1 = reply_bytes(0, handle);
                    assert(step_rel(inc0, d0, data.contents(), o1, 28, false));
                }
                Ok(true)
            },
        }
    } else if typ == NBD_CMD_TRIM || typ == NBD_CMD_WRITE_ZEROES {
        let _ = replyt(c, 38, handle);
        c.flush();
        proof {
            let o1 = reply_bytes(38, handle);
            assert(step_rel(inc0, d0, data.contents(), o1, 28, false));
        }
        Ok(true)
    } else {
        Err(NbdError::UnknownCommand)
    }
}

/// Serve requests until the client disconnects or the session fails.
///
/// Should be used after `handshake`. On a clean disconnect the whole
/// exchange is a [`trans_rel`] session: everything sent, and the store
/// contents before and after, are pinned down by the request bytes received.
/// Success is owed, not merely described: a first frame that is short,
/// mismarked or unknown yields exactly that framing error, and any session
/// the store is certain to serve ([`session_served`], in particular every
/// store-free one, [`storefree_accepted`]) must end in `Ok`.
pub fn transmission<D: BlockStore>(c: &mut Chan, data: &mut D) -> (r: Result<(), NbdError>)
    ensures
        final(c).outgoing().len() >= old(c).outgoing().len(),
        final(c).outgoing().take(old(c).outgoing().len() as int) == old(c).outgoing(),
        ({
            let inc = old(c).incoming();
            &&& (inc.len() < 4 ==> r == Result::<(), NbdError>::Err(NbdError::ShortRead))
            &&& (inc.len() >= 4 && be32(inc.subrange(0, 4)) != REQUEST_MAGIC ==> r == Result::<
                (),
                NbdError,
            >::Err(NbdError::InvalidRequestMagic))
            &&& (4 <= inc.len() < 28 && be32(inc.subrange(0, 4)) == REQUEST_MAGIC ==> r
                == Result::<(), NbdError>::Err(NbdError::ShortRead))
            &&& (req_header_ok(inc) && !req_head_known(inc) ==> r == Result::<(), NbdError>::Err(
                NbdError::UnknownCommand,
            ))
            &&& (storefree_accepted(inc) ==> r is Ok && final(data).contents() == old(
                data,
            ).contents())
            &&& (session_served(inc, old(data).contents(), old(data)) ==> r is Ok)
        }),
        r is Ok ==> exists|o: Seq<u8>|
            {
                &&& final(c).outgoing() == old(c).outgoing() + o
                &&& #[trigger] trans_rel(
                    old(c).incoming(),
                    old(data).contents(),
                    final(data).contents(),
                    o,
                )
            },
{
    broadcast use crate::wire::lemma_concat_prefix, crate::wire::lemma_take_all;

    let ghost inc0 = old(c).incoming();
    let ghost d0 = old(data).contents();
    let ghost out0 = old(c).outgoing();
    let ghost mut acc: Seq<u8> = Seq::<u8>::empty();
    proof {
        assert(out0 + acc =~= out0);
    }
    loop
        invariant
            inc0 == old(c).incoming(),
            d0 == old(data).contents(),
            out0 == old(c).outgoing(),
            c.outgoing() == out0 + acc,
            c.incoming() == inc0 || req_head_known(inc0),
            data.control_infallible() == old(data).control_infallible(),
            data.reads_infallible() == old(data).reads_infallible(),
            data.writes_denied() == old(data).writes_denied(),
            forall|p: int, l: nat| #[trigger]
                data.write_accepted(p, l) == old(data).write_accepted(p, l),
            storefree_accepted(inc0) ==> storefree_accepted(c.incoming()) && data.contents()
                == d0,
            session_served(inc0, d0, old(data)) ==> session_served(
                c.incoming(),
                data.contents(),
                old(data),
            ),
            forall|d3: Seq<u8>, o2: Seq<u8>|
                #![trigger trans_rel(c.incoming(), data.contents(), d3, o2)]
                trans_rel(c.incoming(), data.contents(), d3, o2) ==> trans_rel(
                    inc0,
                    d0,
                    d3,
                    acc + o2,
                ),
        decreases c.incoming().len(),
    {
        let ghost cur = c.incoming();
        let ghost dcur = data.contents();
        let ghost pre_out = c.outgoing();
        match handle_request(c, data) {
            Err(err) => {
                return Err(err);
            },
            Ok(cont) => {
                c.flush();
                proof {
                    let dsc: bool = !cont;
                    let (k, o1) = choose|k: int, o1: Seq<u8>|
                        {
                            &&& 0 < k <= cur.len()
                            &&& c.incoming() == cur.skip(k)
                            &&& c.outgoing() == pre_out + o1
                            &&& #[trigger] step_rel(cur, dcur, data.contents(), o1, k, dsc)
                        };
                    assert(step_rel(cur, dcur, data.contents(), o1, k, dsc));
                    if cur == inc0 {
                        assert(req_head_known(inc0));
                    }
                    if storefree_accepted(inc0) {
                        assert(storefree_accepted(cur));
                        if cont {
                            assert(req_cmd(cur) == NBD_CMD_TRIM || req_cmd(cur)
                                == NBD_CMD_WRITE_ZEROES);
                            assert(k == 28);
                            assert(storefree_accepted(cur.skip(28)));
                        }
                    }
                    if session_served(inc0, d0, old(data)) {
                        assert(session_served(cur, dcur, old(data)));
                        let cmd = req_cmd(cur);
                        if cont {
                            if cmd == NBD_CMD_WRITE {
                                let wlen = req_len(cur) as int;
                                assert(c.incoming() == cur.skip(28 + wlen));
                                assert(session_served(c.incoming(), data.contents(), old(data)));
                            } else {
                                assert(c.incoming() == cur.skip(28));
                                assert(data.contents() == dcur);
                                assert(session_served(c.incoming(), data.contents(), old(data)));
                            }
                        }
                    }
                    if !cont {
                        lemma_trans_rel_disc(cur, dcur, data.contents(), o1, k);
                        assert(trans_rel(inc0, d0, data.contents(), acc + o1));
                        assert(c.outgoing() =~= out0 + (acc + o1));
                    } else {
                        let dnew = data.contents();
                        assert forall|d3: Seq<u8>, o2: Seq<u8>|
                            #![trigger trans_rel(cur.skip(k), dnew, d3, o2)]
                            trans_rel(cur.skip(k), dnew, d3, o2) implies trans_rel(
                            inc0,
                            d0,
                            d3,
                            (acc + o1) + o2,
                        ) by {
                            lemma_trans_rel_step(cur, dcur, dnew, o1, k, d3, o2);
                            assert(trans_rel(inc0, d0, d3, acc + (o1 + o2)));
                            assert(acc + (o1 + o2) =~= (acc + o1) + o2);
                        };
                        acc = acc + o1;
                        assert(c.outgoing() =~= out0 + acc);
                    }
                }
                if !cont {
                    return Ok(());
                }
            },
        }
    }
}

} // verus!
