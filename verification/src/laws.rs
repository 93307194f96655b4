//! The laws the two sides obey together: what the client sends is exactly
//! what the server's specification parses, the server's replies are exactly
//! what the client accepts, a write then a read at the same offset gives the
//! bytes back, the advertised flags survive the handshake round trip, and a
//! session of seeks, writes and reads behaves exactly like a local file.

use vstd::prelude::*;

use crate::Export;
use crate::client::{client_hello_bytes, effective_len, export_from, newstyle_ok, reply_ok,
    request_bytes};
use crate::consts::{NBDMAGIC, IHAVEOPT, REQUEST_MAGIC, REPLY_MAGIC, NBD_FLAG_C_FIXED_NEWSTYLE,
    NBD_OPT_EXPORT_NAME, NBD_CMD_READ, NBD_CMD_WRITE, NBD_CMD_DISC};
use crate::server::{export_block_bytes, greeting_bytes, hs_spec, lemma_trans_rel_disc,
    lemma_trans_rel_step, reply_bytes, step_rel, trans_rel, transmission_flags};
use crate::store::store_write;
use crate::wire::{be16, be32, be64, lemma_be16_roundtrip, lemma_be32_roundtrip,
    lemma_be64_roundtrip, u16_bytes, u32_bytes, u64_bytes, zeros};

verus! {

/// A request frame the client encodes decodes back to its fields, and its
/// payload sits right after the 28 header bytes.
pub proof fn lemma_request_roundtrip(cmd: u16, offset: u64, len: u32, payload: Seq<u8>)
    ensures
        ({
            let m = request_bytes(cmd, offset, len) + payload;
            &&& m.len() == 28 + payload.len()
            &&& be32(m.subrange(0, 4)) == REQUEST_MAGIC
            &&& be16(m.subrange(4, 6)) == 0
            &&& be16(m.subrange(6, 8)) == cmd
            &&& be64(m.subrange(8, 16)) == 0
            &&& be64(m.subrange(16, 24)) == offset
            &&& be32(m.subrange(24, 28)) == len
            &&& m.subrange(28, 28 + payload.len() as int) == payload
        }),
{
    let m = request_bytes(cmd, offset, len) + payload;
    assert(m.subrange(0, 4) =~= u32_bytes(REQUEST_MAGIC));
    assert(m.subrange(4, 6) =~= u16_bytes(0));
    assert(m.subrange(6, 8) =~= u16_bytes(cmd));
    assert(m.subrange(8, 16) =~= u64_bytes(0));
    assert(m.subrange(16, 24) =~= u64_bytes(offset));
    assert(m.subrange(24, 28) =~= u32_bytes(len));
    assert(m.subrange(28, 28 + payload.len() as int) =~= payload);
    lemma_be32_roundtrip(REQUEST_MAGIC);
    lemma_be16_roundtrip(0);
    lemma_be16_roundtrip(cmd);
    lemma_be64_roundtrip(0);
    lemma_be64_roundtrip(offset);
    lemma_be32_roundtrip(len);
}

/// A simple reply frame the server encodes decodes back to its error code
/// and handle; with error 0 and handle 0 it is exactly what the client
/// accepts, whatever follows it.
pub proof fn lemma_reply_roundtrip(error: u32, handle: u64, rest: Seq<u8>)
    ensures
        ({
            let m = reply_bytes(error, handle) + rest;
            &&& m.len() == 16 + rest.len()
            &&& be32(m.subrange(0, 4)) == REPLY_MAGIC
            &&& be32(m.subrange(4, 8)) == error
            &&& be64(m.subrange(8, 16)) == handle
            &&& m.skip(16) == rest
            &&& (error == 0 && handle == 0 ==> reply_ok(m))
        }),
{
    let m = reply_bytes(error, handle) + rest;
    assert(m.subrange(0, 4) =~= u32_bytes(REPLY_MAGIC));
    assert(m.subrange(4, 8) =~= u32_bytes(error));
    assert(m.subrange(8, 16) =~= u64_bytes(handle));
    assert(m.skip(16) =~= rest);
    lemma_be32_roundtrip(REPLY_MAGIC);
    lemma_be32_roundtrip(error);
    lemma_be64_roundtrip(handle);
}

/// The WRITE request a client session emits at cursor `pos` is served by the
/// server as one step that splices the payload into the store at `pos` and
/// answers with the success reply the client accepts.
pub proof fn lemma_write_served(d: Seq<u8>, pos: u64, size: u64, buf: Seq<u8>)
    requires
        pos <= size,
        effective_len(pos, size, buf.len() as int) > 0,
    ensures
        ({
            let n = effective_len(pos, size, buf.len() as int) as int;
            let m = request_bytes(NBD_CMD_WRITE, pos, effective_len(
                pos,
                size,
                buf.len() as int,
            )) + buf.take(n);
            &&& step_rel(m, d, store_write(d, pos as int, buf.take(n)), reply_bytes(0, 0), 28 + n,
                false,
            )
            &&& reply_ok(reply_bytes(0, 0))
        }),
{
    let nw = effective_len(pos, size, buf.len() as int);
    let n = nw as int;
    let m = request_bytes(NBD_CMD_WRITE, pos, nw) + buf.take(n);
    lemma_request_roundtrip(NBD_CMD_WRITE, pos, nw, buf.take(n));
    lemma_reply_roundtrip(0, 0, Seq::<u8>::empty());
    assert(reply_bytes(0, 0) + Seq::<u8>::empty() =~= reply_bytes(0, 0));
    assert(m.subrange(28, 28 + n) =~= buf.take(n));
}

/// The READ request a client session emits at cursor `pos` within the data
/// is served by the server as one step that leaves the store alone and
/// answers with the success reply and exactly the bytes at `[pos, pos + n)`.
pub proof fn lemma_read_served(d: Seq<u8>, pos: u64, size: u64, buflen: int)
    requires
        pos <= size,
        size == d.len(),
        effective_len(pos, size, buflen) > 0,
    ensures
        ({
            let n = effective_len(pos, size, buflen) as int;
            let m = request_bytes(NBD_CMD_READ, pos, effective_len(pos, size, buflen));
            &&& pos + n <= d.len()
            &&& step_rel(m, d, d, reply_bytes(0, 0) + d.subrange(pos as int, pos + n), 28, false)
            &&& reply_ok(reply_bytes(0, 0) + d.subrange(pos as int, pos + n))
        }),
{
    let nw = effective_len(pos, size, buflen);
    let n = nw as int;
    let m = request_bytes(NBD_CMD_READ, pos, nw);
    assert(request_bytes(NBD_CMD_READ, pos, nw) + Seq::<u8>::empty() =~= m);
    lemma_request_roundtrip(NBD_CMD_READ, pos, nw, Seq::<u8>::empty());
    lemma_reply_roundtrip(0, 0, d.subrange(pos as int, pos + n));
}

/// Writing `buf` and then reading the same range gives `buf` back: the bytes
/// just written are what a read at the same offset returns.
pub proof fn lemma_write_then_read(d: Seq<u8>, pos: int, buf: Seq<u8>)
    requires
        0 <= pos,
        buf.len() > 0 || pos <= d.len(),
    ensures
        store_write(d, pos, buf).subrange(pos, pos + buf.len()) == buf,
{
    assert(store_write(d, pos, buf).subrange(pos, pos + buf.len()) =~= buf);
}

/// A write changes nothing outside the written range (within the old data).
pub proof fn lemma_write_frame(d: Seq<u8>, pos: int, buf: Seq<u8>, i: int)
    requires
        0 <= pos,
        0 <= i < d.len(),
        !(pos <= i < pos + buf.len()),
    ensures
        store_write(d, pos, buf)[i] == d[i],
{
}

/// At the very end of the device a read or write moves no bytes, and just
/// before it, with room in the buffer, it moves exactly the bytes that are
/// left.
pub proof fn lemma_effective_len_near_end(pos: u64, size: u64, buflen: int)
    requires
        pos <= size,
        0 <= buflen,
    ensures
        pos == size ==> effective_len(pos, size, buflen) == 0,
        size - pos <= buflen && size - pos <= 0xFFFF_FFFF ==> effective_len(pos, size, buflen)
            == size - pos,
        effective_len(pos, size, buflen) <= buflen,
        pos + effective_len(pos, size, buflen) <= size,
{
}

/// The flags a server advertises for an export decode back to that export:
/// the handshake carries every feature bit faithfully. `send_flush` is not
/// its own wire bit but the complement of `readonly`, so only exports with
/// `send_flush == !readonly` survive unchanged.
pub proof fn lemma_flags_roundtrip(e: Export)
    requires
        e.send_flush == !e.readonly,
    ensures
        export_from(e.size, transmission_flags(e)) == e,
{
    let a: u16 = if e.readonly {
        2
    } else {
        4
    };
    let b: u16 = if e.resizeable {
        512
    } else {
        0
    };
    let c: u16 = if e.rotational {
        16
    } else {
        0
    };
    let t: u16 = if e.send_trim {
        32
    } else {
        0
    };
    let f = transmission_flags(e);
    assert(forall|x: u16| #[trigger] (x | 0u16) == x) by (bit_vector);
    let f1: u16 = if e.readonly {
        1u16 | 2u16
    } else {
        1u16 | 4u16
    };
    let f2: u16 = if e.resizeable {
        f1 | 512u16
    } else {
        f1
    };
    let f3: u16 = if e.rotational {
        f2 | 16u16
    } else {
        f2
    };
    let f4: u16 = if e.send_trim {
        f3 | 32u16
    } else {
        f3
    };
    assert(f == f4);
    assert(f1 == 1u16 | a);
    assert(f2 == f1 | b);
    assert(f3 == f2 | c);
    assert(f4 == f3 | t);
    assert(f == (((1u16 | a) | b) | c) | t);
    assert({
        let w = (((1u16 | a) | b) | c) | t;
        &&& w & 1u16 != 0
        &&& (w & 2u16 != 0 <==> a == 2)
        &&& (w & 4u16 != 0 <==> a == 4)
        &&& (w & 512u16 != 0 <==> b == 512)
        &&& (w & 16u16 != 0 <==> c == 16)
        &&& (w & 32u16 != 0 <==> t == 32)
    }) by (bit_vector)
        requires
            a == 2 || a == 4,
            b == 0 || b == 512,
            c == 0 || c == 16,
            t == 0 || t == 32,
    ;
}

/// The two handshakes applied to opposite ends of a pipe hand the client
/// the server's export: the server accepts the client's hello and answers
/// with the greeting and export block, the client accepts those bytes, and
/// what it decodes from them is the export the server was given. Holds for
/// every combination of the advertised flags; `send_flush` is not its own
/// wire bit but the complement of `readonly`, hence the requirement.
pub proof fn lemma_handshake_roundtrip(e: Export, name: Seq<u8>)
    requires
        name.len() <= 100000,
        e.send_flush == !e.readonly,
    ensures
        ({
            let server_out = greeting_bytes() + export_block_bytes(e);
            &&& hs_spec(client_hello_bytes(name), e) == Some(
                (20 + name.len() as int, export_block_bytes(e)),
            )
            &&& newstyle_ok(server_out)
            &&& export_from(
                be64(server_out.subrange(18, 26)),
                be16(server_out.subrange(26, 28)),
            ) == e
        }),
{
    lemma_flags_roundtrip(e);
    let server_out = greeting_bytes() + export_block_bytes(e);
    assert(server_out.subrange(0, 8) =~= u64_bytes(NBDMAGIC));
    assert(server_out.subrange(8, 16) =~= u64_bytes(IHAVEOPT));
    assert(server_out.subrange(18, 26) =~= u64_bytes(e.size));
    assert(server_out.subrange(26, 28) =~= u16_bytes(transmission_flags(e)));
    assert(server_out.subrange(28, 152) =~= zeros(124));
    lemma_be64_roundtrip(NBDMAGIC);
    lemma_be64_roundtrip(IHAVEOPT);
    lemma_be64_roundtrip(e.size);
    lemma_be16_roundtrip(transmission_flags(e));
    lemma_client_hello_accepted(e, name);
}

/// The bytes the client handshake sends (its flags and one `EXPORT_NAME`
/// option) are a client byte sequence the server handshake accepts.
pub proof fn lemma_client_hello_accepted(e: Export, name: Seq<u8>)
    requires
        name.len() <= 100000,
    ensures
        hs_spec(client_hello_bytes(name), e) == Some(
            (20 + name.len() as int, export_block_bytes(e)),
        ),
{
    let m = client_hello_bytes(name);
    assert(m.subrange(0, 4) =~= u32_bytes(NBD_FLAG_C_FIXED_NEWSTYLE));
    lemma_be32_roundtrip(NBD_FLAG_C_FIXED_NEWSTYLE);
    let opts = m.skip(4);
    assert(opts.subrange(0, 8) =~= u64_bytes(IHAVEOPT));
    assert(opts.subrange(8, 12) =~= u32_bytes(NBD_OPT_EXPORT_NAME));
    assert(opts.subrange(12, 16) =~= u32_bytes(name.len() as u32));
    lemma_be64_roundtrip(IHAVEOPT);
    lemma_be32_roundtrip(NBD_OPT_EXPORT_NAME);
    lemma_be32_roundtrip(name.len() as u32);
    assert(opts.len() == 16 + name.len());
}


/// One operation of an ordered-access session, as a value.
pub ghost enum SessionOp {
    /// Set the cursor.
    Seek { pos: u64 },
    /// Write the front of `data`, as much of it as fits before the end.
    Write { data: Seq<u8> },
    /// Read up to `buflen` bytes.
    Read { buflen: int },
}

/// The bounds under which one request moves everything asked for: seeks stay
/// within the device and buffers fit a 32-bit length.
pub open spec fn op_bounded(op: SessionOp, size: u64) -> bool {
    match op {
        SessionOp::Seek { pos } => pos <= size,
        SessionOp::Write { data } => data.len() <= 0xFFFF_FFFF,
        SessionOp::Read { buflen } => 0 <= buflen <= 0xFFFF_FFFF,
    }
}

pub open spec fn ops_bounded(ops: Seq<SessionOp>, size: u64) -> bool {
    forall|i: int| 0 <= i < ops.len() ==> op_bounded(#[trigger] ops[i], size)
}

/// What one operation does to a plain local byte array with a cursor, and
/// the bytes a read hands back: ordinary seekable-file semantics, written
/// without any of the session's own functions.
pub open spec fn local_step(d: Seq<u8>, pos: u64, size: u64, op: SessionOp) -> (
    Seq<u8>,
    u64,
    Seq<u8>,
)
    recommends
        pos <= size,
        size == d.len(),
{
    match op {
        SessionOp::Seek { pos: p } => (d, p, Seq::<u8>::empty()),
        SessionOp::Write { data } => {
            let n: int = if data.len() <= size - pos {
                data.len() as int
            } else {
                size - pos
            };
            (
                d.take(pos as int) + data.take(n) + d.skip(pos + n),
                (pos + n) as u64,
                Seq::<u8>::empty(),
            )
        },
        SessionOp::Read { buflen } => {
            let n: int = if buflen <= size - pos {
                buflen
            } else {
                size - pos
            };
            (d, (pos + n) as u64, d.subrange(pos as int, pos + n))
        },
    }
}

/// What one operation does through the session: the cursor and transfer
/// length come from the client's contracts ([`effective_len`]), the store
/// change and the read payload from the server's ([`step_rel`], by
/// [`lemma_write_served`] and [`lemma_read_served`]).
pub open spec fn session_step(d: Seq<u8>, pos: u64, size: u64, op: SessionOp) -> (
    Seq<u8>,
    u64,
    Seq<u8>,
)
    recommends
        pos <= size,
        size == d.len(),
{
    match op {
        SessionOp::Seek { pos: p } => (d, p, Seq::<u8>::empty()),
        SessionOp::Write { data } => {
            let n = effective_len(pos, size, data.len() as int) as int;
            (store_write(d, pos as int, data.take(n)), (pos + n) as u64, Seq::<u8>::empty())
        },
        SessionOp::Read { buflen } => {
            let n = effective_len(pos, size, buflen) as int;
            (d, (pos + n) as u64, d.subrange(pos as int, pos + n))
        },
    }
}

/// Run a whole sequence of operations in the local model; the third
/// component collects what each operation's read returned.
pub open spec fn local_run(d: Seq<u8>, pos: u64, size: u64, ops: Seq<SessionOp>) -> (
    Seq<u8>,
    u64,
    Seq<Seq<u8>>,
)
    decreases ops.len(),
{
    if ops.len() == 0 {
        (d, pos, Seq::<Seq<u8>>::empty())
    } else {
        let s = local_step(d, pos, size, ops[0]);
        let rest = local_run(s.0, s.1, size, ops.skip(1));
        (rest.0, rest.1, seq![s.2] + rest.2)
    }
}

/// Run a whole sequence of operations through the session semantics.
pub open spec fn session_run(d: Seq<u8>, pos: u64, size: u64, ops: Seq<SessionOp>) -> (
    Seq<u8>,
    u64,
    Seq<Seq<u8>>,
)
    decreases ops.len(),
{
    if ops.len() == 0 {
        (d, pos, Seq::<Seq<u8>>::empty())
    } else {
        let s = session_step(d, pos, size, ops[0]);
        let rest = session_run(s.0, s.1, size, ops.skip(1));
        (rest.0, rest.1, seq![s.2] + rest.2)
    }
}

/// One bounded operation behaves through the session exactly as on the local
/// file, and keeps the state within bounds.
pub proof fn lemma_session_step_matches_local(d: Seq<u8>, pos: u64, size: u64, op: SessionOp)
    requires
        pos <= size,
        size == d.len(),
        op_bounded(op, size),
    ensures
        session_step(d, pos, size, op) == local_step(d, pos, size, op),
        session_step(d, pos, size, op).0.len() == size,
        session_step(d, pos, size, op).1 <= size,
{
    match op {
        SessionOp::Seek { .. } => {},
        SessionOp::Write { data } => {
            let n = effective_len(pos, size, data.len() as int) as int;
            assert(n == if data.len() <= size - pos {
                data.len() as int
            } else {
                size - pos
            });
            assert(store_write(d, pos as int, data.take(n)) =~= d.take(pos as int) + data.take(n)
                + d.skip(pos + n));
        },
        SessionOp::Read { buflen } => {
            let n = effective_len(pos, size, buflen) as int;
            assert(n == if buflen <= size - pos {
                buflen
            } else {
                size - pos
            });
        },
    }
}

/// Any bounded sequence of seeks, writes and reads behaves through the
/// session exactly as on the local file: the byte spaces end identical and
/// every read returns the same bytes in both.
pub proof fn lemma_session_run_matches_local(d: Seq<u8>, pos: u64, size: u64, ops: Seq<SessionOp>)
    requires
        pos <= size,
        size == d.len(),
        ops_bounded(ops, size),
    ensures
        session_run(d, pos, size, ops) == local_run(d, pos, size, ops),
    decreases ops.len(),
{
    if ops.len() > 0 {
        assert(op_bounded(ops[0], size));
        lemma_session_step_matches_local(d, pos, size, ops[0]);
        let s = session_step(d, pos, size, ops[0]);
        assert forall|i: int| 0 <= i < ops.skip(1).len() implies op_bounded(
            #[trigger] ops.skip(1)[i],
            size,
        ) by {
            assert(ops.skip(1)[i] == ops[i + 1]);
        };
        lemma_session_run_matches_local(s.0, s.1, size, ops.skip(1));
    }
}


/// A whole server session of one READ and a disconnect hands back exactly
/// the bytes at `[pos, pos + n)` and leaves the store untouched.
pub proof fn lemma_read_session(d: Seq<u8>, pos: u64, size: u64, buflen: int)
    requires
        0 <= buflen,
        pos <= size,
        size == d.len(),
        effective_len(pos, size, buflen) > 0,
    ensures
        ({
            let n = effective_len(pos, size, buflen) as int;
            let input = request_bytes(NBD_CMD_READ, pos, effective_len(pos, size, buflen))
                + request_bytes(NBD_CMD_DISC, 0, 0);
            trans_rel(input, d, d, reply_bytes(0, 0) + d.subrange(pos as int, pos + n))
        }),
{
    let nw = effective_len(pos, size, buflen);
    let n = nw as int;
    let disc = request_bytes(NBD_CMD_DISC, 0, 0);
    let input = request_bytes(NBD_CMD_READ, pos, nw) + disc;
    let o1 = reply_bytes(0, 0) + d.subrange(pos as int, pos + n);
    lemma_request_roundtrip(NBD_CMD_READ, pos, nw, disc);
    lemma_effective_len_near_end(pos, size, buflen);
    assert(step_rel(input, d, d, o1, 28, false));
    assert(input.skip(28) =~= disc + Seq::<u8>::empty());
    lemma_request_roundtrip(NBD_CMD_DISC, 0, 0, Seq::<u8>::empty());
    assert(step_rel(input.skip(28), d, d, Seq::<u8>::empty(), 28, true));
    lemma_trans_rel_disc(input.skip(28), d, d, Seq::<u8>::empty(), 28);
    lemma_trans_rel_step(input, d, d, o1, 28, d, Seq::<u8>::empty());
    assert(o1 + Seq::<u8>::empty() =~= o1);
}

/// A whole server session of one WRITE and a disconnect splices the payload
/// into the store at `pos` and answers with the one success reply.
pub proof fn lemma_write_session(d: Seq<u8>, pos: u64, size: u64, buf: Seq<u8>)
    requires
        pos <= size,
        size == d.len(),
        effective_len(pos, size, buf.len() as int) > 0,
    ensures
        ({
            let n = effective_len(pos, size, buf.len() as int) as int;
            let input = request_bytes(NBD_CMD_WRITE, pos, effective_len(
                pos,
                size,
                buf.len() as int,
            )) + buf.take(n) + request_bytes(NBD_CMD_DISC, 0, 0);
            trans_rel(input, d, store_write(d, pos as int, buf.take(n)), reply_bytes(0, 0))
        }),
{
    let nw = effective_len(pos, size, buf.len() as int);
    let n = nw as int;
    let disc = request_bytes(NBD_CMD_DISC, 0, 0);
    let input = request_bytes(NBD_CMD_WRITE, pos, nw) + buf.take(n) + disc;
    let d2 = store_write(d, pos as int, buf.take(n));
    let o1 = reply_bytes(0, 0);
    assert(input =~= request_bytes(NBD_CMD_WRITE, pos, nw) + (buf.take(n) + disc));
    lemma_request_roundtrip(NBD_CMD_WRITE, pos, nw, buf.take(n) + disc);
    assert(input.subrange(28, 28 + n) =~= buf.take(n));
    assert(step_rel(input, d, d2, o1, 28 + n, false));
    assert(input.skip(28 + n) =~= disc + Seq::<u8>::empty());
    lemma_request_roundtrip(NBD_CMD_DISC, 0, 0, Seq::<u8>::empty());
    assert(step_rel(input.skip(28 + n), d2, d2, Seq::<u8>::empty(), 28, true));
    lemma_trans_rel_disc(input.skip(28 + n), d2, d2, Seq::<u8>::empty(), 28);
    lemma_trans_rel_step(input, d, d2, o1, 28 + n, d2, Seq::<u8>::empty());
    assert(o1 + Seq::<u8>::empty() =~= o1);
}

} // verus!
