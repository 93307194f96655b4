//! The byte-stream transport model: a pair of byte queues.
//!
//! `Chan` stands for one end of a bidirectional stream. Bytes already
//! received from the peer sit in the incoming queue; bytes the protocol code
//! produces accumulate in the outgoing queue. An application shuttles bytes
//! between a real socket and the two queues with [`Chan::feed`] and
//! [`Chan::take_outgoing`]. Reading past the end of the incoming queue is a
//! [`NbdError::ShortRead`], the model of EOF in the middle of a frame.

use vstd::prelude::*;

use crate::error::NbdError;
use crate::wire::{be16, be32, be64, u16_bytes, u32_bytes, u64_bytes, be16_of, be32_of, be64_of,
    push_u16_be, push_u32_be, push_u64_be, zeros};

verus! {

/// One end of a bidirectional byte stream.
pub struct Chan {
    rx: Vec<u8>,
    rx_pos: usize,
    tx: Vec<u8>,
}

impl Chan {
    /// The consumed prefix of the receive queue, clamped to its length.
    spec fn pos(self) -> int {
        if self.rx_pos <= self.rx@.len() {
            self.rx_pos as int
        } else {
            self.rx@.len() as int
        }
    }

    /// The bytes received from the peer and not consumed yet.
    pub closed spec fn incoming(self) -> Seq<u8> {
        self.rx@.skip(self.pos())
    }

    /// The bytes produced for the peer so far.
    pub closed spec fn outgoing(self) -> Seq<u8> {
        self.tx@
    }

    /// A channel whose incoming queue holds `input`, with nothing sent yet.
    pub fn new(input: Vec<u8>) -> (r: Chan)
        ensures
            r.incoming() == input@,
            r.outgoing() == Seq::<u8>::empty(),
    {
        let r = Chan { rx: input, rx_pos: 0, tx: Vec::new() };
        proof {
            assert(r.incoming() =~= r.rx@);
        }
        r
    }

    /// Append bytes received from the peer to the incoming queue.
    pub fn feed(&mut self, more: &[u8])
        ensures
            final(self).incoming() == old(self).incoming() + more@,
            final(self).outgoing() == old(self).outgoing(),
    {
        // keep the consumed prefix within bounds, so the new bytes land
        // after everything incoming() already holds
        if self.rx_pos > self.rx.len() {
            self.rx_pos = self.rx.len();
        }
        let ghost base = *self;
        let mut i: usize = 0;
        while i < more.len()
            invariant
                i <= more@.len(),
                base.incoming() == old(self).incoming(),
                base.outgoing() == old(self).outgoing(),
                base.rx_pos <= base.rx@.len(),
                self.rx_pos == base.rx_pos,
                self.rx@ == base.rx@ + more@.take(i as int),
                self.tx@ == base.tx@,
            decreases more@.len() - i,
        {
            self.rx.push(more[i]);
            i = i + 1;
            proof {
                assert(self.rx@ =~= base.rx@ + more@.take(i as int));
            }
        }
        proof {
            assert(more@.take(more@.len() as int) =~= more@);
            assert(self.incoming() =~= old(self).incoming() + more@);
        }
    }

    /// How many incoming bytes are available.
    pub fn available(&self) -> (r: usize)
        ensures
            r == self.incoming().len(),
    {
        if self.rx_pos <= self.rx.len() {
            self.rx.len() - self.rx_pos
        } else {
            0
        }
    }

    /// Hand out everything produced so far and clear the outgoing queue.
    pub fn take_outgoing(&mut self) -> (r: Vec<u8>)
        ensures
            r@ == old(self).outgoing(),
            final(self).outgoing() == Seq::<u8>::empty(),
            final(self).incoming() == old(self).incoming(),
    {
        let mut t: Vec<u8> = Vec::new();
        core::mem::swap(&mut t, &mut self.tx);
        t
    }

    /// Consume exactly `n` incoming bytes, or fail with `ShortRead` (and
    /// consume nothing) when fewer are available.
    pub fn read_bytes(&mut self, n: usize) -> (r: Result<Vec<u8>, NbdError>)
        ensures
            final(self).outgoing() == old(self).outgoing(),
            match r {
                Ok(v) => {
                    &&& old(self).incoming().len() >= n
                    &&& v@ == old(self).incoming().take(n as int)
                    &&& v@.len() == n
                    &&& final(self).incoming() == old(self).incoming().skip(n as int)
                },
                Err(e) => {
                    &&& e == NbdError::ShortRead
                    &&& old(self).incoming().len() < n
                    &&& final(self).incoming() == old(self).incoming()
                },
            },
    {
        let start = if self.rx_pos <= self.rx.len() {
            self.rx_pos
        } else {
            self.rx.len()
        };
        if self.rx.len() - start < n {
            return Err(NbdError::ShortRead);
        }
        let mut v: Vec<u8> = Vec::new();
        let mut i: usize = 0;
        while i < n
            invariant
                i <= n,
                self.rx@ == old(self).rx@,
                self.rx_pos == old(self).rx_pos,
                self.tx@ == old(self).tx@,
                start == self.pos(),
                n <= self.rx@.len() - start,
                start + n <= usize::MAX,
                v@ == self.incoming().take(i as int),
            decreases n - i,
        {
            v.push(self.rx[start + i]);
            i = i + 1;
            proof {
                assert(v@ =~= self.incoming().take(i as int));
            }
        }
        self.rx_pos = start + n;
        proof {
            assert(self.incoming() =~= old(self).incoming().skip(n as int));
        }
        Ok(v)
    }

    /// Append bytes to the outgoing queue. The model never refuses a write.
    pub fn write_bytes(&mut self, b: &[u8])
        ensures
            final(self).outgoing() == old(self).outgoing() + b@,
            final(self).incoming() == old(self).incoming(),
    {
        let mut i: usize = 0;
        while i < b.len()
            invariant
                i <= b@.len(),
                self.rx@ == old(self).rx@,
                self.rx_pos == old(self).rx_pos,
                self.tx@ == old(self).tx@ + b@.take(i as int),
            decreases b@.len() - i,
        {
            self.tx.push(b[i]);
            i = i + 1;
            proof {
                assert(self.tx@ =~= old(self).tx@ + b@.take(i as int));
            }
        }
        proof {
            assert(b@.take(b@.len() as int) =~= b@);
        }
    }

    /// Append `n` zero bytes to the outgoing queue.
    pub fn write_zeros(&mut self, n: usize)
        ensures
            final(self).outgoing() == old(self).outgoing() + zeros(n as nat),
            final(self).incoming() == old(self).incoming(),
    {
        let mut i: usize = 0;
        while i < n
            invariant
                i <= n,
                self.rx@ == old(self).rx@,
                self.rx_pos == old(self).rx_pos,
                self.tx@ == old(self).tx@ + zeros(i as nat),
            decreases n - i,
        {
            self.tx.push(0u8);
            i = i + 1;
            proof {
                assert(self.tx@ =~= old(self).tx@ + zeros(i as nat));
            }
        }
    }

    /// Flushing the model is a no-op; a real stream flushes its buffers here.
    pub fn flush(&mut self)
        ensures
            final(self).outgoing() == old(self).outgoing(),
            final(self).incoming() == old(self).incoming(),
    {
    }

    /// Read a big-endian `u16` from the incoming queue.
    pub fn read_u16(&mut self) -> (r: Result<u16, NbdError>)
        ensures
            final(self).outgoing() == old(self).outgoing(),
            match r {
                Ok(x) => {
                    &&& old(self).incoming().len() >= 2
                    &&& x == be16(old(self).incoming().take(2))
                    &&& final(self).incoming() == old(self).incoming().skip(2)
                },
                Err(e) => {
                    &&& e == NbdError::ShortRead
                    &&& old(self).incoming().len() < 2
                    &&& final(self).incoming() == old(self).incoming()
                },
            },
    {
        let v = self.read_bytes(2)?;
        Ok(be16_of(v.as_slice()))
    }

    /// Read a big-endian `u32` from the incoming queue.
    pub fn read_u32(&mut self) -> (r: Result<u32, NbdError>)
        ensures
            final(self).outgoing() == old(self).outgoing(),
            match r {
                Ok(x) => {
                    &&& old(self).incoming().len() >= 4
                    &&& x == be32(old(self).incoming().take(4))
                    &&& final(self).incoming() == old(self).incoming().skip(4)
                },
                Err(e) => {
                    &&& e == NbdError::ShortRead
                    &&& old(self).incoming().len() < 4
                    &&& final(self).incoming() == old(self).incoming()
                },
            },
    {
        let v = self.read_bytes(4)?;
        Ok(be32_of(v.as_slice()))
    }

    /// Read a big-endian `u64` from the incoming queue.
    pub fn read_u64(&mut self) -> (r: Result<u64, NbdError>)
        ensures
            final(self).outgoing() == old(self).outgoing(),
            match r {
                Ok(x) => {
                    &&& old(self).incoming().len() >= 8
                    &&& x == be64(old(self).incoming().take(8))
                    &&& final(self).incoming() == old(self).incoming().skip(8)
                },
                Err(e) => {
                    &&& e == NbdError::ShortRead
                    &&& old(self).incoming().len() < 8
                    &&& final(self).incoming() == old(self).incoming()
                },
            },
    {
        let v = self.read_bytes(8)?;
        Ok(be64_of(v.as_slice()))
    }

    /// Write a big-endian `u16` to the outgoing queue.
    pub fn write_u16(&mut self, x: u16)
        ensures
            final(self).outgoing() == old(self).outgoing() + u16_bytes(x),
            final(self).incoming() == old(self).incoming(),
    {
        push_u16_be(&mut self.tx, x);
    }

    /// Write a big-endian `u32` to the outgoing queue.
    pub fn write_u32(&mut self, x: u32)
        ensures
            final(self).outgoing() == old(self).outgoing() + u32_bytes(x),
            final(self).incoming() == old(self).incoming(),
    {
        push_u32_be(&mut self.tx, x);
    }

    /// Write a big-endian `u64` to the outgoing queue.
    pub fn write_u64(&mut self, x: u64)
        ensures
            final(self).outgoing() == old(self).outgoing() + u64_bytes(x),
            final(self).incoming() == old(self).incoming(),
    {
        push_u64_be(&mut self.tx, x);
    }
}

} // verus!
