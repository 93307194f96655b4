//! The server's backing storage: an ordered random-access byte container.
//!
//! [`BlockStore`] abstracts "something providing seeks, sequential reads and
//! writes, and flush on a byte space", the collaborator a server serves.
//! A store may fail at any point, the way a real device would; the
//! contracts only pin down what a successful call did. [`MemStore`] is the
//! in-memory implementation, [`ReadOnlyMemStore`] its write-refusing twin.

use vstd::prelude::*;

verus! {

/// A failure of the backing store.
#[derive(Debug, Clone, Copy, PartialEq, Eq, Structural)]
pub struct StoreError {
    /// Raw OS error code; 0 when none is known.
    pub code: u32,
    /// True when the operation was merely interrupted and should be retried.
    pub interrupted: bool,
}

/// The contents of `data` after writing `buf` at position `pos`, padding
/// with zeros when `pos` lies beyond the end (a sparse write).
pub open spec fn store_write(data: Seq<u8>, pos: int, buf: Seq<u8>) -> Seq<u8>
    recommends
        0 <= pos,
{
    let end = if buf.len() > 0 && pos + buf.len() > data.len() {
        pos + buf.len()
    } else {
        data.len() as int
    };
    Seq::new(
        end as nat,
        |i: int|
            if pos <= i < pos + buf.len() {
                buf[i - pos]
            } else if i < data.len() {
                data[i]
            } else {
                0u8
            },
    )
}

/// A seekable byte container driven by the server's transmission loop.
///
/// `contents()` is the byte space, `cursor()` the current position. A `seek`
/// past the end is legal; reading there yields no bytes and writing there
/// pads with zeros. Any method may fail; a failed `seek`, `read_some` or
/// `flush` leaves the store as it was, while a failed `write_all` may have
/// applied part of the write.
///
/// An implementation also says which failures it rules out, through the
/// compliance predicates ([`control_infallible`] and friends): where they
/// hold, success is part of the contract, and the server's dispatcher owes
/// success in turn. A store that cannot make such promises sets them false
/// and loses nothing but those guarantees.
///
/// [`control_infallible`]: BlockStore::control_infallible
pub trait BlockStore {
    /// The bytes the store holds.
    spec fn contents(&self) -> Seq<u8>;

    /// The current read/write position.
    spec fn cursor(&self) -> int;

    /// Whether seeks and flushes on this store always succeed.
    spec fn control_infallible(&self) -> bool;

    /// Whether reads at the cursor always succeed and deliver everything
    /// available up to the asked length.
    spec fn reads_infallible(&self) -> bool;

    /// Whether a write of `len` bytes at position `pos` is certain to
    /// succeed.
    spec fn write_accepted(&self, pos: int, len: nat) -> bool;

    /// Whether every nonempty write is refused with code 1 (`EPERM`): the
    /// store backing a read-only export.
    spec fn writes_denied(&self) -> bool;

    /// A write certain to succeed stays certain on any part of its range.
    proof fn write_accepted_sub(&self, pos: int, len: nat, pos2: int, len2: nat)
        requires
            self.write_accepted(pos, len),
            pos <= pos2,
            pos2 + len2 <= pos + len,
        ensures
            self.write_accepted(pos2, len2),
    ;

    /// Move the cursor to `pos`.
    fn seek(&mut self, pos: u64) -> (r: Result<(), StoreError>)
        ensures
            final(self).contents() == old(self).contents(),
            r is Ok ==> final(self).cursor() == pos,
            r is Err ==> final(self).cursor() == old(self).cursor(),
            old(self).control_infallible() ==> r is Ok,
            final(self).control_infallible() == old(self).control_infallible(),
            final(self).reads_infallible() == old(self).reads_infallible(),
            final(self).writes_denied() == old(self).writes_denied(),
            forall|p: int, l: nat| #[trigger]
                final(self).write_accepted(p, l) == old(self).write_accepted(p, l),
    ;

    /// Read up to `max` bytes at the cursor. Zero bytes come back only at
    /// end of data (or when `max` is zero).
    fn read_some(&mut self, max: usize) -> (r: Result<Vec<u8>, StoreError>)
        ensures
            final(self).contents() == old(self).contents(),
            match r {
                Ok(v) => {
                    &&& v@.len() <= max
                    &&& final(self).cursor() == old(self).cursor() + v@.len()
                    &&& 0 <= old(self).cursor() <= old(self).contents().len() ==> {
                        &&& old(self).cursor() + v@.len() <= old(self).contents().len()
                        &&& v@ == old(self).contents().subrange(
                            old(self).cursor(),
                            old(self).cursor() + v@.len(),
                        )
                        &&& v@.len() == 0 ==> max == 0 || old(self).cursor()
                            == old(self).contents().len()
                    }
                    &&& old(self).cursor() > old(self).contents().len() ==> v@.len() == 0
                },
                Err(_) => final(self).cursor() == old(self).cursor(),
            },
            old(self).reads_infallible() ==> r is Ok,
            (old(self).reads_infallible() && 0 <= old(self).cursor() <= old(
                self,
            ).contents().len()) ==> (r matches Ok(v) && v@.len() == if max
                <= old(self).contents().len() - old(self).cursor() {
                max as int
            } else {
                old(self).contents().len() - old(self).cursor()
            }),
            final(self).control_infallible() == old(self).control_infallible(),
            final(self).reads_infallible() == old(self).reads_infallible(),
            final(self).writes_denied() == old(self).writes_denied(),
            forall|p: int, l: nat| #[trigger]
                final(self).write_accepted(p, l) == old(self).write_accepted(p, l),
    ;

    /// Write all of `buf` at the cursor, extending the byte space as needed.
    fn write_all(&mut self, buf: &[u8]) -> (r: Result<(), StoreError>)
        ensures
            r is Ok ==> 0 <= old(self).cursor() ==> {
                &&& final(self).contents() == store_write(
                    old(self).contents(),
                    old(self).cursor(),
                    buf@,
                )
                &&& final(self).cursor() == old(self).cursor() + buf@.len()
            },
            old(self).write_accepted(old(self).cursor(), buf@.len()) ==> r is Ok,
            old(self).writes_denied() ==> r == Result::<(), StoreError>::Err(
                StoreError { code: 1, interrupted: false },
            ) && final(self).contents() == old(self).contents(),
            final(self).control_infallible() == old(self).control_infallible(),
            final(self).reads_infallible() == old(self).reads_infallible(),
            final(self).writes_denied() == old(self).writes_denied(),
            forall|p: int, l: nat| #[trigger]
                final(self).write_accepted(p, l) == old(self).write_accepted(p, l),
    ;

    /// Flush buffered writes to their destination.
    fn flush(&mut self) -> (r: Result<(), StoreError>)
        ensures
            final(self).contents() == old(self).contents(),
            final(self).cursor() == old(self).cursor(),
            old(self).control_infallible() ==> r is Ok,
            final(self).control_infallible() == old(self).control_infallible(),
            final(self).reads_infallible() == old(self).reads_infallible(),
            final(self).writes_denied() == old(self).writes_denied(),
            forall|p: int, l: nat| #[trigger]
                final(self).write_accepted(p, l) == old(self).write_accepted(p, l),
    ;
}

/// An in-memory byte store: the byte space is a `Vec`, and nothing fails
/// except a write that would not fit in memory.
pub struct MemStore {
    data: Vec<u8>,
    pos: u64,
}

impl MemStore {
    /// A store holding `data`, with the cursor at the start.
    pub fn new(data: Vec<u8>) -> (r: MemStore)
        ensures
            r.contents() == data@,
            r.cursor() == 0,
    {
        MemStore { data, pos: 0 }
    }

    /// The byte space, for inspection after a session.
    pub fn data(&self) -> (r: &Vec<u8>)
        ensures
            r@ == self.contents(),
    {
        &self.data
    }
}

impl BlockStore for MemStore {
    closed spec fn contents(&self) -> Seq<u8> {
        self.data@
    }

    closed spec fn cursor(&self) -> int {
        self.pos as int
    }

    open spec fn control_infallible(&self) -> bool {
        true
    }

    open spec fn reads_infallible(&self) -> bool {
        true
    }

    open spec fn write_accepted(&self, pos: int, len: nat) -> bool {
        0 <= pos && pos + len <= usize::MAX
    }

    open spec fn writes_denied(&self) -> bool {
        false
    }

    proof fn write_accepted_sub(&self, pos: int, len: nat, pos2: int, len2: nat) {
    }

    fn seek(&mut self, pos: u64) -> (r: Result<(), StoreError>) {
        self.pos = pos;
        Ok(())
    }

    fn read_some(&mut self, max: usize) -> (r: Result<Vec<u8>, StoreError>) {
        let len = self.data.len();
        if self.pos >= len as u64 {
            return Ok(Vec::new());
        }
        let start = self.pos as usize;
        let n = if max < len - start {
            max
        } else {
            len - start
        };
        let mut v: Vec<u8> = Vec::new();
        let mut i: usize = 0;
        while i < n
            invariant
                i <= n,
                start + n <= self.data@.len(),
                start + n <= usize::MAX,
                self.data@ == old(self).data@,
                self.pos == old(self).pos,
                start == self.pos,
                v@ == self.data@.subrange(start as int, start + i),
            decreases n - i,
        {
            v.push(self.data[start + i]);
            i = i + 1;
            proof {
                assert(v@ =~= self.data@.subrange(start as int, start + i));
            }
        }
        self.pos = self.pos + n as u64;
        Ok(v)
    }

    fn write_all(&mut self, buf: &[u8]) -> (r: Result<(), StoreError>) {
        if buf.len() == 0 {
            proof {
                assert(store_write(self.data@, self.pos as int, buf@) =~= self.data@);
            }
            return Ok(());
        }
        if self.pos > usize::MAX as u64 {
            return Err(StoreError { code: 28, interrupted: false });
        }
        let p = self.pos as usize;
        if buf.len() > usize::MAX - p {
            return Err(StoreError { code: 28, interrupted: false });
        }
        while self.data.len() < p
            invariant
                p <= usize::MAX,
                self.pos == old(self).pos,
                self.data@.len() <= p ==> self.data@ == old(self).data@ + crate::wire::zeros(
                    (self.data@.len() - old(self).data@.len()) as nat,
                ),
                self.data@.len() >= old(self).data@.len(),
                self.data@.len() > p ==> self.data@ == old(self).data@,
            decreases p - self.data@.len(),
        {
            self.data.push(0u8);
            proof {
                assert(self.data@ =~= old(self).data@ + crate::wire::zeros(
                    (self.data@.len() - old(self).data@.len()) as nat,
                ));
            }
        }
        let ghost padded = self.data@;
        let mut i: usize = 0;
        while i < buf.len()
            invariant
                i <= buf@.len(),
                p + buf@.len() <= usize::MAX,
                self.pos == old(self).pos,
                p <= padded.len(),
                self.data@.len() == if p + i > padded.len() {
                    p + i
                } else {
                    padded.len() as int
                },
                forall|j: int|
                    0 <= j < self.data@.len() ==> self.data@[j] == if p <= j < p + i {
                        buf@[j - p]
                    } else {
                        padded[j]
                    },
            decreases buf@.len() - i,
        {
            if p + i < self.data.len() {
                self.data.set(p + i, buf[i]);
            } else {
                self.data.push(buf[i]);
            }
            i = i + 1;
        }
        self.pos = (p + buf.len()) as u64;
        proof {
            lemma_store_write_from_padded(old(self).data@, padded, p as int, buf@, self.data@);
        }
        Ok(())
    }

    fn flush(&mut self) -> (r: Result<(), StoreError>) {
        Ok(())
    }
}

/// Splicing `buf` into the zero-padded contents matches `store_write` on the
/// contents before padding.
proof fn lemma_store_write_from_padded(
    orig: Seq<u8>,
    padded: Seq<u8>,
    p: int,
    buf: Seq<u8>,
    result: Seq<u8>,
)
    requires
        0 <= p,
        buf.len() > 0,
        orig.len() <= padded.len(),
        padded.len() == if p > orig.len() {
            p
        } else {
            orig.len() as int
        },
        forall|j: int| 0 <= j < orig.len() ==> padded[j] == orig[j],
        forall|j: int| orig.len() <= j < padded.len() ==> padded[j] == 0u8,
        result.len() == if p + buf.len() > padded.len() {
            p + buf.len()
        } else {
            padded.len() as int
        },
        forall|j: int|
            0 <= j < result.len() ==> result[j] == if p <= j < p + buf.len() {
                buf[j - p]
            } else {
                padded[j]
            },
    ensures
        result == store_write(orig, p, buf),
{
    assert(result =~= store_write(orig, p, buf));
}


/// A read-only view of an in-memory store: seeks, reads and flushes behave
/// like [`MemStore`], and every write fails with code 1 (`EPERM`), the way a
/// store backing a read-only export refuses writes.
pub struct ReadOnlyMemStore {
    inner: MemStore,
}

impl ReadOnlyMemStore {
    /// A read-only store holding `data`, with the cursor at the start.
    pub fn new(data: Vec<u8>) -> (r: ReadOnlyMemStore)
        ensures
            r.contents() == data@,
            r.cursor() == 0,
    {
        ReadOnlyMemStore { inner: MemStore::new(data) }
    }

    /// The byte space, for inspection after a session.
    pub fn data(&self) -> (r: &Vec<u8>)
        ensures
            r@ == self.contents(),
    {
        self.inner.data()
    }
}

impl BlockStore for ReadOnlyMemStore {
    closed spec fn contents(&self) -> Seq<u8> {
        self.inner.contents()
    }

    closed spec fn cursor(&self) -> int {
        self.inner.cursor()
    }

    open spec fn control_infallible(&self) -> bool {
        true
    }

    open spec fn reads_infallible(&self) -> bool {
        true
    }

    open spec fn write_accepted(&self, pos: int, len: nat) -> bool {
        false
    }

    open spec fn writes_denied(&self) -> bool {
        true
    }

    proof fn write_accepted_sub(&self, pos: int, len: nat, pos2: int, len2: nat) {
    }

    fn seek(&mut self, pos: u64) -> (r: Result<(), StoreError>) {
        self.inner.seek(pos)
    }

    fn read_some(&mut self, max: usize) -> (r: Result<Vec<u8>, StoreError>) {
        self.inner.read_some(max)
    }

    fn write_all(&mut self, buf: &[u8]) -> (r: Result<(), StoreError>) {
        Err(StoreError { code: 1, interrupted: false })
    }

    fn flush(&mut self) -> (r: Result<(), StoreError>) {
        self.inner.flush()
    }
}

} // verus!
