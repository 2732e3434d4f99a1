//! The memory sink: a bounded writable endpoint that stores each byte it
//! accepts at the next address of a fixed range.
use vstd::prelude::*;
use crate::io::{ErrorKind, Event, Endpoint, Write, write_event, tx_all};

verus! {

/// Byte-addressed storage that the sink writes through. On the target this
/// is a volatile store to a raw address, which the range given to the sink
/// must make safe.
pub trait Memory {
    /// Every store made so far, oldest first, as address and byte.
    spec fn stored(&self) -> Seq<(usize, u8)>;

    /// Stores `byte` at `addr`.
    fn store(&mut self, addr: usize, byte: u8)
        ensures
            final(self).stored() == old(self).stored().push((addr, byte)),
    ;
}

/// The record of stores that `Memory::stored` gives.
pub type Stores = Seq<(usize, u8)>;

/// The stores that put `bytes` at successive addresses from `at`.
pub open spec fn placed(at: usize, bytes: Seq<u8>) -> Seq<(usize, u8)> {
    Seq::new(bytes.len(), |i: int| ((at + i) as usize, bytes[i]))
}

/// A writable endpoint over the addresses `start..end` of `mem`: each byte
/// written goes to the next address, and once `end` is reached every write
/// fails with `UnexpectedEof`.
pub struct MemWrite<M> {
    i: usize,
    start: usize,
    end: usize,
    mem: M,
    log: Ghost<Seq<Event>>,
}

impl<M> MemWrite<M> {
    /// The cursor lies within the range.
    pub closed spec fn wf(&self) -> bool {
        self.start <= self.i <= self.end
    }

    /// The address the next byte goes to.
    pub closed spec fn cursor(&self) -> usize {
        self.i
    }

    /// The first address of the range.
    pub closed spec fn start(&self) -> usize {
        self.start
    }

    /// The address just past the range.
    pub closed spec fn end(&self) -> usize {
        self.end
    }

    /// The memory written through.
    pub closed spec fn memory(&self) -> M {
        self.mem
    }

    /// The address the next byte goes to.
    pub fn position(&self) -> (r: usize)
        ensures
            r == self.cursor(),
    {
        self.i
    }

    /// The memory written through.
    pub fn into_memory(self) -> (r: M)
        ensures
            r == self.memory(),
    {
        self.mem
    }

    /// The number of bytes the sink still accepts.
    pub fn remaining(&self) -> (r: usize)
        requires
            self.wf(),
        ensures
            r == self.end() - self.cursor(),
    {
        self.end - self.i
    }
}

impl<M: Memory> MemWrite<M> {
    /// A sink over the addresses `start..end` of `mem`.
    pub fn new(start: usize, end: usize, mem: M) -> (r: Self)
        requires
            start <= end,
        ensures
            r.wf(),
            r.cursor() == start,
            r.start() == start,
            r.end() == end,
            r.memory() == mem,
            r.trace() == Seq::<Event>::empty(),
    {
        MemWrite { i: start, start, end, mem, log: Ghost(Seq::empty()) }
    }
}

impl<M> Endpoint for MemWrite<M> {
    closed spec fn trace(&self) -> Seq<Event> {
        self.log@
    }

    closed spec fn inv(&self) -> bool {
        self.wf()
    }

    open spec fn origin(&self) -> Seq<u8> {
        Seq::empty()
    }
}

impl<M: Memory> Write for MemWrite<M> {
    /// Stores `byte` at the cursor and advances it, or fails with
    /// `UnexpectedEof` when the range is exhausted.
    fn write_byte(&mut self, byte: u8) -> (r: Result<u8, ErrorKind>)
        ensures
            final(self).start() == old(self).start(),
            final(self).end() == old(self).end(),
            old(self).wf() ==> final(self).wf(),
            r == if old(self).cursor() >= old(self).end() {
                Err::<u8, ErrorKind>(ErrorKind::UnexpectedEof)
            } else {
                Ok::<u8, ErrorKind>(byte)
            },
            final(self).cursor() == if r is Ok {
                old(self).cursor() + 1
            } else {
                old(self).cursor() as int
            },
            final(self).cursor() == cursor_after(old(self).cursor() as int, old(self).end() as int, 1),
            final(self).memory().stored() == if r is Ok {
                old(self).memory().stored().push((old(self).cursor(), byte))
            } else {
                old(self).memory().stored()
            },
    {
        assert(cursor_after(self.i as int, self.end as int, 0) == self.i);
        if self.i >= self.end {
            self.log = Ghost(self.log@.push(Event::Fault(ErrorKind::UnexpectedEof)));
            return Err(ErrorKind::UnexpectedEof);
        }
        self.mem.store(self.i, byte);
        self.i = self.i + 1;
        self.log = Ghost(self.log@.push(Event::Tx(byte)));
        Ok(byte)
    }

    /// Stores all of `buf` from the cursor on; when it does not fit, stores
    /// what fits and fails with `UnexpectedEof`.
    fn write(&mut self, buf: &[u8]) -> (r: Result<usize, ErrorKind>)
        ensures
            final(self).start() == old(self).start(),
            final(self).end() == old(self).end(),
            old(self).wf() ==> final(self).wf(),
            old(self).wf() ==> (r is Ok <==> buf@.len() <= old(self).end() - old(self).cursor()),
            r is Err ==> r == Err::<usize, ErrorKind>(ErrorKind::UnexpectedEof),
            old(self).wf() ==> final(self).cursor() == if r is Ok {
                old(self).cursor() + buf@.len()
            } else {
                old(self).end() as int
            },
            old(self).wf() ==> final(self).memory().stored() == old(self).memory().stored() + placed(
                old(self).cursor(),
                buf@.take(final(self).cursor() - old(self).cursor()),
            ),
    {
        let n = buf.len();
        let mut k: usize = 0;
        while k < n
            invariant
                k <= n == buf@.len(),
                self.start() == old(self).start(),
                self.end() == old(self).end(),
                self.cursor() == old(self).cursor() + k,
                old(self).wf() ==> self.wf(),
                old(self).inv() ==> self.inv(),
                self.origin() == old(self).origin(),
                self.memory().stored() == old(self).memory().stored() + placed(
                    old(self).cursor(),
                    buf@.take(k as int),
                ),
                self.trace() == old(self).trace() + tx_all(buf@.take(k as int)),
            decreases n - k,
        {
            match self.write_byte(buf[k]) {
                Ok(_) => {
                    assert(tx_all(buf@.take(k + 1)) =~= tx_all(buf@.take(k as int)).push(
                        Event::Tx(buf@[k as int]),
                    ));
                    assert(placed(old(self).cursor(), buf@.take(k + 1)) =~= placed(
                        old(self).cursor(),
                        buf@.take(k as int),
                    ).push(((old(self).cursor() + k) as usize, buf@[k as int])));
                    k = k + 1;
                },
                Err(e) => {
                    return Err(e);
                },
            }
        }
        assert(buf@.take(n as int) =~= buf@);
        Ok(n)
    }
}

} // verus!

verus! {

/// The cursor of a sink over `..end` that was at `c`, after `k` more
/// single-byte writes: each write below `end` is accepted and advances it,
/// each at `end` is refused and leaves it.
pub open spec fn cursor_after(c: int, end: int, k: nat) -> int
    decreases k,
{
    if k == 0 {
        c
    } else if cursor_after(c, end, (k - 1) as nat) >= end {
        cursor_after(c, end, (k - 1) as nat)
    } else {
        cursor_after(c, end, (k - 1) as nat) + 1
    }
}

/// A sink over `start..end` accepts exactly `end - start` single-byte
/// writes, which leave its cursor at `end`; every write after them is
/// refused and the cursor stays at `end`.
pub proof fn sink_fills_then_refuses(start: int, end: int, k: nat)
    requires
        start <= end,
    ensures
        k <= end - start ==> cursor_after(start, end, k) == start + k,
        k >= end - start ==> cursor_after(start, end, k) == end,
    decreases k,
{
    if k > 0 {
        sink_fills_then_refuses(start, end, (k - 1) as nat);
    }
}

} // verus!
