//! In-memory endpoints: a buffer read and written at one position, and a
//! channel that reads from one buffer and writes to another. They stand in
//! for a transport, a data source or a sink.
use vstd::prelude::*;
use crate::io::{ErrorKind, Event, Endpoint, Read, Write, rx_all, eof_if};
use crate::mem::{Memory, Stores};
use crate::device::Device;

verus! {

/// A byte buffer that is read and written at one shared position; writing
/// past the end extends it, reading past the end fails with
/// `UnexpectedEof`.
pub struct Cursor {
    buf: Vec<u8>,
    pos: usize,
    first: Ghost<Seq<u8>>,
    log: Ghost<Seq<Event>>,
}

/// The bytes and position of a cursor that started on `first` and then
/// recorded `t`; `None` when `t` is no record a cursor can leave: a byte
/// read that is not the byte at the position, a failure anywhere but at
/// the end, a failed write.
pub open spec fn cursor_replay(first: Seq<u8>, t: Seq<Event>) -> Option<(Seq<u8>, nat)>
    decreases t.len(),
{
    if t.len() == 0 {
        Some((first, 0))
    } else {
        match cursor_replay(first, t.drop_last()) {
            Some((b, p)) => match t.last() {
                Event::Rx(x) => if p < b.len() && b[p as int] == x {
                    Some((b, p + 1))
                } else {
                    None
                },
                Event::Fault(e) => if p >= b.len() && e == ErrorKind::UnexpectedEof {
                    Some((b, p))
                } else {
                    None
                },
                Event::Tx(x) => if p < b.len() {
                    Some((b.update(p as int, x), p + 1))
                } else {
                    Some((b.push(x), b.len() + 1))
                },
                Event::Eof => None,
            },
            None => None,
        }
    }
}

impl Cursor {
    /// The bytes of the buffer.
    pub closed spec fn contents(&self) -> Seq<u8> {
        self.buf@
    }

    /// The position of the next read or write.
    pub closed spec fn at(&self) -> usize {
        self.pos
    }

    /// The bytes the cursor started on.
    pub closed spec fn first(&self) -> Seq<u8> {
        self.first@
    }

    /// A cursor at the start of `buf`.
    pub fn new(buf: Vec<u8>) -> (r: Cursor)
        ensures
            r.contents() == buf@,
            r.at() == 0,
            r.first() == buf@,
            r.trace() == Seq::<Event>::empty(),
            r.inv(),
    {
        Cursor { buf, pos: 0, first: Ghost(buf@), log: Ghost(Seq::empty()) }
    }

    /// The bytes of the buffer.
    pub fn get_ref(&self) -> (r: &Vec<u8>)
        ensures
            r@ == self.contents(),
    {
        &self.buf
    }

    /// The position of the next read or write.
    pub fn position(&self) -> (r: usize)
        ensures
            r == self.at(),
    {
        self.pos
    }
}

impl Endpoint for Cursor {
    closed spec fn trace(&self) -> Seq<Event> {
        self.log@
    }

    /// Replaying the trace on the first bytes gives the bytes and position.
    open spec fn inv(&self) -> bool {
        cursor_replay(self.first(), self.trace()) == Some((self.contents(), self.at() as nat))
    }

    open spec fn origin(&self) -> Seq<u8> {
        self.first()
    }
}

impl Read for Cursor {
    /// The byte at the position, which then advances.
    fn read_byte(&mut self) -> (r: Result<u8, ErrorKind>)
        ensures
            final(self).contents() == old(self).contents(),
            r == if old(self).at() < old(self).contents().len() {
                Ok::<u8, ErrorKind>(old(self).contents()[old(self).at() as int])
            } else {
                Err::<u8, ErrorKind>(ErrorKind::UnexpectedEof)
            },
            final(self).at() == if r is Ok {
                old(self).at() + 1
            } else {
                old(self).at() as int
            },
    {
        let ghost t = self.log@;
        if self.pos < self.buf.len() {
            let b = self.buf[self.pos];
            self.pos = self.pos + 1;
            self.log = Ghost(self.log@.push(Event::Rx(b)));
            assert(self.log@.drop_last() =~= t);
            Ok(b)
        } else {
            self.log = Ghost(self.log@.push(Event::Fault(ErrorKind::UnexpectedEof)));
            assert(self.log@.drop_last() =~= t);
            Err(ErrorKind::UnexpectedEof)
        }
    }
}

impl Write for Cursor {
    /// Overwrites the byte at the position, or appends when the position is
    /// at the end, and advances.
    fn write_byte(&mut self, byte: u8) -> (r: Result<u8, ErrorKind>)
        ensures
            r == Ok::<u8, ErrorKind>(byte),
            old(self).at() < old(self).contents().len() ==> final(self).contents() == old(
                self,
            ).contents().update(old(self).at() as int, byte) && final(self).at() == old(self).at()
                + 1,
            old(self).at() >= old(self).contents().len() ==> final(self).contents() == old(
                self,
            ).contents().push(byte) && final(self).at() == final(self).contents().len(),
    {
        let ghost t = self.log@;
        if self.pos < self.buf.len() {
            self.buf.set(self.pos, byte);
            self.pos = self.pos + 1;
        } else {
            self.buf.push(byte);
            self.pos = self.buf.len();
        }
        self.log = Ghost(self.log@.push(Event::Tx(byte)));
        assert(self.log@.drop_last() =~= t);
        Ok(byte)
    }
}

/// How much of `input` a channel has read and what it has written, after
/// recording `t`; `None` when `t` is no record a channel can leave: a byte
/// read that is not the next input byte, a failure or an `Eof` before the
/// input is used up, a failure other than `TimedOut`.
pub open spec fn channel_replay(input: Seq<u8>, t: Seq<Event>) -> Option<(nat, Seq<u8>)>
    decreases t.len(),
{
    if t.len() == 0 {
        Some((0, Seq::empty()))
    } else {
        match channel_replay(input, t.drop_last()) {
            Some((k, out)) => match t.last() {
                Event::Rx(x) => if k < input.len() && input[k as int] == x {
                    Some((k + 1, out))
                } else {
                    None
                },
                Event::Fault(e) => if k >= input.len() && e == ErrorKind::TimedOut {
                    Some((k, out))
                } else {
                    None
                },
                Event::Eof => if k >= input.len() {
                    Some((k, out))
                } else {
                    None
                },
                Event::Tx(x) => Some((k, out.push(x))),
            },
            None => None,
        }
    }
}

/// A two-way endpoint that reads from `incoming` in order and appends what
/// is written to `outgoing`. Once `incoming` is used up, reading a byte fails
/// with `TimedOut`, as a silent peer on a transport with a timeout would,
/// and a bulk read yields nothing.
pub struct Channel {
    incoming: Vec<u8>,
    taken: usize,
    outgoing: Vec<u8>,
    log: Ghost<Seq<Event>>,
}

impl Channel {
    /// The bytes to be read, from the start.
    pub closed spec fn input(&self) -> Seq<u8> {
        self.incoming@
    }

    /// How many bytes of the input have been read.
    pub closed spec fn taken(&self) -> usize {
        self.taken
    }

    /// The bytes written so far.
    pub closed spec fn output(&self) -> Seq<u8> {
        self.outgoing@
    }

    /// No more of the input has been read than there is.
    pub closed spec fn wf(&self) -> bool {
        self.taken <= self.incoming@.len()
    }

    /// A channel that will read `incoming` and has written nothing.
    pub fn new(incoming: Vec<u8>) -> (r: Channel)
        ensures
            r.input() == incoming@,
            r.taken() == 0,
            r.output() == Seq::<u8>::empty(),
            r.trace() == Seq::<Event>::empty(),
            r.wf(),
            r.inv(),
    {
        Channel { incoming, taken: 0, outgoing: Vec::new(), log: Ghost(Seq::empty()) }
    }

    /// The bytes written so far.
    pub fn sent(&self) -> (r: &Vec<u8>)
        ensures
            r@ == self.output(),
    {
        &self.outgoing
    }

    /// How many bytes of the input have been read.
    pub fn consumed(&self) -> (r: usize)
        ensures
            r == self.taken(),
    {
        self.taken
    }
}

impl Endpoint for Channel {
    closed spec fn trace(&self) -> Seq<Event> {
        self.log@
    }

    /// Replaying the trace on the input gives what was read and written.
    open spec fn inv(&self) -> bool {
        channel_replay(self.input(), self.trace()) == Some((self.taken() as nat, self.output()))
    }

    open spec fn origin(&self) -> Seq<u8> {
        self.input()
    }
}

impl Read for Channel {
    /// The next byte of the input.
    fn read_byte(&mut self) -> (r: Result<u8, ErrorKind>)
        ensures
            final(self).input() == old(self).input(),
            final(self).output() == old(self).output(),
            r == if old(self).taken() < old(self).input().len() {
                Ok::<u8, ErrorKind>(old(self).input()[old(self).taken() as int])
            } else {
                Err::<u8, ErrorKind>(ErrorKind::TimedOut)
            },
            final(self).taken() == if r is Ok {
                old(self).taken() + 1
            } else {
                old(self).taken() as int
            },
            old(self).wf() ==> final(self).wf(),
    {
        let ghost t = self.log@;
        if self.taken < self.incoming.len() {
            let b = self.incoming[self.taken];
            self.taken = self.taken + 1;
            self.log = Ghost(self.log@.push(Event::Rx(b)));
            assert(self.log@.drop_last() =~= t);
            Ok(b)
        } else {
            self.log = Ghost(self.log@.push(Event::Fault(ErrorKind::TimedOut)));
            assert(self.log@.drop_last() =~= t);
            Err(ErrorKind::TimedOut)
        }
    }

    /// Copies as much of the rest of the input as fits into `buf`.
    fn read(&mut self, buf: &mut [u8]) -> (r: Result<usize, ErrorKind>)
        ensures
            final(self).input() == old(self).input(),
            final(self).output() == old(self).output(),
            old(self).wf() ==> final(self).wf(),
            old(self).wf() ==> (r matches Ok(n) && n == if old(buf)@.len() + old(self).taken() <= old(self).input().len() {
                old(buf)@.len() as int
            } else {
                old(self).input().len() - old(self).taken()
            } && final(buf)@.take(n as int) == old(self).input().subrange(
                old(self).taken() as int,
                old(self).taken() + n,
            ) && final(self).taken() == old(self).taken() + n),
    {
        let mut i: usize = 0;
        let ghost b0 = buf@;
        while i < buf.len() && self.taken < self.incoming.len()
            invariant
                self.incoming@ == old(self).input(),
                self.outgoing@ == old(self).output(),
                self.taken == old(self).taken() + i,
                i <= buf@.len() == b0.len(),
                b0 == old(buf)@,
                old(self).wf() ==> self.taken <= self.incoming@.len(),
                old(self).wf() ==> buf@.take(i as int) == self.incoming@.subrange(old(self).taken() as int, self.taken as int),
                !old(self).wf() ==> i == 0,
                buf@.skip(i as int) == b0.skip(i as int),
                self.log@ == old(self).trace() + rx_all(buf@.take(i as int)),
                old(self).inv() ==> self.inv(),
                self.origin() == old(self).origin(),
            decreases buf@.len() - i,
        {
            let b = self.incoming[self.taken];
            let ghost before = buf@;
            buf[i] = b;
            proof {
                assert(buf@.take(i + 1) =~= before.take(i as int).push(b));
                assert(rx_all(buf@.take(i + 1)) =~= rx_all(before.take(i as int)).push(Event::Rx(b)));
                assert(buf@.skip(i + 1) =~= before.skip(i as int).skip(1));
                assert(b0.skip(i + 1) =~= b0.skip(i as int).skip(1));
                assert(self.incoming@.subrange(old(self).taken() as int, self.taken + 1) =~= self.incoming@.subrange(old(self).taken() as int, self.taken as int).push(b));
            }
            let ghost t = self.log@;
            self.taken = self.taken + 1;
            self.log = Ghost(self.log@.push(Event::Rx(b)));
            assert(self.log@.drop_last() =~= t);
            i = i + 1;
        }
        if i == 0 && buf.len() > 0 {
            let ghost t = self.log@;
            self.log = Ghost(self.log@.push(Event::Eof));
            assert(self.log@.drop_last() =~= t);
        }
        assert(self.log@ =~= old(self).trace() + rx_all(buf@.take(i as int)) + eof_if(
            i == 0 && old(buf)@.len() > 0,
        ));
        Ok(i)
    }
}

impl Write for Channel {
    /// Appends `byte` to the output.
    fn write_byte(&mut self, byte: u8) -> (r: Result<u8, ErrorKind>)
        ensures
            r == Ok::<u8, ErrorKind>(byte),
            final(self).input() == old(self).input(),
            final(self).taken() == old(self).taken(),
            final(self).output() == old(self).output().push(byte),
            old(self).wf() ==> final(self).wf(),
    {
        let ghost t = self.log@;
        self.outgoing.push(byte);
        self.log = Ghost(self.log@.push(Event::Tx(byte)));
        assert(self.log@.drop_last() =~= t);
        Ok(byte)
    }
}

} // verus!

verus! {

/// Memory of `cells.len()` bytes at the addresses from `base` on; stores
/// outside that range change nothing but the record.
pub struct Ram {
    base: usize,
    cells: Vec<u8>,
    log: Ghost<Stores>,
}

impl Ram {
    /// The first address.
    pub closed spec fn base(&self) -> usize {
        self.base
    }

    /// The bytes held, from `base` on.
    pub closed spec fn bytes(&self) -> Seq<u8> {
        self.cells@
    }

    /// `len` zero bytes at the addresses from `base` on, with no store made.
    pub fn new(base: usize, len: usize) -> (r: Ram)
        ensures
            r.base() == base,
            r.bytes() == Seq::new(len as nat, |i: int| 0u8),
            r.stored() == Seq::<(usize, u8)>::empty(),
    {
        let cells = vec![0u8; len];
        assert(cells@ =~= Seq::new(len as nat, |i: int| 0u8));
        Ram { base, cells, log: Ghost(Seq::empty()) }
    }

    /// The bytes held, from `base` on.
    pub fn cells(&self) -> (r: &Vec<u8>)
        ensures
            r@ == self.bytes(),
    {
        &self.cells
    }
}

impl Memory for Ram {
    closed spec fn stored(&self) -> Stores {
        self.log@
    }

    fn store(&mut self, addr: usize, byte: u8)
        ensures
            final(self).base() == old(self).base(),
            final(self).bytes() == if old(self).base() <= addr < old(self).base() + old(
                self,
            ).bytes().len() {
                old(self).bytes().update(addr - old(self).base(), byte)
            } else {
                old(self).bytes()
            },
    {
        if addr >= self.base && addr - self.base < self.cells.len() {
            let at = addr - self.base;
            self.cells.set(at, byte);
        }
        self.log = Ghost(self.log@.push((addr, byte)));
    }
}

} // verus!

verus! {

impl Device for Channel {
    closed spec fn history(&self) -> Seq<Event> {
        self.log@
    }

    /// The next byte of the input, as `read_byte` gives it.
    fn recv(&mut self) -> (r: Result<u8, ErrorKind>) {
        self.read_byte()
    }

    /// Appends `byte` to the output.
    fn send(&mut self, byte: u8) -> (r: Result<(), ErrorKind>) {
        match self.write_byte(byte) {
            Ok(_) => Ok(()),
            Err(e) => Err(e),
        }
    }
}

} // verus!
