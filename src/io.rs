//! Byte-endpoint capabilities: an error taxonomy, the record of what an
//! endpoint has exchanged, and the `Read` / `Write` contracts.
use vstd::prelude::*;
use crate::protocol::gained;
use crate::stream::lemma_fault_parts;

verus! {

/// Kinds of I/O failure.
#[derive(Clone, Copy, Debug, PartialEq, Eq, Structural)]
pub enum ErrorKind {
    NotFound,
    PermissionDenied,
    ConnectionRefused,
    ConnectionReset,
    ConnectionAborted,
    NotConnected,
    AddrInUse,
    AddrNotAvailable,
    BrokenPipe,
    AlreadyExists,
    WouldBlock,
    InvalidInput,
    InvalidData,
    TimedOut,
    WriteZero,
    Interrupted,
    Other,
    UnexpectedEof,
}

/// One byte-level exchange on an endpoint.
#[derive(Clone, Copy, Debug, PartialEq, Eq, Structural)]
pub enum Event {
    /// A byte was read.
    Rx(u8),
    /// A byte was written.
    Tx(u8),
    /// A single-byte read or write failed with this kind.
    Fault(ErrorKind),
    /// A bulk read found nothing left to read.
    Eof,
}

/// The `Eof` a bulk read leaves when it yields nothing into a buffer that
/// had room (`empty`).
pub open spec fn eof_if(empty: bool) -> Seq<Event> {
    if empty {
        seq![Event::Eof]
    } else {
        Seq::empty()
    }
}

/// How many faults of kind `e` the events `t` hold.
pub open spec fn fault_count(t: Seq<Event>, e: ErrorKind) -> nat
    decreases t.len(),
{
    if t.len() == 0 {
        0
    } else {
        fault_count(t.drop_last(), e) + if t.last() == Event::Fault(e) {
            1nat
        } else {
            0nat
        }
    }
}

/// Counting faults over `a + b` is counting over `a`, then over `b`.
pub proof fn lemma_fault_count_concat(a: Seq<Event>, b: Seq<Event>, e: ErrorKind)
    ensures
        fault_count(a + b, e) == fault_count(a, e) + fault_count(b, e),
    decreases b.len(),
{
    if b.len() == 0 {
        assert(a + b =~= a);
    } else {
        lemma_fault_count_concat(a, b.drop_last(), e);
        assert((a + b).drop_last() =~= a + b.drop_last());
    }
}

/// The events of reading the bytes `s` in order.
pub open spec fn rx_all(s: Seq<u8>) -> Seq<Event> {
    s.map_values(|b: u8| Event::Rx(b))
}

/// The events of writing the bytes `s` in order.
pub open spec fn tx_all(s: Seq<u8>) -> Seq<Event> {
    s.map_values(|b: u8| Event::Tx(b))
}

/// The event that a single-byte read with result `r` leaves behind.
pub open spec fn read_event(r: Result<u8, ErrorKind>) -> Event {
    match r {
        Ok(b) => Event::Rx(b),
        Err(e) => Event::Fault(e),
    }
}

/// The event that writing `byte` with result `r` leaves behind.
pub open spec fn write_event(byte: u8, r: Result<u8, ErrorKind>) -> Event {
    match r {
        Ok(_) => Event::Tx(byte),
        Err(e) => Event::Fault(e),
    }
}

/// Whether `t` holds a fault of kind `e`.
pub open spec fn has_fault(t: Seq<Event>, e: ErrorKind) -> bool {
    exists|i: int| 0 <= i < t.len() && t[i] == Event::Fault(e)
}

/// Something with a history of byte-level exchanges.
pub trait Endpoint {
    /// Every exchange this endpoint has performed, oldest first.
    spec fn trace(&self) -> Seq<Event>;

    /// The endpoint's state agrees with its trace. Every method of `Read`
    /// and `Write` keeps it.
    spec fn inv(&self) -> bool;

    /// The bytes an in-memory endpoint began with, which its trace is
    /// replayed on; empty for others. Every method of `Read` and `Write`
    /// keeps it.
    spec fn origin(&self) -> Seq<u8>;
}

/// The readable capability.
pub trait Read: Endpoint {
    /// Reads one byte.
    fn read_byte(&mut self) -> (r: Result<u8, ErrorKind>)
        ensures
            final(self).trace() == old(self).trace().push(read_event(r)),
            old(self).inv() ==> final(self).inv(),
            final(self).origin() == old(self).origin(),
    ;

    /// Reads into a prefix of `buf` and returns its length. The provided
    /// method fills the whole buffer one byte at a time and fails on the
    /// first error; an endpoint may return fewer bytes, `0` when it has none
    /// left, which it records as `Eof`.
    fn read(&mut self, buf: &mut [u8]) -> (r: Result<usize, ErrorKind>)
        ensures
            final(buf)@.len() == old(buf)@.len(),
            old(self).inv() ==> final(self).inv(),
            final(self).origin() == old(self).origin(),
            r matches Ok(n) ==> n <= old(buf)@.len() && final(self).trace() == old(self).trace()
                + rx_all(final(buf)@.take(n as int)) + eof_if(n == 0 && old(buf)@.len() > 0)
                && final(buf)@.skip(n as int) == old(buf)@.skip(n as int),
            r matches Err(e) ==> exists|k: int|
                0 <= k <= old(buf)@.len() && final(self).trace() == old(self).trace() + rx_all(
                    final(buf)@.take(k),
                ).push(Event::Fault(e)),
        default_ensures
            r matches Ok(n) ==> n == old(buf)@.len(),
    {
        let n = buf.len();
        let mut i: usize = 0;
        while i < n
            invariant
                i <= n == buf@.len() == old(buf)@.len(),
                self.trace() == old(self).trace() + rx_all(buf@.take(i as int)),
                old(self).inv() ==> self.inv(),
                self.origin() == old(self).origin(),
                buf@.skip(i as int) == old(buf)@.skip(i as int),
            decreases n - i,
        {
            let ghost t0 = self.trace();
            let ghost b0 = buf@;
            match self.read_byte() {
                Ok(b) => {
                    buf[i] = b;
                    assert(buf@.take(i + 1) =~= b0.take(i as int).push(b));
                    assert(rx_all(buf@.take(i + 1)) =~= rx_all(b0.take(i as int)).push(Event::Rx(b)));
                    assert(buf@.skip(i + 1) =~= b0.skip(i as int).skip(1));
                    assert(old(buf)@.skip(i + 1) =~= old(buf)@.skip(i as int).skip(1));
                    i = i + 1;
                },
                Err(e) => {
                    return Err(e);
                },
            }
        }
        assert(buf@.take(n as int) =~= buf@);
        assert(self.trace() =~= old(self).trace() + rx_all(buf@.take(n as int)) + eof_if(
            n == 0 && old(buf)@.len() > 0,
        ));
        Ok(n)
    }
}

/// The writable capability.
pub trait Write: Endpoint {
    /// Writes one byte and returns it.
    fn write_byte(&mut self, byte: u8) -> (r: Result<u8, ErrorKind>)
        ensures
            r matches Ok(b) ==> b == byte,
            final(self).trace() == old(self).trace().push(write_event(byte, r)),
            old(self).inv() ==> final(self).inv(),
            final(self).origin() == old(self).origin(),
    ;

    /// Writes all of `buf` one byte at a time, failing on the first error.
    fn write(&mut self, buf: &[u8]) -> (r: Result<usize, ErrorKind>)
        ensures
            old(self).inv() ==> final(self).inv(),
            final(self).origin() == old(self).origin(),
            r matches Ok(n) ==> n == buf@.len() && final(self).trace() == old(self).trace()
                + tx_all(buf@),
            r matches Err(e) ==> exists|k: int|
                0 <= k < buf@.len() && final(self).trace() == old(self).trace() + tx_all(
                    buf@.take(k),
                ).push(Event::Fault(e)),
    {
        let n = buf.len();
        let mut i: usize = 0;
        while i < n
            invariant
                i <= n == buf@.len(),
                self.trace() == old(self).trace() + tx_all(buf@.take(i as int)),
                old(self).inv() ==> self.inv(),
                self.origin() == old(self).origin(),
            decreases n - i,
        {
            match self.write_byte(buf[i]) {
                Ok(_) => {
                    assert(tx_all(buf@.take(i + 1)) =~= tx_all(buf@.take(i as int)).push(
                        Event::Tx(buf@[i as int]),
                    ));
                    i = i + 1;
                },
                Err(e) => {
                    return Err(e);
                },
            }
        }
        assert(buf@.take(n as int) =~= buf@);
        Ok(n)
    }

    /// Ensures that everything written has reached its destination; the
    /// provided method has nothing buffered.
    fn flush(&mut self) -> (r: Result<(), ErrorKind>)
        ensures
            final(self).trace() == old(self).trace(),
            final(self).inv() == old(self).inv(),
            final(self).origin() == old(self).origin(),
    {
        Ok(())
    }
}

/// One `read` that `read_max` made: bytes it got, or bytes it read before
/// the read failed with `Interrupted`, which are then read over.
pub enum Piece {
    Got(Seq<u8>),
    Lost(Seq<u8>),
}

/// The events of the reads `ps`.
pub open spec fn pieces_events(ps: Seq<Piece>) -> Seq<Event>
    decreases ps.len(),
{
    if ps.len() == 0 {
        Seq::empty()
    } else {
        pieces_events(ps.drop_last()) + match ps.last() {
            Piece::Got(x) => rx_all(x),
            Piece::Lost(x) => rx_all(x).push(Event::Fault(ErrorKind::Interrupted)),
        }
    }
}

/// The bytes the reads `ps` got, in order.
pub open spec fn pieces_data(ps: Seq<Piece>) -> Seq<u8>
    decreases ps.len(),
{
    if ps.len() == 0 {
        Seq::empty()
    } else {
        pieces_data(ps.drop_last()) + match ps.last() {
            Piece::Got(x) => x,
            Piece::Lost(_) => Seq::empty(),
        }
    }
}

/// How many consecutive interruptions `read_max` absorbs before it passes
/// one on.
pub const INTERRUPT_LIMIT: u64 = 0xffff_ffff_ffff_ffff;

/// Reading until a buffer is full or the source is exhausted.
pub trait ReadExt: Read {
    /// Fills `buf` from the front by repeated `read`s until it is full or a
    /// read yields nothing, absorbing `Interrupted` failures, and returns how
    /// many bytes were filled.
    fn read_max(&mut self, buf: &mut [u8]) -> (r: Result<usize, ErrorKind>)
        ensures
            final(buf)@.len() == old(buf)@.len(),
            old(self).inv() ==> final(self).inv(),
            final(self).origin() == old(self).origin(),
            old(self).trace().is_prefix_of(final(self).trace()),
            r matches Ok(n) ==> {
                let g = gained(old(self).trace(), final(self).trace());
                &&& n <= old(buf)@.len()
                &&& final(buf)@.skip(n as int) == old(buf)@.skip(n as int)
                &&& n < old(buf)@.len() ==> g.len() > 0 && g.last() == Event::Eof
                &&& !has_fault(g, ErrorKind::Interrupted) ==> g == rx_all(final(buf)@.take(n as int))
                    + eof_if(n < old(buf)@.len())
                &&& exists|ps: Seq<Piece>|
                    #[trigger] pieces_events(ps) + eof_if(n < old(buf)@.len()) == g
                        && pieces_data(ps) == final(buf)@.take(n as int)
            },
            r matches Err(e) ==> {
                let g = gained(old(self).trace(), final(self).trace());
                &&& g.len() > 0
                &&& g.last() == Event::Fault(e)
                &&& e == ErrorKind::Interrupted ==> fault_count(g, e) > INTERRUPT_LIMIT
                &&& exists|ps: Seq<Piece>, y: Seq<u8>|
                    #[trigger] pieces_events(ps) + #[trigger] rx_all(y).push(Event::Fault(e)) == g
            },
    {
        let len = buf.len();
        let mut filled: usize = 0;
        let mut interrupts: u64 = 0;
        let ghost t0 = self.trace();
        let ghost mut ps: Seq<Piece> = Seq::empty();
        proof {
            assert(gained(t0, t0) =~= pieces_events(ps));
            assert(buf@.take(0) =~= pieces_data(ps));
        }
        while filled < len
            invariant
                filled <= len == buf@.len() == old(buf)@.len(),
                t0 == old(self).trace(),
                t0.is_prefix_of(self.trace()),
                buf@.skip(filled as int) == old(buf)@.skip(filled as int),
                !has_fault(gained(t0, self.trace()), ErrorKind::Interrupted) ==> gained(t0, self.trace()) == rx_all(buf@.take(filled as int)),
                fault_count(gained(t0, self.trace()), ErrorKind::Interrupted) >= interrupts,
                gained(t0, self.trace()) == pieces_events(ps),
                buf@.take(filled as int) == pieces_data(ps),
                old(self).inv() ==> self.inv(),
                self.origin() == old(self).origin(),
            decreases len - filled, INTERRUPT_LIMIT - interrupts,
        {
            let room: usize = len - filled;
            let mut window = vec![0u8; room];
            let ghost t1 = self.trace();
            let ghost b1 = buf@;
            match self.read(window.as_mut_slice()) {
                Ok(0) => {
                    assert(rx_all(window@.take(0)) =~= Seq::<Event>::empty());
                    assert(self.trace() =~= t1.push(Event::Eof));
                    assert(gained(t0, self.trace()) =~= gained(t0, t1).push(Event::Eof));
                    proof {
                        lemma_fault_parts(gained(t0, t1), seq![Event::Eof], ErrorKind::Interrupted);
                        assert(gained(t0, t1) + seq![Event::Eof] =~= gained(t0, t1).push(Event::Eof));
                        assert(rx_all(buf@.take(filled as int)) + eof_if(true) =~= rx_all(buf@.take(filled as int)).push(Event::Eof));
                        assert(pieces_events(ps) + eof_if(true) =~= gained(t0, self.trace()));
                    }
                    return Ok(filled);
                },
                Ok(n) => {
                    let mut j: usize = 0;
                    while j < n
                        invariant
                            j <= n <= window@.len() == len - filled,
                            filled + n <= len == buf@.len(),
                            buf@.take(filled as int) == b1.take(filled as int),
                            buf@.skip(filled + n) == b1.skip(filled + n),
                            buf@.subrange(filled as int, filled + j) == window@.take(j as int),
                        decreases n - j,
                    {
                        buf[filled + j] = window[j];
                        assert(buf@.subrange(filled as int, filled + j + 1) =~= window@.take(j + 1));
                        j = j + 1;
                    }
                    proof {
                        let tn = self.trace();
                        assert(tn == t1 + rx_all(window@.take(n as int)));
                        lemma_fault_count_concat(gained(t0, t1), rx_all(window@.take(n as int)), ErrorKind::Interrupted);
                        assert(gained(t0, tn) =~= gained(t0, t1) + rx_all(window@.take(n as int)));
                        assert(buf@.take(filled + n) =~= buf@.take(filled as int) + buf@.subrange(filled as int, filled + n));
                        assert(rx_all(buf@.take(filled + n)) =~= rx_all(b1.take(filled as int)) + rx_all(window@.take(n as int)));
                        assert(buf@.skip(filled + n) =~= old(buf)@.skip(filled + n)) by {
                            assert(b1.skip(filled as int).skip(n as int) =~= b1.skip(filled + n));
                            assert(old(buf)@.skip(filled as int).skip(n as int) =~= old(buf)@.skip(filled + n));
                        }
                        if !has_fault(gained(t0, tn), ErrorKind::Interrupted) {
                            assert forall|i: int| 0 <= i < gained(t0, t1).len() implies gained(t0, t1)[i] != Event::Fault(ErrorKind::Interrupted) by {
                                assert(gained(t0, tn)[i] == gained(t0, t1)[i]);
                            }
                        }
                    }
                    proof {
                        let x = window@.take(n as int);
                        let ps2 = ps.push(Piece::Got(x));
                        assert(ps2.drop_last() =~= ps);
                        assert(gained(t0, self.trace()) =~= pieces_events(ps2));
                        assert(buf@.take(filled + n) =~= pieces_data(ps2));
                        ps = ps2;
                    }
                    filled = filled + n;
                    interrupts = 0;
                },
                Err(e) => {
                    let ghost tn = self.trace();
                    let ghost k = choose|k: int| 0 <= k <= window@.len() && tn == t1 + rx_all(window@.take(k)).push(Event::Fault(e));
                    assert(gained(t0, tn) =~= gained(t0, t1) + rx_all(window@.take(k)).push(Event::Fault(e)));
                    proof {
                        lemma_fault_count_concat(gained(t0, t1), rx_all(window@.take(k)).push(Event::Fault(e)), e);
                        lemma_fault_count_concat(gained(t0, t1), rx_all(window@.take(k)).push(Event::Fault(e)), ErrorKind::Interrupted);
                        assert(rx_all(window@.take(k)).push(Event::Fault(e)).drop_last() =~= rx_all(window@.take(k)));
                    }
                    if e == ErrorKind::Interrupted && interrupts < INTERRUPT_LIMIT {
                        assert(gained(t0, tn)[gained(t0, tn).len() - 1] == Event::Fault(ErrorKind::Interrupted));
                        proof {
                            let ps2 = ps.push(Piece::Lost(window@.take(k)));
                            assert(ps2.drop_last() =~= ps);
                            assert(gained(t0, tn) =~= pieces_events(ps2));
                            assert(pieces_data(ps2) =~= pieces_data(ps));
                            ps = ps2;
                        }
                        interrupts = interrupts + 1;
                    } else {
                        assert(pieces_events(ps) + rx_all(window@.take(k)).push(Event::Fault(e)) == gained(t0, tn));
                        return Err(e);
                    }
                },
            }
        }
        assert(buf@.take(filled as int) == buf@.take(len as int));
        assert(rx_all(buf@.take(filled as int)) + eof_if(false) =~= rx_all(buf@.take(filled as int)));
        assert(pieces_events(ps) + eof_if(false) =~= pieces_events(ps));
        Ok(filled)
    }
}

impl<T: Read> ReadExt for T {

}

} // verus!

verus! {

impl<T: Endpoint> Endpoint for &mut T {
    open spec fn trace(&self) -> Seq<Event> {
        (**self).trace()
    }

    open spec fn inv(&self) -> bool {
        (**self).inv()
    }

    open spec fn origin(&self) -> Seq<u8> {
        (**self).origin()
    }
}

impl<T: Read> Read for &mut T {
    fn read_byte(&mut self) -> (r: Result<u8, ErrorKind>) {
        (**self).read_byte()
    }
}

impl<T: Write> Write for &mut T {
    fn write_byte(&mut self, byte: u8) -> (r: Result<u8, ErrorKind>) {
        (**self).write_byte(byte)
    }
}

} // verus!
