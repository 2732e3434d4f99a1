//! The protocol engine: packet-level exchanges over a byte endpoint and the
//! whole-stream drivers that retry them.
use vstd::prelude::*;
use crate::io::{
    ErrorKind, Event, Endpoint, Read, Write, ReadExt, write_event, tx_all, rx_all,
    has_fault,
};
use crate::progress::{Progress, ProgressFn, Noop};
use crate::stream::{
    MAX_TRIES, Intake, intake_start, intake_run, intake_explains, lemma_intake_run_concat,
    lemma_intake_packet, Feed, Outlet, outlet_run, outlet_explains, source_explains, wire_of,
    pulled_of, wires, pad, lemma_outlet_run_concat, lemma_wires, lemma_outlet_packet,
    lemma_fault_parts, lemma_pull, source_of,
};
use crate::protocol::{
    CAN, EOT, SOH, ACK, NAK, PACKET_LEN, Recv, Send, gained, is_read, mismatch, read_outcome,
    expect_outcome, recv_outcome, send_outcome, recv_run, send_run,
    recv_start, send_start, lemma_recv_advance, lemma_send_advance, checksum, frame, next_seq,
};

verus! {

/// A transfer session over the endpoint `inner`, reporting to `progress`.
pub struct Xmodem<R, P> {
    packet: u8,
    inner: R,
    started: bool,
    progress: P,
}

/// The `Started` report that the receiving side owes when a session that
/// had not started wrote its opening `NAK` (the first event of `t`).
pub open spec fn started_report(was_started: bool, t: Seq<Event>) -> Seq<Progress> {
    if !was_started && t.len() > 0 && t[0] == Event::Tx(NAK) {
        seq![Progress::Started]
    } else {
        Seq::empty()
    }
}

/// The reports a sending exchange owes before the frame: `Waiting` when a
/// session that had not started was given a valid length, then `Started`
/// once the receiver's opening `NAK` was read (the first event of `t`).
pub open spec fn opening_reports(was_started: bool, valid: bool, t: Seq<Event>) -> Seq<Progress> {
    if was_started || !valid {
        Seq::empty()
    } else if t.len() > 0 && t[0] == Event::Rx(NAK) {
        seq![Progress::Waiting, Progress::Started]
    } else {
        seq![Progress::Waiting]
    }
}

/// The `Packet(n)` report owed for a packet exchange that ended with `r`.
pub open spec fn packet_report(n: u8, r: Result<usize, ErrorKind>) -> Seq<Progress> {
    if r == Ok::<usize, ErrorKind>(PACKET_LEN) {
        seq![Progress::Packet(n)]
    } else {
        Seq::empty()
    }
}

impl<R, P> Xmodem<R, P> {
    /// The number of the packet to transfer next.
    pub closed spec fn seq(&self) -> u8 {
        self.packet
    }

    /// Whether the opening handshake has been exchanged and no end of
    /// transmission since.
    pub closed spec fn is_started(&self) -> bool {
        self.started
    }

    /// The endpoint the session owns.
    pub closed spec fn port(&self) -> R {
        self.inner
    }
}

impl<R, P> Xmodem<R, P> {
    /// Ends the session and gives back its endpoint.
    pub fn into_inner(self) -> (r: R)
        ensures
            r == self.port(),
    {
        self.inner
    }
}

impl<R, P: ProgressFn> Xmodem<R, P> {
    /// What the observer has been told so far, oldest first.
    pub closed spec fn reported(&self) -> Seq<Progress> {
        self.progress.seen()
    }
}

impl<T: Read + Write> Xmodem<T, Noop> {
    /// A fresh session over `inner` that reports progress nowhere.
    pub fn new(inner: T) -> (r: Self)
        ensures
            r.seq() == 1,
            !r.is_started(),
            r.port() == inner,
            r.reported() == Seq::<Progress>::empty(),
    {
        Xmodem { packet: 1, inner, started: false, progress: Noop::new() }
    }
}

impl<T: Read + Write, P: ProgressFn> Xmodem<T, P> {
    /// A fresh session over `inner` that reports progress to `f`.
    pub fn new_with_progress(inner: T, f: P) -> (r: Self)
        ensures
            r.seq() == 1,
            !r.is_started(),
            r.port() == inner,
            r.reported() == f.seen(),
    {
        Xmodem { packet: 1, inner, started: false, progress: f }
    }

    /// Reports `p` to the observer.
    fn report(&mut self, p: Progress)
        ensures
            final(self).seq() == old(self).seq(),
            final(self).is_started() == old(self).is_started(),
            final(self).port() == old(self).port(),
            final(self).reported() == old(self).reported().push(p),
    {
        self.progress.report(p);
    }

    /// Reads one byte; with `abort_on_can`, a `CAN` byte is an abort.
    pub fn read_byte(&mut self, abort_on_can: bool) -> (r: Result<u8, ErrorKind>)
        ensures
            old(self).port().inv() ==> final(self).port().inv(),
            final(self).port().origin() == old(self).port().origin(),
            final(self).seq() == old(self).seq(),
            final(self).is_started() == old(self).is_started(),
            final(self).reported() == old(self).reported(),
            final(self).port().trace() == old(self).port().trace().push(final(self).port().trace().last()),
            is_read(final(self).port().trace().last()),
            r == read_outcome(abort_on_can, final(self).port().trace().last()),
    {
        let r = self.inner.read_byte();
        match r {
            Ok(byte) => {
                if abort_on_can && byte == CAN {
                    Err(ErrorKind::ConnectionAborted)
                } else {
                    Ok(byte)
                }
            },
            Err(e) => Err(e),
        }
    }

    /// Writes one byte.
    pub fn write_byte(&mut self, byte: u8) -> (r: Result<u8, ErrorKind>)
        ensures
            old(self).port().inv() ==> final(self).port().inv(),
            final(self).port().origin() == old(self).port().origin(),
            final(self).seq() == old(self).seq(),
            final(self).is_started() == old(self).is_started(),
            final(self).reported() == old(self).reported(),
            r matches Ok(b) ==> b == byte,
            final(self).port().trace() == old(self).port().trace().push(write_event(byte, r)),
    {
        self.inner.write_byte(byte)
    }

    /// Reads one byte that must be `byte`. Another byte is an abort when it
    /// is `CAN` and `InvalidData` otherwise; nothing is written.
    pub fn expect_byte(&mut self, byte: u8) -> (r: Result<u8, ErrorKind>)
        ensures
            old(self).port().inv() ==> final(self).port().inv(),
            final(self).port().origin() == old(self).port().origin(),
            final(self).seq() == old(self).seq(),
            final(self).is_started() == old(self).is_started(),
            final(self).reported() == old(self).reported(),
            final(self).port().trace() == old(self).port().trace().push(final(self).port().trace().last()),
            is_read(final(self).port().trace().last()),
            r == expect_outcome(byte, final(self).port().trace().last()),
    {
        let byte_read = self.read_byte(false)?;
        if byte_read == byte {
            Ok(byte)
        } else if byte_read == CAN {
            Err(ErrorKind::ConnectionAborted)
        } else {
            Err(ErrorKind::InvalidData)
        }
    }

    /// Reads one byte that must be `byte`. Another byte is answered with
    /// `CAN`, and is then an abort when it was `CAN` and `InvalidData`
    /// otherwise.
    pub fn expect_byte_or_cancel(&mut self, byte: u8) -> (r: Result<u8, ErrorKind>)
        ensures
            old(self).port().inv() ==> final(self).port().inv(),
            final(self).port().origin() == old(self).port().origin(),
            final(self).seq() == old(self).seq(),
            final(self).is_started() == old(self).is_started(),
            final(self).reported() == old(self).reported(),
            old(self).port().trace().is_prefix_of(final(self).port().trace()),
            ({
                let t = gained(old(self).port().trace(), final(self).port().trace());
                &&& t.len() >= 1
                &&& is_read(t[0])
                &&& match t[0] {
                    Event::Rx(b) => if b == byte {
                        t.len() == 1 && r == Ok::<u8, ErrorKind>(byte)
                    } else {
                        t.len() == 2 && ((t[1] == Event::Tx(CAN) && r == Err::<u8, ErrorKind>(
                            mismatch(b),
                        )) || (t[1] is Fault && r == Err::<u8, ErrorKind>(t[1]->Fault_0)))
                    },
                    _ => t.len() == 1 && r == expect_outcome(byte, t[0]),
                }
            }),
    {
        let ghost t0 = self.inner.trace();
        let byte_read = self.read_byte(false);
        let ghost t1 = self.inner.trace();
        assert(gained(t0, t1) =~= seq![t1.last()]);
        match byte_read {
            Err(e) => Err(e),
            Ok(b) => {
                if b == byte {
                    Ok(byte)
                } else {
                    let w = self.write_byte(CAN);
                    assert(gained(t0, self.inner.trace()) =~= seq![t1.last(), self.inner.trace().last()]);
                    match w {
                        Err(e) => Err(e),
                        Ok(_) => {
                            if b == CAN {
                                Err(ErrorKind::ConnectionAborted)
                            } else {
                                Err(ErrorKind::InvalidData)
                            }
                        },
                    }
                }
            },
        }
    }
    /// Receives one packet into the front of `buf` and returns its length,
    /// 128, or 0 when the sender ended the transmission. The first call of
    /// a session writes the opening `NAK`; a buffer shorter than a packet is
    /// then refused with `UnexpectedEof`. A checksum mismatch is answered
    /// with `NAK` and fails with `Interrupted`, leaving the packet number
    /// as it was, so that the packet can be received again.
    #[verifier::rlimit(40)]
    pub fn read_packet(&mut self, buf: &mut [u8]) -> (r: Result<usize, ErrorKind>)
        ensures
            old(self).port().inv() ==> final(self).port().inv(),
            final(self).port().origin() == old(self).port().origin(),
            old(self).port().trace().is_prefix_of(final(self).port().trace()),
            final(buf)@.len() == old(buf)@.len(),
            recv_outcome(
                old(self).seq(),
                old(buf)@.len() < PACKET_LEN,
                old(self).is_started(),
                gained(old(self).port().trace(), final(self).port().trace()),
            ) matches Recv::Done { result, data } && result == r && data.len() <= old(buf)@.len()
                && final(buf)@ == data + old(buf)@.skip(data.len() as int) && (r matches Ok(k) ==> (
                k == 0 || (k == PACKET_LEN && data.len() == PACKET_LEN))),
            final(self).seq() == if r == Ok::<usize, ErrorKind>(PACKET_LEN) {
                next_seq(old(self).seq())
            } else {
                old(self).seq()
            },
            final(self).is_started() == (r != Ok::<usize, ErrorKind>(0)),
            final(self).reported() == old(self).reported() + started_report(
                old(self).is_started(),
                gained(old(self).port().trace(), final(self).port().trace()),
            ) + packet_report(old(self).seq(), r),
    {
        let ghost n = self.packet;
        let ghost t0 = self.inner.trace();
        let ghost b0 = buf@;
        let short = buf.len() < PACKET_LEN;
        let ghost init = recv_start(self.started, short);
        proof {
            assert(gained(t0, t0) =~= Seq::<Event>::empty());
            assert(Seq::<u8>::empty() + b0.skip(0) =~= b0);
        }
        if !self.started {
            self.started = true;
            let ghost t1 = self.inner.trace();
            let w = self.write_byte(NAK);
            proof {
                lemma_recv_advance(n, short, init, t0, t1, write_event(NAK, w));
            }
            match w {
                Err(e) => {
                    return Err(e);
                },
                Ok(_) => {},
            }
            self.report(Progress::Started);
            assert(gained(t0, self.inner.trace())[0] == Event::Tx(NAK));
        }
        if short {
            return Err(ErrorKind::UnexpectedEof);
        }
        let ghost t1 = self.inner.trace();
        let c = self.read_byte(true);
        proof {
            lemma_recv_advance(n, short, init, t0, t1, self.inner.trace().last());
        }
        let control = match c {
            Err(e) => {
                return Err(e);
            },
            Ok(b) => b,
        };
        if control == EOT {
            let ghost t2 = self.inner.trace();
            let w = self.write_byte(NAK);
            proof {
                lemma_recv_advance(n, short, init, t0, t2, write_event(NAK, w));
            }
            match w {
                Err(e) => {
                    return Err(e);
                },
                Ok(_) => {},
            }
            let ghost t3 = self.inner.trace();
            let x = self.expect_byte(EOT);
            proof {
                lemma_recv_advance(n, short, init, t0, t3, self.inner.trace().last());
            }
            match x {
                Err(e) => {
                    return Err(e);
                },
                Ok(_) => {},
            }
            let ghost t4 = self.inner.trace();
            let w = self.write_byte(ACK);
            proof {
                lemma_recv_advance(n, short, init, t0, t4, write_event(ACK, w));
            }
            match w {
                Err(e) => {
                    return Err(e);
                },
                Ok(_) => {},
            }
            self.started = false;
            return Ok(0);
        } else if control != SOH {
            return Err(ErrorKind::InvalidData);
        }
        let ghost t2 = self.inner.trace();
        let x = self.expect_byte_or_cancel(self.packet);
        proof {
            let t3 = self.inner.trace();
            let g = gained(t2, t3);
            assert(t3 =~= t2 + g);
            lemma_recv_advance(n, short, init, t0, t2, g[0]);
            if g.len() == 2 {
                assert(t3 =~= t2.push(g[0]).push(g[1]));
                lemma_recv_advance(n, short, init, t0, t2.push(g[0]), g[1]);
            } else {
                assert(t3 =~= t2.push(g[0]));
            }
        }
        match x {
            Err(e) => {
                return Err(e);
            },
            Ok(_) => {},
        }
        let ghost t3 = self.inner.trace();
        let x = self.expect_byte_or_cancel(255 - self.packet);
        proof {
            let t4 = self.inner.trace();
            let g = gained(t3, t4);
            assert(t4 =~= t3 + g);
            lemma_recv_advance(n, short, init, t0, t3, g[0]);
            if g.len() == 2 {
                assert(t4 =~= t3.push(g[0]).push(g[1]));
                lemma_recv_advance(n, short, init, t0, t3.push(g[0]), g[1]);
            } else {
                assert(t4 =~= t3.push(g[0]));
            }
        }
        match x {
            Err(e) => {
                return Err(e);
            },
            Ok(_) => {},
        }
        let mut sum: u8 = 0;
        let mut i: usize = 0;
        proof {
            assert(buf@.take(0) =~= Seq::<u8>::empty());
            assert(self.progress.seen() =~= old(self).reported() + started_report(
                old(self).is_started(),
                gained(t0, self.inner.trace()),
            ));
        }
        while i < PACKET_LEN
            invariant
                i <= PACKET_LEN <= buf@.len() == b0.len(),
                self.packet == n,
                self.started,
                t0 == old(self).port().trace(),
                b0 == old(buf)@,
                init == recv_start(old(self).is_started(), short),
                !short,
                n == old(self).seq(),
                t0.is_prefix_of(self.inner.trace()),
                old(self).port().inv() ==> self.inner.inv(),
                self.inner.origin() == old(self).port().origin(),
                recv_run(n, short, init, gained(t0, self.inner.trace())) == (if i < PACKET_LEN {
                    Recv::Payload { data: buf@.take(i as int) }
                } else {
                    Recv::Check { data: buf@.take(i as int) }
                }),
                sum == checksum(buf@.take(i as int)),
                buf@.skip(i as int) == b0.skip(i as int),
                gained(t0, self.inner.trace()).len() > 0,
                self.progress.seen() == old(self).reported() + started_report(
                    old(self).is_started(),
                    gained(t0, self.inner.trace()),
                ),
            decreases PACKET_LEN - i,
        {
            let ghost t4 = self.inner.trace();
            let ghost before = buf@;
            let x = self.read_byte(false);
            proof {
                lemma_recv_advance(n, short, init, t0, t4, self.inner.trace().last());
                assert(before =~= before.take(i as int) + b0.skip(i as int));
            }
            let b = match x {
                Err(e) => {
                    return Err(e);
                },
                Ok(b) => b,
            };
            buf[i] = b;
            sum = sum.wrapping_add(b);
            proof {
                assert(buf@.take(i + 1) =~= before.take(i as int).push(b));
                assert(buf@.take(i + 1).drop_last() =~= before.take(i as int));
                assert(buf@.skip(i + 1) =~= before.skip(i as int).skip(1));
                assert(b0.skip(i + 1) =~= b0.skip(i as int).skip(1));
            }
            i = i + 1;
        }
        let ghost t4 = self.inner.trace();
        let c = self.read_byte(false);
        proof {
            lemma_recv_advance(n, short, init, t0, t4, self.inner.trace().last());
            assert(buf@ =~= buf@.take(PACKET_LEN as int) + b0.skip(PACKET_LEN as int));
        }
        let check = match c {
            Err(e) => {
                return Err(e);
            },
            Ok(b) => b,
        };
        let ghost t5 = self.inner.trace();
        if check != sum {
            let w = self.write_byte(NAK);
            proof {
                lemma_recv_advance(n, short, init, t0, t5, write_event(NAK, w));
            }
            match w {
                Err(e) => {
                    return Err(e);
                },
                Ok(_) => {},
            }
            return Err(ErrorKind::Interrupted);
        }
        let w = self.write_byte(ACK);
        proof {
            lemma_recv_advance(n, short, init, t0, t5, write_event(ACK, w));
        }
        match w {
            Err(e) => {
                return Err(e);
            },
            Ok(_) => {},
        }
        self.report(Progress::Packet(self.packet));
        self.packet = self.packet.wrapping_add(1);
        proof {
            let sr = started_report(old(self).is_started(), gained(t0, self.inner.trace()));
            assert(self.progress.seen() =~= old(self).reported() + sr + packet_report(n, Ok(PACKET_LEN)));
        }
        Ok(PACKET_LEN)
    }
    /// Sends `buf` as one packet and returns its length, 128; an empty
    /// `buf` ends the transmission instead and returns 0. Any other length
    /// is refused with `UnexpectedEof` before anything is exchanged. The
    /// first call of a session waits for the receiver's opening `NAK`. A
    /// `NAK` for the packet fails with `Interrupted`, leaving the packet
    /// number as it was, so that the packet can be sent again.
    #[verifier::rlimit(40)]
    pub fn write_packet(&mut self, buf: &[u8]) -> (r: Result<usize, ErrorKind>)
        ensures
            old(self).port().inv() ==> final(self).port().inv(),
            final(self).port().origin() == old(self).port().origin(),
            old(self).port().trace().is_prefix_of(final(self).port().trace()),
            send_outcome(
                old(self).seq(),
                buf@,
                old(self).is_started(),
                gained(old(self).port().trace(), final(self).port().trace()),
            ) matches Send::Done { result, started } && result == r && final(self).is_started()
                == started,
            r matches Ok(k) ==> k == buf@.len(),
            final(self).reported() == old(self).reported() + opening_reports(
                old(self).is_started(),
                buf@.len() == 0 || buf@.len() == PACKET_LEN,
                gained(old(self).port().trace(), final(self).port().trace()),
            ) + packet_report(old(self).seq(), r),
            final(self).seq() == if r == Ok::<usize, ErrorKind>(PACKET_LEN) {
                next_seq(old(self).seq())
            } else {
                old(self).seq()
            },
    {
        let ghost n = self.packet;
        let ghost t0 = self.inner.trace();
        let ghost data = buf@;
        let ghost init = send_start(self.started, data);
        proof {
            assert(gained(t0, t0) =~= Seq::<Event>::empty());
        }
        if buf.len() != 0 && buf.len() != PACKET_LEN {
            return Err(ErrorKind::UnexpectedEof);
        }
        if !self.started {
            self.report(Progress::Waiting);
            let ghost t1 = self.inner.trace();
            let x = self.expect_byte(NAK);
            proof {
                lemma_send_advance(n, data, init, t0, t1, self.inner.trace().last());
            }
            match x {
                Err(e) => {
                    return Err(e);
                },
                Ok(_) => {},
            }
            self.started = true;
            self.report(Progress::Started);
            assert(gained(t0, self.inner.trace())[0] == Event::Rx(NAK));
        }
        if buf.len() == 0 {
            let ghost t1 = self.inner.trace();
            let w = self.write_byte(EOT);
            proof {
                lemma_send_advance(n, data, init, t0, t1, write_event(EOT, w));
            }
            match w {
                Err(e) => {
                    return Err(e);
                },
                Ok(_) => {},
            }
            let ghost t2 = self.inner.trace();
            let x = self.expect_byte(NAK);
            proof {
                lemma_send_advance(n, data, init, t0, t2, self.inner.trace().last());
            }
            match x {
                Err(e) => {
                    return Err(e);
                },
                Ok(_) => {},
            }
            let ghost t3 = self.inner.trace();
            let w = self.write_byte(EOT);
            proof {
                lemma_send_advance(n, data, init, t0, t3, write_event(EOT, w));
            }
            match w {
                Err(e) => {
                    return Err(e);
                },
                Ok(_) => {},
            }
            let ghost t4 = self.inner.trace();
            let x = self.expect_byte(ACK);
            proof {
                lemma_send_advance(n, data, init, t0, t4, self.inner.trace().last());
            }
            match x {
                Err(e) => {
                    return Err(e);
                },
                Ok(_) => {},
            }
            self.started = false;
            return Ok(0);
        }
        let ghost t1 = self.inner.trace();
        let w = self.write_byte(SOH);
        proof {
            lemma_send_advance(n, data, init, t0, t1, write_event(SOH, w));
        }
        match w {
            Err(e) => {
                return Err(e);
            },
            Ok(_) => {},
        }
        let ghost t2 = self.inner.trace();
        let w = self.write_byte(self.packet);
        proof {
            lemma_send_advance(n, data, init, t0, t2, write_event(n, w));
        }
        match w {
            Err(e) => {
                return Err(e);
            },
            Ok(_) => {},
        }
        let ghost t3 = self.inner.trace();
        let w = self.write_byte(255 - self.packet);
        proof {
            lemma_send_advance(n, data, init, t0, t3, write_event((255 - n) as u8, w));
        }
        match w {
            Err(e) => {
                return Err(e);
            },
            Ok(_) => {},
        }
        let mut sum: u8 = 0;
        let mut i: usize = 0;
        proof {
            assert(data.take(0) =~= Seq::<u8>::empty());
            assert(self.progress.seen() =~= old(self).reported() + opening_reports(
                old(self).is_started(),
                true,
                gained(t0, self.inner.trace()),
            ));
        }
        while i < PACKET_LEN
            invariant
                i <= PACKET_LEN == data.len(),
                data == buf@,
                self.packet == n,
                self.started,
                t0 == old(self).port().trace(),
                n == old(self).seq(),
                init == send_start(old(self).is_started(), data),
                t0.is_prefix_of(self.inner.trace()),
                old(self).port().inv() ==> self.inner.inv(),
                self.inner.origin() == old(self).port().origin(),
                send_run(n, data, init, gained(t0, self.inner.trace())) == (Send::Frame { k: (3 + i) as nat }),
                sum == checksum(data.take(i as int)),
                gained(t0, self.inner.trace()).len() > 0,
                self.progress.seen() == old(self).reported() + opening_reports(
                    old(self).is_started(),
                    true,
                    gained(t0, self.inner.trace()),
                ),
            decreases PACKET_LEN - i,
        {
            let ghost t4 = self.inner.trace();
            let w = self.write_byte(buf[i]);
            proof {
                lemma_send_advance(n, data, init, t0, t4, write_event(data[i as int], w));
                assert(frame(n, data)[3 + i] == data[i as int]);
            }
            match w {
                Err(e) => {
                    return Err(e);
                },
                Ok(_) => {},
            }
            sum = sum.wrapping_add(buf[i]);
            proof {
                assert(data.take(i + 1).drop_last() =~= data.take(i as int));
            }
            i = i + 1;
        }
        let ghost t4 = self.inner.trace();
        let w = self.write_byte(sum);
        proof {
            assert(data.take(PACKET_LEN as int) =~= data);
            lemma_send_advance(n, data, init, t0, t4, write_event(sum, w));
        }
        match w {
            Err(e) => {
                return Err(e);
            },
            Ok(_) => {},
        }
        let ghost t5 = self.inner.trace();
        let reply = self.read_byte(true);
        proof {
            lemma_send_advance(n, data, init, t0, t5, self.inner.trace().last());
        }
        let reply = match reply {
            Err(e) => {
                return Err(e);
            },
            Ok(b) => b,
        };
        let ghost opened = opening_reports(
            old(self).is_started(),
            true,
            gained(t0, self.inner.trace()),
        );
        if reply == ACK {
            self.report(Progress::Packet(self.packet));
            self.packet = self.packet.wrapping_add(1);
            assert(self.progress.seen() =~= old(self).reported() + opened + packet_report(n, Ok(PACKET_LEN)));
            Ok(PACKET_LEN)
        } else if reply == NAK {
            Err(ErrorKind::Interrupted)
        } else {
            Err(ErrorKind::InvalidData)
        }
    }

    /// Flushes the endpoint.
    pub fn flush(&mut self) -> (r: Result<(), ErrorKind>)
        ensures
            old(self).port().inv() ==> final(self).port().inv(),
            final(self).port().origin() == old(self).port().origin(),
            final(self).seq() == old(self).seq(),
            final(self).is_started() == old(self).is_started(),
            final(self).reported() == old(self).reported(),
            final(self).port().trace() == old(self).port().trace(),
    {
        self.inner.flush()
    }
    /// Receives packets until the sender ends the transmission, handing the
    /// payload of each to `into`, and returns the number of payload bytes
    /// received, a multiple of 128. A packet that fails with `Interrupted`
    /// is received again, up to 10 attempts in a row, after which the
    /// stream fails with `BrokenPipe`; any other failure ends the stream.
    pub fn receive_stream<W: Write>(&mut self, into: &mut W) -> (r: Result<usize, ErrorKind>)
        ensures
            old(self).port().inv() ==> final(self).port().inv(),
            final(self).port().origin() == old(self).port().origin(),
            old(self).port().trace().is_prefix_of(final(self).port().trace()),
            (*old(into)).trace().is_prefix_of((*final(into)).trace()),
            (*old(into)).inv() ==> (*final(into)).inv(),
            (*final(into)).origin() == (*old(into)).origin(),
            intake_explains(
                intake_run(
                    intake_start(old(self).seq(), old(self).is_started()),
                    gained(old(self).port().trace(), final(self).port().trace()),
                ),
                gained((*old(into)).trace(), (*final(into)).trace()),
                r,
            ),
    {
        let mut packet: Vec<u8> = vec![0u8; PACKET_LEN];
        let mut received: usize = 0;
        let mut tries: usize = 0;
        let ghost t0 = self.inner.trace();
        let ghost o0 = into.trace();
        let ghost s0 = intake_start(self.packet, self.started);
        let ghost mut got: Seq<u8> = Seq::empty();
        proof {
            assert(gained(t0, t0) =~= Seq::<Event>::empty());
            assert(gained(o0, o0) =~= Seq::<Event>::empty());
            assert(tx_all(got) =~= Seq::<Event>::empty());
        }
        loop
            invariant
                packet@.len() == PACKET_LEN,
                t0 == old(self).port().trace(),
                o0 == (*old(into)).trace(),
                s0 == intake_start(old(self).seq(), old(self).is_started()),
                t0.is_prefix_of(self.inner.trace()),
                o0.is_prefix_of(into.trace()),
                old(self).port().inv() ==> self.inner.inv(),
                self.inner.origin() == old(self).port().origin(),
                (*old(into)).inv() ==> into.inv(),
                into.origin() == (*old(into)).origin(),
                tries < MAX_TRIES,
                intake_run(s0, gained(t0, self.inner.trace())) == (Intake::Packet {
                    n: self.packet,
                    tries: tries as nat,
                    got,
                    st: recv_start(self.started, false),
                }),
                received == got.len(),
                gained(o0, into.trace()) == tx_all(got),
            decreases usize::MAX - received, MAX_TRIES - tries,
        {
            let ghost t1 = self.inner.trace();
            let ghost n = self.packet;
            let ghost st = recv_start(self.started, false);
            let ghost old_packet = packet@;
            let r = self.read_packet(packet.as_mut_slice());
            proof {
                let g = gained(t1, self.inner.trace());
                assert(gained(t0, self.inner.trace()) =~= gained(t0, t1) + g);
                lemma_intake_run_concat(s0, gained(t0, t1), g);
                lemma_intake_packet(n, tries as nat, got, st, g);
            }
            match r {
                Err(e) => {
                    if e == ErrorKind::Interrupted {
                        tries = tries + 1;
                        if tries == MAX_TRIES {
                            return Err(ErrorKind::BrokenPipe);
                        }
                    } else {
                        return Err(e);
                    }
                },
                Ok(k) => {
                    if k == 0 {
                        return Ok(received);
                    }
                    let ghost o1 = into.trace();
                    let ghost prev = got;
                    proof {
                        assert(packet@ =~= packet@.take(PACKET_LEN as int));
                        got = got + packet@;
                        assert(got.take(got.len() - PACKET_LEN) =~= prev);
                    }
                    if received > usize::MAX - PACKET_LEN {
                        return Err(ErrorKind::Other);
                    }
                    received = received + PACKET_LEN;
                    tries = 0;
                    let sl = packet.as_slice();
                    let w = into.write(sl);
                    proof {
                        assert(gained(o0, into.trace()) =~= gained(o0, o1) + gained(o1, into.trace()));
                        assert(tx_all(got) =~= tx_all(prev) + tx_all(packet@));
                    }
                    match w {
                        Err(e) => {
                            proof {
                                let j = choose|j: int|
                                    0 <= j < sl@.len() && (*into).trace() == o1 + tx_all(
                                        sl@.take(j),
                                    ).push(Event::Fault(e));
                                assert(gained(o1, into.trace()) =~= tx_all(packet@.take(j)).push(Event::Fault(e)));
                                assert(got.take(prev.len() + j) =~= prev + packet@.take(j));
                                assert(tx_all(got.take(prev.len() + j)) =~= tx_all(prev) + tx_all(
                                    packet@.take(j),
                                ));
                                assert(gained(o0, into.trace()) =~= (tx_all(prev) + tx_all(
                                    packet@.take(j),
                                )).push(Event::Fault(e)));
                                assert(gained(o0, into.trace()) =~= tx_all(got.take(prev.len() + j)).push(
                                    Event::Fault(e),
                                ));
                            }
                            return Err(e);
                        },
                        Ok(_) => {},
                    }
                },
            }
        }
    }
    /// Sends everything `data` yields, in packets of 128 bytes with the last
    /// one padded with zeroes, then ends the transmission, and returns the
    /// number of bytes taken from `data`, padding excluded. A packet that
    /// fails with `Interrupted` is sent again, up to 10 attempts in a row,
    /// after which the stream fails with `BrokenPipe`; any other failure
    /// ends the stream.
    pub fn transmit_stream<R: Read>(&mut self, data: &mut R) -> (r: Result<usize, ErrorKind>)
        ensures
            old(self).port().inv() ==> final(self).port().inv(),
            final(self).port().origin() == old(self).port().origin(),
            old(self).port().trace().is_prefix_of(final(self).port().trace()),
            (*old(data)).trace().is_prefix_of((*final(data)).trace()),
            (*old(data)).inv() ==> (*final(data)).inv(),
            (*final(data)).origin() == (*old(data)).origin(),
            exists|cs: Seq<Feed>|
                {
                    let s = outlet_run(Outlet::Ready { n: old(self).seq(), started: old(self).is_started() }, cs);
                    &&& #[trigger] wire_of(cs) == gained(old(self).port().trace(), final(self).port().trace())
                    &&& outlet_explains(s, pulled_of(cs), r)
                    &&& source_explains(gained((*old(data)).trace(), (*final(data)).trace()), cs, s, r)
                },
    {
        let mut packet: Vec<u8> = vec![0u8; PACKET_LEN];
        let mut written: usize = 0;
        let mut tries: usize = 0;
        let mut filled: usize = 0;
        let mut have = false;
        let ghost t0 = self.inner.trace();
        let ghost d0 = data.trace();
        let ghost s0 = Outlet::Ready { n: self.packet, started: self.started };
        let ghost mut cs: Seq<Feed> = Seq::empty();
        proof {
            assert(gained(t0, t0) =~= Seq::<Event>::empty());
            assert(gained(d0, d0) =~= Seq::<Event>::empty());
            assert(rx_all(Seq::<u8>::empty()) =~= Seq::<Event>::empty());
        }
        loop
            invariant
                packet@.len() == PACKET_LEN,
                t0 == old(self).port().trace(),
                d0 == (*old(data)).trace(),
                s0 == (Outlet::Ready { n: old(self).seq(), started: old(self).is_started() }),
                t0.is_prefix_of(self.inner.trace()),
                d0.is_prefix_of(data.trace()),
                old(self).port().inv() ==> self.inner.inv(),
                self.inner.origin() == old(self).port().origin(),
                (*old(data)).inv() ==> data.inv(),
                data.origin() == (*old(data)).origin(),
                wire_of(cs) == gained(t0, self.inner.trace()),
                !has_fault(gained(d0, data.trace()), ErrorKind::Interrupted) ==> gained(d0, data.trace())
                    == source_of(cs),
                !have ==> written == pulled_of(cs).len() && tries == 0 && outlet_run(s0, cs) == (
                Outlet::Ready { n: self.packet, started: self.started }),
                have ==> 0 < filled <= PACKET_LEN && tries < MAX_TRIES && written + filled
                    <= usize::MAX && pulled_of(cs).len() == written + filled && outlet_run(s0, cs)
                    == (Outlet::Packet {
                    n: self.packet,
                    data: packet@,
                    tries: tries as nat,
                    st: send_start(self.started, packet@),
                }),
            decreases usize::MAX - written, if have {
                0int
            } else {
                1int
            }, MAX_TRIES - tries,
        {
            if !have {
                let ghost d1 = data.trace();
                let got = data.read_max(packet.as_mut_slice());
                proof {
                    assert(gained(d0, data.trace()) =~= gained(d0, d1) + gained(d1, data.trace()));
                    lemma_fault_parts(gained(d0, d1), gained(d1, data.trace()), ErrorKind::Interrupted);
                }
                let k = match got {
                    Err(e) => {
                        assert(gained(d0, data.trace()).last() == Event::Fault(e));
                        return Err(e);
                    },
                    Ok(k) => k,
                };
                let ghost chunk = packet@.take(k as int);
                proof {
                    let pull = seq![Feed::Pull(chunk)];
                    lemma_outlet_run_concat(s0, cs, pull);
                    lemma_pull(outlet_run(s0, cs), chunk);
                    assert(wire_of(cs) + Seq::<Event>::empty() =~= wire_of(cs));
                    assert(cs.push(Feed::Pull(chunk)) =~= cs + pull);
                    cs = cs.push(Feed::Pull(chunk));
                }
                let mut j: usize = k;
                while j < PACKET_LEN
                    invariant
                        k <= j <= PACKET_LEN == packet@.len(),
                        packet@.take(k as int) == chunk,
                        forall|i: int| k <= i < j ==> packet@[i] == 0u8,
                    decreases PACKET_LEN - j,
                {
                    packet.set(j, 0u8);
                    assert(packet@.take(k as int) =~= chunk);
                    j = j + 1;
                }
                proof {
                    assert(packet@ =~= pad(chunk));
                }
                if k == 0 {
                    let end: Vec<u8> = Vec::new();
                    let ghost t1 = self.inner.trace();
                    let ghost st = send_start(self.started, chunk);
                    let ghost n = self.packet;
                    let w = self.write_packet(end.as_slice());
                    proof {
                        let g = gained(t1, self.inner.trace());
                        assert(end@ =~= chunk);
                        assert(gained(t0, self.inner.trace()) =~= gained(t0, t1) + g);
                        lemma_outlet_run_concat(s0, cs, wires(g));
                        lemma_wires(g);
                        lemma_outlet_packet(n, chunk, 0, st, g);
                        assert(pulled_of(cs) + Seq::<u8>::empty() =~= pulled_of(cs));
                        cs = cs + wires(g);
                    }
                    return match w {
                        Ok(_) => Ok(written),
                        Err(e) => Err(e),
                    };
                }
                if written > usize::MAX - k {
                    return Err(ErrorKind::Other);
                }
                filled = k;
                have = true;
            } else {
                let ghost t1 = self.inner.trace();
                let ghost st = send_start(self.started, packet@);
                let ghost n = self.packet;
                let w = self.write_packet(packet.as_slice());
                proof {
                    let g = gained(t1, self.inner.trace());
                    assert(gained(t0, self.inner.trace()) =~= gained(t0, t1) + g);
                    lemma_outlet_run_concat(s0, cs, wires(g));
                    lemma_wires(g);
                    lemma_outlet_packet(n, packet@, tries as nat, st, g);
                    assert(pulled_of(cs) + Seq::<u8>::empty() =~= pulled_of(cs));
                    cs = cs + wires(g);
                }
                match w {
                    Ok(_) => {
                        written = written + filled;
                        have = false;
                        tries = 0;
                    },
                    Err(e) => {
                        if e == ErrorKind::Interrupted {
                            tries = tries + 1;
                            if tries == MAX_TRIES {
                                return Err(ErrorKind::BrokenPipe);
                            }
                        } else {
                            return Err(e);
                        }
                    },
                }
            }
        }
    }
}

impl Xmodem<(), Noop> {
    /// Sends everything `data` yields to the receiver at the other end of
    /// `to` in a fresh session, and gives `to` back with the result; see
    /// `transmit_stream`.
    pub fn transmit<R: Read, W: Read + Write>(data: &mut R, to: W) -> (out: (
        Result<usize, ErrorKind>,
        W,
    ))
        ensures
            (*old(data)).trace().is_prefix_of((*final(data)).trace()),
            (*old(data)).inv() ==> (*final(data)).inv(),
            (*final(data)).origin() == (*old(data)).origin(),
            to.trace().is_prefix_of(out.1.trace()),
            to.inv() ==> out.1.inv(),
            out.1.origin() == to.origin(),
            exists|cs: Seq<Feed>|
                {
                    let s = outlet_run(Outlet::Ready { n: 1, started: false }, cs);
                    &&& #[trigger] wire_of(cs) == gained(to.trace(), out.1.trace())
                    &&& outlet_explains(s, pulled_of(cs), out.0)
                    &&& source_explains(gained((*old(data)).trace(), (*final(data)).trace()), cs, s, out.0)
                },
    {
        Xmodem::transmit_with_progress(data, to, Noop::new())
    }

    /// Sends everything `data` yields to the receiver at the other end of
    /// `to` in a fresh session that reports progress to `f`, and gives `to`
    /// back with the result; see `transmit_stream`.
    pub fn transmit_with_progress<R: Read, W: Read + Write, P: ProgressFn>(
        data: &mut R,
        to: W,
        f: P,
    ) -> (out: (Result<usize, ErrorKind>, W))
        ensures
            (*old(data)).trace().is_prefix_of((*final(data)).trace()),
            (*old(data)).inv() ==> (*final(data)).inv(),
            (*final(data)).origin() == (*old(data)).origin(),
            to.trace().is_prefix_of(out.1.trace()),
            to.inv() ==> out.1.inv(),
            out.1.origin() == to.origin(),
            exists|cs: Seq<Feed>|
                {
                    let s = outlet_run(Outlet::Ready { n: 1, started: false }, cs);
                    &&& #[trigger] wire_of(cs) == gained(to.trace(), out.1.trace())
                    &&& outlet_explains(s, pulled_of(cs), out.0)
                    &&& source_explains(gained((*old(data)).trace(), (*final(data)).trace()), cs, s, out.0)
                },
    {
        let mut transmitter = Xmodem::new_with_progress(to, f);
        let r = transmitter.transmit_stream(data);
        (r, transmitter.into_inner())
    }

    /// Receives a stream from the sender at the other end of `from` in a
    /// fresh session, hands its payload to `into`, and gives `from` back
    /// with the result; see `receive_stream`.
    pub fn receive<R: Read + Write, W: Write>(from: R, into: &mut W) -> (out: (
        Result<usize, ErrorKind>,
        R,
    ))
        ensures
            (*old(into)).trace().is_prefix_of((*final(into)).trace()),
            (*old(into)).inv() ==> (*final(into)).inv(),
            (*final(into)).origin() == (*old(into)).origin(),
            from.trace().is_prefix_of(out.1.trace()),
            from.inv() ==> out.1.inv(),
            out.1.origin() == from.origin(),
            intake_explains(
                intake_run(intake_start(1, false), gained(from.trace(), out.1.trace())),
                gained((*old(into)).trace(), (*final(into)).trace()),
                out.0,
            ),
    {
        Xmodem::receive_with_progress(from, into, Noop::new())
    }

    /// Receives a stream from the sender at the other end of `from` in a
    /// fresh session that reports progress to `f`, hands its payload to
    /// `into`, and gives `from` back with the result; see `receive_stream`.
    pub fn receive_with_progress<R: Read + Write, W: Write, P: ProgressFn>(
        from: R,
        into: &mut W,
        f: P,
    ) -> (out: (Result<usize, ErrorKind>, R))
        ensures
            (*old(into)).trace().is_prefix_of((*final(into)).trace()),
            (*old(into)).inv() ==> (*final(into)).inv(),
            (*final(into)).origin() == (*old(into)).origin(),
            from.trace().is_prefix_of(out.1.trace()),
            from.inv() ==> out.1.inv(),
            out.1.origin() == from.origin(),
            intake_explains(
                intake_run(intake_start(1, false), gained(from.trace(), out.1.trace())),
                gained((*old(into)).trace(), (*final(into)).trace()),
                out.0,
            ),
    {
        let mut receiver = Xmodem::new_with_progress(from, f);
        let r = receiver.receive_stream(into);
        (r, receiver.into_inner())
    }
}

} // verus!
