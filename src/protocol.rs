//! The packet-level exchange of the transfer protocol, stated as two
//! finite-state machines over the events an endpoint records: one for the
//! receiving side of a packet and one for the sending side.
use vstd::prelude::*;
use crate::io::{ErrorKind, Event};

verus! {

/// Start of a 128-byte packet.
pub const SOH: u8 = 0x01;
/// End of transmission.
pub const EOT: u8 = 0x04;
/// Packet or end of transmission accepted.
pub const ACK: u8 = 0x06;
/// Packet rejected, or ready for the next packet.
pub const NAK: u8 = 0x15;
/// Abort.
pub const CAN: u8 = 0x18;

/// Payload bytes per packet.
pub const PACKET_LEN: usize = 128;

/// The 8-bit wraparound sum of `s`.
pub open spec fn checksum(s: Seq<u8>) -> u8
    decreases s.len(),
{
    if s.len() == 0 {
        0
    } else {
        ((checksum(s.drop_last()) + s.last()) % 256) as u8
    }
}

/// The sequence number that follows `n`, wrapping from 255 to 0.
pub open spec fn next_seq(n: u8) -> u8 {
    ((n + 1) % 256) as u8
}

/// The bytes that carry the payload `data` as packet number `n`: start
/// marker, number, its complement, the payload and its checksum.
pub open spec fn frame(n: u8, data: Seq<u8>) -> Seq<u8> {
    seq![SOH, n, (255 - n) as u8] + data + seq![checksum(data)]
}

/// The failure a byte other than the one expected stands for: an abort when
/// it is `CAN`, a framing error otherwise.
pub open spec fn mismatch(b: u8) -> ErrorKind {
    if b == CAN {
        ErrorKind::ConnectionAborted
    } else {
        ErrorKind::InvalidData
    }
}

/// Where the receiving side of one packet exchange stands.
pub enum Recv {
    /// The opening `NAK` is to be written.
    Greet,
    /// Awaiting `SOH` or `EOT`.
    Control,
    /// `EOT` was read; `NAK` is to be written.
    EotNak,
    /// Awaiting the second `EOT`.
    EotAgain,
    /// `ACK` is to be written for the second `EOT`.
    EotAck,
    /// Awaiting the packet number.
    Number,
    /// Awaiting the complement of the packet number.
    Complement,
    /// A wrong number was read; `CAN` is to be written, then `err` returned.
    Cancel { err: ErrorKind },
    /// Reading the payload; `data` has been read so far.
    Payload { data: Seq<u8> },
    /// Awaiting the checksum of `data`.
    Check { data: Seq<u8> },
    /// `ACK` (when `ok`) or `NAK` is to be written.
    Reply { data: Seq<u8>, ok: bool },
    /// The exchange is over with `result`; `data` is the payload read.
    Done { result: Result<usize, ErrorKind>, data: Seq<u8> },
    /// The events are no run of this exchange.
    Stray,
}

/// The payload that state `s` has read.
pub open spec fn recv_data(s: Recv) -> Seq<u8> {
    match s {
        Recv::Payload { data } => data,
        Recv::Check { data } => data,
        Recv::Reply { data, .. } => data,
        Recv::Done { data, .. } => data,
        _ => Seq::empty(),
    }
}

/// Where a receiving exchange starts: with the opening `NAK` unless the
/// session has started; a buffer shorter than a packet (`short`) ends it
/// right after that.
pub open spec fn recv_start(started: bool, short: bool) -> Recv {
    if !started {
        Recv::Greet
    } else if short {
        Recv::Done { result: Err(ErrorKind::UnexpectedEof), data: Seq::empty() }
    } else {
        Recv::Control
    }
}

/// One step of the receiving side, expecting packet number `n`.
pub open spec fn recv_step(n: u8, short: bool, s: Recv, ev: Event) -> Recv {
    match s {
        Recv::Done { .. } => Recv::Stray,
        Recv::Stray => Recv::Stray,
        _ => match ev {
            Event::Fault(e) => Recv::Done { result: Err(e), data: recv_data(s) },
            Event::Eof => Recv::Stray,
            Event::Rx(b) => match s {
                Recv::Control => if b == CAN {
                    Recv::Done { result: Err(ErrorKind::ConnectionAborted), data: Seq::empty() }
                } else if b == EOT {
                    Recv::EotNak
                } else if b == SOH {
                    Recv::Number
                } else {
                    Recv::Done { result: Err(ErrorKind::InvalidData), data: Seq::empty() }
                },
                Recv::EotAgain => if b == EOT {
                    Recv::EotAck
                } else {
                    Recv::Done { result: Err(mismatch(b)), data: Seq::empty() }
                },
                Recv::Number => if b == n {
                    Recv::Complement
                } else {
                    Recv::Cancel { err: mismatch(b) }
                },
                Recv::Complement => if b == 255 - n {
                    Recv::Payload { data: Seq::empty() }
                } else {
                    Recv::Cancel { err: mismatch(b) }
                },
                Recv::Payload { data } => if data.len() + 1 == PACKET_LEN {
                    Recv::Check { data: data.push(b) }
                } else {
                    Recv::Payload { data: data.push(b) }
                },
                Recv::Check { data } => Recv::Reply { data, ok: b == checksum(data) },
                _ => Recv::Stray,
            },
            Event::Tx(b) => match s {
                Recv::Greet => if b != NAK {
                    Recv::Stray
                } else if short {
                    Recv::Done { result: Err(ErrorKind::UnexpectedEof), data: Seq::empty() }
                } else {
                    Recv::Control
                },
                Recv::EotNak => if b == NAK {
                    Recv::EotAgain
                } else {
                    Recv::Stray
                },
                Recv::EotAck => if b == ACK {
                    Recv::Done { result: Ok(0), data: Seq::empty() }
                } else {
                    Recv::Stray
                },
                Recv::Cancel { err } => if b == CAN {
                    Recv::Done { result: Err(err), data: Seq::empty() }
                } else {
                    Recv::Stray
                },
                Recv::Reply { data, ok } => if ok && b == ACK {
                    Recv::Done { result: Ok(PACKET_LEN), data }
                } else if !ok && b == NAK {
                    Recv::Done { result: Err(ErrorKind::Interrupted), data }
                } else {
                    Recv::Stray
                },
                _ => Recv::Stray,
            },
        },
    }
}

/// The state the receiving side reaches from `s` through the events `t`.
pub open spec fn recv_run(n: u8, short: bool, s: Recv, t: Seq<Event>) -> Recv
    decreases t.len(),
{
    if t.len() == 0 {
        s
    } else {
        recv_step(n, short, recv_run(n, short, s, t.drop_last()), t.last())
    }
}

/// Where the sending side of one packet exchange stands.
pub enum Send {
    /// Awaiting the receiver's opening `NAK`.
    Await,
    /// `k` bytes of the packet's frame have been written.
    Frame { k: nat },
    /// Awaiting `ACK` or `NAK` for the frame.
    Verdict,
    /// The first `EOT` is to be written.
    Eot,
    /// Awaiting `NAK` for the first `EOT`.
    EotNak,
    /// The second `EOT` is to be written.
    EotAgain,
    /// Awaiting `ACK` for the second `EOT`.
    EotAck,
    /// The exchange is over with `result`; `started` is whether the
    /// session has passed its opening handshake and not ended.
    Done { result: Result<usize, ErrorKind>, started: bool },
    /// The events are no run of this exchange.
    Stray,
}

/// The first state of the sending side once the session has started.
pub open spec fn send_body(data: Seq<u8>) -> Send {
    if data.len() == 0 {
        Send::Eot
    } else {
        Send::Frame { k: 0 }
    }
}

/// Where a sending exchange of `data` starts. A payload whose length is
/// neither a packet's nor zero is refused at once.
pub open spec fn send_start(started: bool, data: Seq<u8>) -> Send {
    if data.len() != 0 && data.len() != PACKET_LEN {
        Send::Done { result: Err(ErrorKind::UnexpectedEof), started }
    } else if !started {
        Send::Await
    } else {
        send_body(data)
    }
}

/// The outcome of an unexpected reply `b` once the session has started.
pub open spec fn send_refused(b: u8) -> Send {
    Send::Done { result: Err(mismatch(b)), started: true }
}

/// One step of the sending side of packet number `n` with payload `data`.
pub open spec fn send_step(n: u8, data: Seq<u8>, s: Send, ev: Event) -> Send {
    match s {
        Send::Done { .. } => Send::Stray,
        Send::Stray => Send::Stray,
        _ => match ev {
            Event::Fault(e) => Send::Done { result: Err(e), started: !(s is Await) },
            Event::Eof => Send::Stray,
            Event::Rx(b) => match s {
                Send::Await => if b == NAK {
                    send_body(data)
                } else {
                    Send::Done { result: Err(mismatch(b)), started: false }
                },
                Send::Verdict => if b == ACK {
                    Send::Done { result: Ok(PACKET_LEN), started: true }
                } else if b == NAK {
                    Send::Done { result: Err(ErrorKind::Interrupted), started: true }
                } else {
                    send_refused(b)
                },
                Send::EotNak => if b == NAK {
                    Send::EotAgain
                } else {
                    send_refused(b)
                },
                Send::EotAck => if b == ACK {
                    Send::Done { result: Ok(0), started: false }
                } else {
                    send_refused(b)
                },
                _ => Send::Stray,
            },
            Event::Tx(b) => match s {
                Send::Frame { k } => if k < frame(n, data).len() && b == frame(n, data)[k as int] {
                    if k + 1 == frame(n, data).len() {
                        Send::Verdict
                    } else {
                        Send::Frame { k: k + 1 }
                    }
                } else {
                    Send::Stray
                },
                Send::Eot => if b == EOT {
                    Send::EotNak
                } else {
                    Send::Stray
                },
                Send::EotAgain => if b == EOT {
                    Send::EotAck
                } else {
                    Send::Stray
                },
                _ => Send::Stray,
            },
        },
    }
}

/// The state the sending side reaches from `s` through the events `t`.
pub open spec fn send_run(n: u8, data: Seq<u8>, s: Send, t: Seq<Event>) -> Send
    decreases t.len(),
{
    if t.len() == 0 {
        s
    } else {
        send_step(n, data, send_run(n, data, s, t.drop_last()), t.last())
    }
}

/// Running the receiving side through one more event is one more step.
pub proof fn lemma_recv_run_push(n: u8, short: bool, s: Recv, t: Seq<Event>, ev: Event)
    ensures
        recv_run(n, short, s, t.push(ev)) == recv_step(n, short, recv_run(n, short, s, t), ev),
{
    assert(t.push(ev).drop_last() =~= t);
}

/// Running the sending side through one more event is one more step.
pub proof fn lemma_send_run_push(n: u8, data: Seq<u8>, s: Send, t: Seq<Event>, ev: Event)
    ensures
        send_run(n, data, s, t.push(ev)) == send_step(n, data, send_run(n, data, s, t), ev),
{
    assert(t.push(ev).drop_last() =~= t);
}

} // verus!

verus! {

/// The result of a single-byte read that left event `ev`, when a `CAN`
/// byte counts as an abort (`abort_on_can`) or as data.
pub open spec fn read_outcome(abort_on_can: bool, ev: Event) -> Result<u8, ErrorKind> {
    match ev {
        Event::Rx(b) => if abort_on_can && b == CAN {
            Err(ErrorKind::ConnectionAborted)
        } else {
            Ok(b)
        },
        Event::Fault(e) => Err(e),
        _ => Err(ErrorKind::Other),
    }
}

/// The result of reading one byte that must be `want`, from the event `ev`
/// the read left.
pub open spec fn expect_outcome(want: u8, ev: Event) -> Result<u8, ErrorKind> {
    match ev {
        Event::Rx(b) => if b == want {
            Ok(want)
        } else {
            Err(mismatch(b))
        },
        Event::Fault(e) => Err(e),
        _ => Err(ErrorKind::Other),
    }
}

/// Whether `ev` is what a read leaves: a byte read or a failure.
pub open spec fn is_read(ev: Event) -> bool {
    ev is Rx || ev is Fault
}

/// The events that `old` has gained to become `new`.
pub open spec fn gained(old: Seq<Event>, new: Seq<Event>) -> Seq<Event> {
    new.skip(old.len() as int)
}

/// The receiving side's state after the events `t` of an exchange that
/// expects packet number `n`, started with the session `started` or not,
/// into a buffer shorter than a packet (`short`) or not.
pub open spec fn recv_outcome(n: u8, short: bool, started: bool, t: Seq<Event>) -> Recv {
    recv_run(n, short, recv_start(started, short), t)
}

/// The sending side's state after the events `t` of an exchange that sends
/// `data` as packet number `n`, started with the session `started` or not.
pub open spec fn send_outcome(n: u8, data: Seq<u8>, started: bool, t: Seq<Event>) -> Send {
    send_run(n, data, send_start(started, data), t)
}

/// Extending the events after `t0` by one event steps the receiving side.
pub proof fn lemma_recv_advance(n: u8, short: bool, s: Recv, t0: Seq<Event>, t1: Seq<Event>, ev: Event)
    requires
        t0.is_prefix_of(t1),
    ensures
        t0.is_prefix_of(t1.push(ev)),
        gained(t0, t1.push(ev)) == gained(t0, t1).push(ev),
        recv_run(n, short, s, gained(t0, t1.push(ev))) == recv_step(n, short, recv_run(n, short, s, gained(t0, t1)), ev),
{
    assert(gained(t0, t1.push(ev)) =~= gained(t0, t1).push(ev));
    lemma_recv_run_push(n, short, s, gained(t0, t1), ev);
}

/// Extending the events after `t0` by one event steps the sending side.
pub proof fn lemma_send_advance(n: u8, data: Seq<u8>, s: Send, t0: Seq<Event>, t1: Seq<Event>, ev: Event)
    requires
        t0.is_prefix_of(t1),
    ensures
        t0.is_prefix_of(t1.push(ev)),
        gained(t0, t1.push(ev)) == gained(t0, t1).push(ev),
        send_run(n, data, s, gained(t0, t1.push(ev))) == send_step(n, data, send_run(n, data, s, gained(t0, t1)), ev),
{
    assert(gained(t0, t1.push(ev)) =~= gained(t0, t1).push(ev));
    lemma_send_run_push(n, data, s, gained(t0, t1), ev);
}

} // verus!
