//! Whole-stream transfers: the retry policy around packet exchanges, stated
//! as machines over what a transfer exchanges, built on the packet-level
//! machines.
use vstd::prelude::*;
use crate::io::{ErrorKind, Event, tx_all, rx_all, has_fault, eof_if};
use crate::protocol::{PACKET_LEN, Recv, Send, recv_start, recv_step, recv_run, send_start, send_step, send_run, next_seq};

verus! {

/// Consecutive attempts at one packet before a stream gives up with
/// `BrokenPipe`.
pub const MAX_TRIES: usize = 10;

/// Where a receiving stream stands.
pub enum Intake {
    /// Exchanging packet number `n` after `tries` failed attempts at it,
    /// with the packet exchange at `st`; `got` is the payload of the packets
    /// received so far.
    Packet { n: u8, tries: nat, got: Seq<u8>, st: Recv },
    /// The stream is over with `result`.
    Done { result: Result<usize, ErrorKind>, got: Seq<u8> },
    /// The events are no run of a receiving stream.
    Stray,
}

/// A receiving stream of a session at packet number `n`.
pub open spec fn intake_start(n: u8, started: bool) -> Intake {
    Intake::Packet { n, tries: 0, got: Seq::empty(), st: recv_start(started, false) }
}

/// What follows a packet exchange that ended with `result` and `data`.
pub open spec fn intake_after(
    n: u8,
    tries: nat,
    got: Seq<u8>,
    result: Result<usize, ErrorKind>,
    data: Seq<u8>,
) -> Intake {
    match result {
        Ok(k) => if k == 0 {
            Intake::Done { result: Ok(got.len() as usize), got }
        } else {
            Intake::Packet { n: next_seq(n), tries: 0, got: got + data, st: Recv::Control }
        },
        Err(e) => if e != ErrorKind::Interrupted {
            Intake::Done { result: Err(e), got }
        } else if tries + 1 >= MAX_TRIES {
            Intake::Done { result: Err(ErrorKind::BrokenPipe), got }
        } else {
            Intake::Packet { n, tries: tries + 1, got, st: Recv::Control }
        },
    }
}

/// One step of a receiving stream.
pub open spec fn intake_step(s: Intake, ev: Event) -> Intake {
    match s {
        Intake::Packet { n, tries, got, st } => match recv_step(n, false, st, ev) {
            Recv::Done { result, data } => intake_after(n, tries, got, result, data),
            Recv::Stray => Intake::Stray,
            next => Intake::Packet { n, tries, got, st: next },
        },
        _ => Intake::Stray,
    }
}

/// The state a receiving stream reaches from `s` through the events `t`.
pub open spec fn intake_run(s: Intake, t: Seq<Event>) -> Intake
    decreases t.len(),
{
    if t.len() == 0 {
        s
    } else {
        intake_step(intake_run(s, t.drop_last()), t.last())
    }
}

/// Whether a receiving stream whose transport reached `s` accounts for the
/// result `r` and the events `out` of its sink: after the end of
/// transmission, or a failure on the transport, the sink has taken every
/// payload received; otherwise the sink failed on the last packet, or the
/// count of bytes outgrew `usize`.
pub open spec fn intake_explains(s: Intake, out: Seq<Event>, r: Result<usize, ErrorKind>) -> bool {
    match s {
        Intake::Done { result, got } => r == result && out == tx_all(got),
        Intake::Packet { tries, got, st, .. } => {
            &&& st == Recv::Control
            &&& tries == 0
            &&& got.len() >= PACKET_LEN
            &&& r is Err
            &&& {
                ||| got.len() > usize::MAX && r == Err::<usize, ErrorKind>(ErrorKind::Other) && out
                    == tx_all(got.take(got.len() - PACKET_LEN))
                ||| exists|k: int|
                    got.len() - PACKET_LEN <= k < got.len() && out == tx_all(got.take(k)).push(
                        Event::Fault(r->Err_0),
                    )
            }
        },
        Intake::Stray => false,
    }
}

/// Running a receiving stream through `a + b` is running it through `a`,
/// then `b`.
pub proof fn lemma_intake_run_concat(s: Intake, a: Seq<Event>, b: Seq<Event>)
    ensures
        intake_run(s, a + b) == intake_run(intake_run(s, a), b),
    decreases b.len(),
{
    if b.len() == 0 {
        assert(a + b =~= a);
    } else {
        lemma_intake_run_concat(s, a, b.drop_last());
        assert((a + b).drop_last() =~= a + b.drop_last());
    }
}

/// A receiving stream follows its packet exchange until that ends.
pub proof fn lemma_intake_packet(n: u8, tries: nat, got: Seq<u8>, st: Recv, g: Seq<Event>)
    requires
        !(st is Done),
        !(st is Stray),
    ensures
        !(recv_run(n, false, st, g) is Done) && !(recv_run(n, false, st, g) is Stray) ==> intake_run(
            Intake::Packet { n, tries, got, st },
            g,
        ) == (Intake::Packet { n, tries, got, st: recv_run(n, false, st, g) }),
        recv_run(n, false, st, g) matches Recv::Done { result, data } ==> intake_run(
            Intake::Packet { n, tries, got, st },
            g,
        ) == intake_after(n, tries, got, result, data),
    decreases g.len(),
{
    if g.len() > 0 {
        lemma_intake_packet(n, tries, got, st, g.drop_last());
    }
}

/// A step of a sending stream: a chunk pulled from the data source, or an
/// event on the transport.
pub enum Feed {
    Pull(Seq<u8>),
    Wire(Event),
}

/// Where a sending stream stands.
pub enum Outlet {
    /// Between packets, about to pull the next chunk for packet number `n`.
    Ready { n: u8, started: bool },
    /// Exchanging `data` as packet number `n` after `tries` failed attempts
    /// at it, with the packet exchange at `st`; an empty `data` is the end
    /// of transmission.
    Packet { n: u8, data: Seq<u8>, tries: nat, st: Send },
    /// The stream is over.
    Done { result: Result<(), ErrorKind> },
    /// The steps are no run of a sending stream.
    Stray,
}

/// `c` followed by zeroes up to the length of a packet.
pub open spec fn pad(c: Seq<u8>) -> Seq<u8> {
    c + Seq::new((PACKET_LEN - c.len()) as nat, |i: int| 0u8)
}

/// What follows a packet exchange that ended with `result`.
pub open spec fn outlet_after(
    n: u8,
    data: Seq<u8>,
    tries: nat,
    result: Result<usize, ErrorKind>,
    started: bool,
) -> Outlet {
    match result {
        Ok(_) => if data.len() == 0 {
            Outlet::Done { result: Ok(()) }
        } else {
            Outlet::Ready { n: next_seq(n), started }
        },
        Err(e) => if data.len() == 0 || e != ErrorKind::Interrupted {
            Outlet::Done { result: Err(e) }
        } else if tries + 1 >= MAX_TRIES {
            Outlet::Done { result: Err(ErrorKind::BrokenPipe) }
        } else {
            Outlet::Packet { n, data, tries: tries + 1, st: send_start(started, data) }
        },
    }
}

/// One step of a sending stream.
pub open spec fn outlet_step(s: Outlet, f: Feed) -> Outlet {
    match s {
        Outlet::Ready { n, started } => match f {
            Feed::Pull(c) => if c.len() == 0 {
                Outlet::Packet { n, data: c, tries: 0, st: send_start(started, c) }
            } else {
                Outlet::Packet { n, data: pad(c), tries: 0, st: send_start(started, pad(c)) }
            },
            Feed::Wire(_) => Outlet::Stray,
        },
        Outlet::Packet { n, data, tries, st } => match f {
            Feed::Wire(ev) => match send_step(n, data, st, ev) {
                Send::Done { result, started } => outlet_after(n, data, tries, result, started),
                Send::Stray => Outlet::Stray,
                next => Outlet::Packet { n, data, tries, st: next },
            },
            Feed::Pull(_) => Outlet::Stray,
        },
        _ => Outlet::Stray,
    }
}

/// The state a sending stream reaches from `s` through the steps `t`.
pub open spec fn outlet_run(s: Outlet, t: Seq<Feed>) -> Outlet
    decreases t.len(),
{
    if t.len() == 0 {
        s
    } else {
        outlet_step(outlet_run(s, t.drop_last()), t.last())
    }
}

/// The transport events among the steps `t`.
pub open spec fn wire_of(t: Seq<Feed>) -> Seq<Event>
    decreases t.len(),
{
    if t.len() == 0 {
        Seq::empty()
    } else {
        match t.last() {
            Feed::Wire(ev) => wire_of(t.drop_last()).push(ev),
            Feed::Pull(_) => wire_of(t.drop_last()),
        }
    }
}

/// The bytes pulled from the data source in the steps `t`.
pub open spec fn pulled_of(t: Seq<Feed>) -> Seq<u8>
    decreases t.len(),
{
    if t.len() == 0 {
        Seq::empty()
    } else {
        match t.last() {
            Feed::Wire(_) => pulled_of(t.drop_last()),
            Feed::Pull(c) => pulled_of(t.drop_last()) + c,
        }
    }
}

/// What the data source records for the pulls among the steps `t`: the
/// bytes of each chunk, and `Eof` after a chunk shorter than a packet.
pub open spec fn source_of(t: Seq<Feed>) -> Seq<Event>
    decreases t.len(),
{
    if t.len() == 0 {
        Seq::empty()
    } else {
        match t.last() {
            Feed::Wire(_) => source_of(t.drop_last()),
            Feed::Pull(c) => source_of(t.drop_last()) + rx_all(c) + eof_if(c.len() < PACKET_LEN),
        }
    }
}

/// The transport events `g` as steps of a sending stream.
pub open spec fn wires(g: Seq<Event>) -> Seq<Feed> {
    g.map_values(|ev: Event| Feed::Wire(ev))
}

/// Whether a sending stream that reached `s` after pulling `pulled`
/// accounts for the result `r`: the count of the bytes pulled after the end
/// of transmission, the failure of a packet exchange, or, between packets, a
/// failure of the data source; otherwise the count outgrew `usize`.
pub open spec fn outlet_explains(s: Outlet, pulled: Seq<u8>, r: Result<usize, ErrorKind>) -> bool {
    match s {
        Outlet::Done { result } => match result {
            Ok(_) => pulled.len() <= usize::MAX && r == Ok::<usize, ErrorKind>(pulled.len() as usize),
            Err(e) => r == Err::<usize, ErrorKind>(e),
        },
        Outlet::Ready { .. } => r is Err,
        Outlet::Packet { data, tries, st, .. } => {
            &&& tries == 0
            &&& data.len() == PACKET_LEN
            &&& st == send_start(true, data) || st == send_start(false, data)
            &&& pulled.len() > usize::MAX
            &&& r == Err::<usize, ErrorKind>(ErrorKind::Other)
        },
        Outlet::Stray => false,
    }
}

/// Running a sending stream through `a + b` is running it through `a`, then
/// `b`.
pub proof fn lemma_outlet_run_concat(s: Outlet, a: Seq<Feed>, b: Seq<Feed>)
    ensures
        outlet_run(s, a + b) == outlet_run(outlet_run(s, a), b),
        wire_of(a + b) == wire_of(a) + wire_of(b),
        pulled_of(a + b) == pulled_of(a) + pulled_of(b),
        source_of(a + b) == source_of(a) + source_of(b),
    decreases b.len(),
{
    if b.len() == 0 {
        assert(a + b =~= a);
        assert(wire_of(a) + wire_of(b) =~= wire_of(a));
        assert(pulled_of(a) + pulled_of(b) =~= pulled_of(a));
        assert(source_of(a) + source_of(b) =~= source_of(a));
    } else {
        lemma_outlet_run_concat(s, a, b.drop_last());
        assert((a + b).drop_last() =~= a + b.drop_last());
        match b.last() {
            Feed::Wire(ev) => {
                assert(wire_of(a) + wire_of(b.drop_last()).push(ev) =~= (wire_of(a) + wire_of(
                    b.drop_last(),
                )).push(ev));
            },
            Feed::Pull(c) => {
                assert(pulled_of(a) + (pulled_of(b.drop_last()) + c) =~= (pulled_of(a) + pulled_of(
                    b.drop_last(),
                )) + c);
                let x = rx_all(c) + eof_if(c.len() < PACKET_LEN);
                assert(source_of(a) + (source_of(b.drop_last()) + rx_all(c) + eof_if(c.len() < PACKET_LEN)) =~= (source_of(a) + source_of(
                    b.drop_last(),
                )) + rx_all(c) + eof_if(c.len() < PACKET_LEN));
            },
        }
    }
}

/// Transport events, as steps, are all transport and pull nothing.
pub proof fn lemma_wires(g: Seq<Event>)
    ensures
        wire_of(wires(g)) == g,
        pulled_of(wires(g)) == Seq::<u8>::empty(),
        source_of(wires(g)) == Seq::<Event>::empty(),
    decreases g.len(),
{
    if g.len() > 0 {
        lemma_wires(g.drop_last());
        assert(wires(g).drop_last() =~= wires(g.drop_last()));
        assert(g.drop_last().push(g.last()) =~= g);
    } else {
        assert(wires(g) =~= Seq::<Feed>::empty());
        assert(g =~= Seq::<Event>::empty());
    }
}

/// A sending stream follows its packet exchange until that ends.
pub proof fn lemma_outlet_packet(n: u8, data: Seq<u8>, tries: nat, st: Send, g: Seq<Event>)
    requires
        !(st is Done),
        !(st is Stray),
    ensures
        !(send_run(n, data, st, g) is Done) && !(send_run(n, data, st, g) is Stray) ==> outlet_run(
            Outlet::Packet { n, data, tries, st },
            wires(g),
        ) == (Outlet::Packet { n, data, tries, st: send_run(n, data, st, g) }),
        send_run(n, data, st, g) matches Send::Done { result, started } ==> outlet_run(
            Outlet::Packet { n, data, tries, st },
            wires(g),
        ) == outlet_after(n, data, tries, result, started),
    decreases g.len(),
{
    if g.len() > 0 {
        lemma_outlet_packet(n, data, tries, st, g.drop_last());
        assert(wires(g).drop_last() =~= wires(g.drop_last()));
    } else {
        assert(wires(g) =~= Seq::<Feed>::empty());
    }
}

} // verus!

verus! {

/// Whether the events `sg` of a sending stream's data source account for
/// the steps `cs` of a stream that reached `s` with result `r`: a stream
/// that stopped between packets did so because the source failed with the
/// error returned; otherwise, unless the source was interrupted along the
/// way, it recorded exactly the chunks pulled, each short one followed by
/// `Eof`.
pub open spec fn source_explains(
    sg: Seq<Event>,
    cs: Seq<Feed>,
    s: Outlet,
    r: Result<usize, ErrorKind>,
) -> bool {
    &&& s is Ready ==> r is Err && sg.len() > 0 && sg.last() == Event::Fault(r->Err_0)
    &&& !(s is Ready) && !has_fault(sg, ErrorKind::Interrupted) ==> sg == source_of(cs)
}

/// A fault in a part of a history is a fault in the whole.
pub proof fn lemma_fault_parts(a: Seq<Event>, b: Seq<Event>, e: ErrorKind)
    ensures
        has_fault(a, e) ==> has_fault(a + b, e),
        has_fault(b, e) ==> has_fault(a + b, e),
{
    if has_fault(a, e) {
        let i = choose|i: int| 0 <= i < a.len() && a[i] == Event::Fault(e);
        assert((a + b)[i] == Event::Fault(e));
    }
    if has_fault(b, e) {
        let i = choose|i: int| 0 <= i < b.len() && b[i] == Event::Fault(e);
        assert((a + b)[a.len() + i] == Event::Fault(e));
    }
}

} // verus!

verus! {

/// A single pull is one step that pulls its chunk and nothing from the
/// transport.
pub proof fn lemma_pull(s: Outlet, c: Seq<u8>)
    ensures
        outlet_run(s, seq![Feed::Pull(c)]) == outlet_step(s, Feed::Pull(c)),
        wire_of(seq![Feed::Pull(c)]) == Seq::<Event>::empty(),
        pulled_of(seq![Feed::Pull(c)]) == c,
        source_of(seq![Feed::Pull(c)]) == rx_all(c) + eof_if(c.len() < PACKET_LEN),
{
    let t = seq![Feed::Pull(c)];
    assert(t.drop_last() =~= Seq::<Feed>::empty());
    assert(pulled_of(t.drop_last()) == Seq::<u8>::empty());
    assert(wire_of(t.drop_last()) == Seq::<Event>::empty());
    assert(source_of(t.drop_last()) == Seq::<Event>::empty());
    assert(Seq::<Event>::empty() + rx_all(c) + eof_if(c.len() < PACKET_LEN) =~= rx_all(c) + eof_if(c.len() < PACKET_LEN));
    assert(outlet_run(s, t.drop_last()) == s);
    assert(t.last() == Feed::Pull(c));
    assert(Seq::<u8>::empty() + c =~= c);
}

} // verus!
