//! What the protocol guarantees across calls: how sequence numbers wrap,
//! what aborts an exchange, and how corrupted or rejected packets are
//! retried.
use vstd::prelude::*;
use vstd::arithmetic::div_mod::lemma_add_mod_noop_right;
use crate::io::{ErrorKind, Event, rx_all, tx_all};
use crate::protocol::{
    SOH, NAK, ACK, CAN, PACKET_LEN, Recv, Send, checksum, frame, next_seq, recv_run, recv_step,
    send_run, recv_outcome, send_outcome, lemma_recv_run_push, lemma_send_run_push,
};
use crate::stream::{
    MAX_TRIES, Intake, Outlet, Feed, intake_run, outlet_run, wires, wire_of, pulled_of,
    lemma_intake_run_concat,
    lemma_intake_packet, lemma_outlet_run_concat, lemma_outlet_packet,
};

verus! {

/// Running the receiving side through `a + b` is running it through `a`,
/// then `b`.
pub proof fn lemma_recv_run_concat(n: u8, short: bool, s: Recv, a: Seq<Event>, b: Seq<Event>)
    ensures
        recv_run(n, short, s, a + b) == recv_run(n, short, recv_run(n, short, s, a), b),
    decreases b.len(),
{
    if b.len() == 0 {
        assert(a + b =~= a);
    } else {
        lemma_recv_run_concat(n, short, s, a, b.drop_last());
        assert((a + b).drop_last() =~= a + b.drop_last());
    }
}

/// Running the sending side through `a + b` is running it through `a`,
/// then `b`.
pub proof fn lemma_send_run_concat(n: u8, data: Seq<u8>, s: Send, a: Seq<Event>, b: Seq<Event>)
    ensures
        send_run(n, data, s, a + b) == send_run(n, data, send_run(n, data, s, a), b),
    decreases b.len(),
{
    if b.len() == 0 {
        assert(a + b =~= a);
    } else {
        lemma_send_run_concat(n, data, s, a, b.drop_last());
        assert((a + b).drop_last() =~= a + b.drop_last());
    }
}

/// Running the receiving side through one, two or three events is taking
/// that many steps.
pub proof fn lemma_recv_run_short(n: u8, short: bool, s: Recv, a: Event, b: Event, c: Event)
    ensures
        recv_run(n, short, s, seq![a]) == recv_step(n, short, s, a),
        recv_run(n, short, s, seq![a, b]) == recv_step(n, short, recv_step(n, short, s, a), b),
        recv_run(n, short, s, seq![a, b, c]) == recv_step(
            n,
            short,
            recv_step(n, short, recv_step(n, short, s, a), b),
            c,
        ),
{
    let e = Seq::<Event>::empty();
    lemma_recv_run_push(n, short, s, e, a);
    lemma_recv_run_push(n, short, s, e.push(a), b);
    lemma_recv_run_push(n, short, s, e.push(a).push(b), c);
    assert(seq![a] =~= e.push(a));
    assert(seq![a, b] =~= e.push(a).push(b));
    assert(seq![a, b, c] =~= e.push(a).push(b).push(c));
}

/// Writing the first `j` bytes of a packet's frame advances the sending
/// side through the frame, to awaiting the verdict once it is complete.
pub proof fn lemma_send_frame(n: u8, data: Seq<u8>, j: nat)
    requires
        data.len() == PACKET_LEN,
        j <= frame(n, data).len(),
    ensures
        send_run(n, data, Send::Frame { k: 0 }, tx_all(frame(n, data).take(j as int))) == if j
            < frame(n, data).len() {
            Send::Frame { k: j }
        } else {
            Send::Verdict
        },
    decreases j,
{
    let f = frame(n, data);
    if j == 0 {
        assert(tx_all(f.take(0)) =~= Seq::<Event>::empty());
    } else {
        lemma_send_frame(n, data, (j - 1) as nat);
        assert(tx_all(f.take(j as int)).drop_last() =~= tx_all(f.take(j - 1)));
    }
}

/// Reading the first `j` payload bytes of `d` fills the receiving side's
/// payload, and the last of them completes it.
pub proof fn lemma_recv_payload(n: u8, d: Seq<u8>, j: nat)
    requires
        d.len() == PACKET_LEN,
        j <= PACKET_LEN,
    ensures
        recv_run(n, false, Recv::Payload { data: Seq::empty() }, rx_all(d.take(j as int))) == if j
            < PACKET_LEN {
            Recv::Payload { data: d.take(j as int) }
        } else {
            Recv::Check { data: d }
        },
    decreases j,
{
    if j == 0 {
        assert(rx_all(d.take(0)) =~= Seq::<Event>::empty());
        assert(d.take(0) =~= Seq::<u8>::empty());
    } else {
        lemma_recv_payload(n, d, (j - 1) as nat);
        assert(rx_all(d.take(j as int)).drop_last() =~= rx_all(d.take(j - 1)));
        assert(d.take(j - 1).push(d[j - 1]) =~= d.take(j as int));
        assert(d.take(PACKET_LEN as int) =~= d);
    }
}

/// Reading a packet numbered `n` with payload `d` and checksum byte `c`
/// leaves the receiving side about to answer: `ACK` when `c` is the
/// checksum of `d`, `NAK` otherwise.
pub proof fn lemma_recv_frame(n: u8, d: Seq<u8>, c: u8)
    requires
        d.len() == PACKET_LEN,
    ensures
        recv_run(n, false, Recv::Control, rx_all(seq![SOH, n, (255 - n) as u8] + d + seq![c]))
            == (Recv::Reply { data: d, ok: c == checksum(d) }),
{
    let head = seq![SOH, n, (255 - n) as u8];
    let h = rx_all(head);
    assert(rx_all(head + d + seq![c]) =~= h + rx_all(d) + seq![Event::Rx(c)]);
    assert(h =~= seq![Event::Rx(SOH), Event::Rx(n), Event::Rx((255 - n) as u8)]);
    lemma_recv_run_short(n, false, Recv::Control, Event::Rx(SOH), Event::Rx(n), Event::Rx((255 - n) as u8));
    assert(recv_run(n, false, Recv::Control, h) == Recv::Payload { data: Seq::empty() });
    lemma_recv_payload(n, d, PACKET_LEN as nat);
    assert(d.take(PACKET_LEN as int) =~= d);
    lemma_recv_run_concat(n, false, Recv::Control, h, rx_all(d));
    lemma_recv_run_push(n, false, Recv::Control, h + rx_all(d), Event::Rx(c));
    assert(h + rx_all(d) + seq![Event::Rx(c)] =~= (h + rx_all(d)).push(Event::Rx(c)));
}

/// The number of the packet that follows `k` acknowledged packets of a
/// session.
pub open spec fn seq_after(k: nat) -> u8
    decreases k,
{
    if k == 0 {
        1
    } else {
        next_seq(seq_after((k - 1) as nat))
    }
}

/// After `k` acknowledged packets the number is `1 + k` modulo 256.
pub proof fn lemma_seq_after(k: nat)
    ensures
        seq_after(k) == (1 + k) % 256,
    decreases k,
{
    if k > 0 {
        lemma_seq_after((k - 1) as nat);
    }
}

/// Sequence numbers wrap: after 255 acknowledged packets the next packet is
/// numbered 0, and is framed, and expected, with 0 and its complement 255.
pub proof fn sequence_wraps(d: Seq<u8>)
    requires
        d.len() == PACKET_LEN,
    ensures
        seq_after(255) == 0,
        frame(seq_after(255), d)[1] == 0,
        frame(seq_after(255), d)[2] == 255,
        recv_run(0, false, Recv::Control, seq![Event::Rx(SOH), Event::Rx(0), Event::Rx(255)])
            == (Recv::Payload { data: Seq::empty() }),
{
    lemma_seq_after(255);
    lemma_recv_run_short(0, false, Recv::Control, Event::Rx(SOH), Event::Rx(0), Event::Rx(255));
}

/// `CAN` aborts: as the first control byte, as the packet number (for any
/// number but `CAN` itself), or as the answer to a sent packet, it ends the
/// exchange with `ConnectionAborted`; a wrong number is answered with `CAN`
/// and nothing else is written, and nothing can follow.
pub proof fn can_aborts(n: u8, d: Seq<u8>, ev: Event)
    requires
        n != CAN,
        d.len() == PACKET_LEN,
    ensures
        recv_outcome(n, false, true, seq![Event::Rx(CAN)]) == (Recv::Done {
            result: Err(ErrorKind::ConnectionAborted),
            data: Seq::empty(),
        }),
        recv_outcome(n, false, true, seq![Event::Rx(CAN)].push(ev)) == Recv::Stray,
        recv_outcome(n, false, true, seq![Event::Rx(SOH), Event::Rx(CAN), Event::Tx(CAN)])
            == (Recv::Done { result: Err(ErrorKind::ConnectionAborted), data: Seq::empty() }),
        recv_outcome(
            n,
            false,
            true,
            seq![Event::Rx(SOH), Event::Rx(CAN), Event::Tx(CAN)].push(ev),
        ) == Recv::Stray,
        send_outcome(n, d, true, tx_all(frame(n, d)).push(Event::Rx(CAN))) == (Send::Done {
            result: Err(ErrorKind::ConnectionAborted),
            started: true,
        }),
        send_outcome(n, d, true, tx_all(frame(n, d)).push(Event::Rx(CAN)).push(ev))
            == Send::Stray,
{
    lemma_recv_run_short(n, false, Recv::Control, Event::Rx(CAN), ev, ev);
    lemma_recv_run_short(n, false, Recv::Control, Event::Rx(SOH), Event::Rx(CAN), Event::Tx(CAN));
    let a = seq![Event::Rx(CAN)];
    lemma_recv_run_push(n, false, Recv::Control, a, ev);
    let b = seq![Event::Rx(SOH), Event::Rx(CAN), Event::Tx(CAN)];
    lemma_recv_run_push(n, false, Recv::Control, b, ev);
    lemma_send_frame(n, d, frame(n, d).len());
    assert(frame(n, d).take(frame(n, d).len() as int) =~= frame(n, d));
    let f = tx_all(frame(n, d));
    lemma_send_run_push(n, d, Send::Frame { k: 0 }, f, Event::Rx(CAN));
    lemma_send_run_push(n, d, Send::Frame { k: 0 }, f.push(Event::Rx(CAN)), ev);
}

/// A receive buffer shorter than a packet is refused with `UnexpectedEof`
/// after at most the opening `NAK`, and nothing is read.
pub proof fn short_buffer_refused(n: u8)
    ensures
        recv_outcome(n, true, false, seq![Event::Tx(NAK)]) == (Recv::Done {
            result: Err(ErrorKind::UnexpectedEof),
            data: Seq::empty(),
        }),
        recv_outcome(n, true, true, Seq::empty()) == (Recv::Done {
            result: Err(ErrorKind::UnexpectedEof),
            data: Seq::empty(),
        }),
{
    lemma_recv_run_short(n, true, Recv::Greet, Event::Tx(NAK), Event::Tx(NAK), Event::Tx(NAK));
}

} // verus!

verus! {

/// One attempt at sending `d` as packet number `n` that the receiver
/// answers with `NAK`.
pub open spec fn rejected_attempt(n: u8, d: Seq<u8>) -> Seq<Event> {
    tx_all(frame(n, d)).push(Event::Rx(NAK))
}

/// `k` rejected attempts in a row, as steps of a sending stream.
pub open spec fn rejected_attempts(n: u8, d: Seq<u8>, k: nat) -> Seq<Feed>
    decreases k,
{
    if k == 0 {
        Seq::empty()
    } else {
        rejected_attempts(n, d, (k - 1) as nat) + wires(rejected_attempt(n, d))
    }
}

/// A rejected attempt ends the packet exchange with `Interrupted`.
pub proof fn lemma_rejected_attempt(n: u8, d: Seq<u8>)
    requires
        d.len() == PACKET_LEN,
    ensures
        send_run(n, d, Send::Frame { k: 0 }, rejected_attempt(n, d)) == (Send::Done {
            result: Err(ErrorKind::Interrupted),
            started: true,
        }),
{
    lemma_send_frame(n, d, frame(n, d).len());
    assert(frame(n, d).take(frame(n, d).len() as int) =~= frame(n, d));
    lemma_send_run_push(n, d, Send::Frame { k: 0 }, tx_all(frame(n, d)), Event::Rx(NAK));
}

/// A receiver that rejects every attempt at a packet makes the sending
/// stream send it again, under the same number, until the tenth attempt
/// has been rejected; then the stream fails with `BrokenPipe`.
pub proof fn rejections_exhaust_retries(n: u8, d: Seq<u8>, k: nat)
    requires
        d.len() == PACKET_LEN,
        k <= MAX_TRIES,
    ensures
        outlet_run(
            Outlet::Packet { n, data: d, tries: 0, st: Send::Frame { k: 0 } },
            rejected_attempts(n, d, k),
        ) == if k < MAX_TRIES {
            Outlet::Packet { n, data: d, tries: k, st: Send::Frame { k: 0 } }
        } else {
            Outlet::Done { result: Err(ErrorKind::BrokenPipe) }
        },
    decreases k,
{
    if k > 0 {
        let start = Outlet::Packet { n, data: d, tries: 0, st: Send::Frame { k: 0 } };
        rejections_exhaust_retries(n, d, (k - 1) as nat);
        lemma_outlet_run_concat(start, rejected_attempts(n, d, (k - 1) as nat), wires(rejected_attempt(n, d)));
        lemma_rejected_attempt(n, d);
        lemma_outlet_packet(n, d, (k - 1) as nat, Send::Frame { k: 0 }, rejected_attempt(n, d));
    }
}

/// A packet numbered `n` with payload `d` and checksum byte `c`, read by
/// the receiver, and its answer: `ACK` when `c` is the checksum of `d`,
/// `NAK` otherwise.
pub open spec fn received_attempt(n: u8, d: Seq<u8>, c: u8) -> Seq<Event> {
    rx_all(seq![SOH, n, (255 - n) as u8] + d + seq![c]).push(
        Event::Tx(if c == checksum(d) { ACK } else { NAK }),
    )
}

/// The checksum changes with any one byte of the payload.
pub proof fn lemma_checksum_update(s: Seq<u8>, i: int, x: u8)
    requires
        0 <= i < s.len(),
    ensures
        checksum(s.update(i, x)) as int == (checksum(s) as int + x as int - s[i] as int) % 256,
    decreases s.len(),
{
    let u = s.update(i, x);
    let a = checksum(s.drop_last()) as int;
    if i == s.len() - 1 {
        assert(u.drop_last() =~= s.drop_last());
        lemma_add_mod_noop_right(x - s[i], a + s[i], 256);
    } else {
        lemma_checksum_update(s.drop_last(), i, x);
        assert(u.drop_last() =~= s.drop_last().update(i, x));
        let l = s.last() as int;
        let dx = x - s[i];
        lemma_add_mod_noop_right(l, a + dx, 256);
        lemma_add_mod_noop_right(dx, a + l, 256);
        assert(l + (a + dx) == dx + (a + l));
    }
}

/// A packet whose payload was corrupted in one byte on the way is answered
/// with `NAK` and expected again under the same number; the intact packet
/// that the sender then sends again is accepted, and the stream moves on to
/// the next number.
pub proof fn corrupted_packet_retried(n: u8, got: Seq<u8>, d: Seq<u8>, i: int, x: u8, tries: nat)
    requires
        d.len() == PACKET_LEN,
        0 <= i < PACKET_LEN,
        x != d[i],
        tries + 1 < MAX_TRIES,
    ensures
        intake_run(
            Intake::Packet { n, tries, got, st: Recv::Control },
            received_attempt(n, d.update(i, x), checksum(d)),
        ) == (Intake::Packet { n, tries: tries + 1, got, st: Recv::Control }),
        intake_run(
            Intake::Packet { n, tries, got, st: Recv::Control },
            received_attempt(n, d.update(i, x), checksum(d)) + received_attempt(n, d, checksum(d)),
        ) == (Intake::Packet { n: next_seq(n), tries: 0, got: got + d, st: Recv::Control }),
{
    let seen = d.update(i, x);
    lemma_checksum_update(d, i, x);
    assert(checksum(seen) != checksum(d));
    let bad = received_attempt(n, seen, checksum(d));
    let good = received_attempt(n, d, checksum(d));
    let start = Intake::Packet { n, tries, got, st: Recv::Control };
    lemma_recv_frame(n, seen, checksum(d));
    assert(bad.drop_last() =~= rx_all(seq![SOH, n, (255 - n) as u8] + seen + seq![checksum(d)]));
    lemma_recv_run_push(n, false, Recv::Control, bad.drop_last(), Event::Tx(NAK));
    assert(bad.drop_last().push(Event::Tx(NAK)) =~= bad);
    lemma_intake_packet(n, tries, got, Recv::Control, bad);
    lemma_recv_frame(n, d, checksum(d));
    assert(good.drop_last() =~= rx_all(seq![SOH, n, (255 - n) as u8] + d + seq![checksum(d)]));
    lemma_recv_run_push(n, false, Recv::Control, good.drop_last(), Event::Tx(ACK));
    assert(good.drop_last().push(Event::Tx(ACK)) =~= good);
    lemma_intake_packet(n, (tries + 1) as nat, got, Recv::Control, good);
    lemma_intake_run_concat(start, bad, good);
}

} // verus!

verus! {

/// `ev` as the peer at the other end of the transport sees it.
pub open spec fn mirror(ev: Event) -> Event {
    match ev {
        Event::Rx(b) => Event::Tx(b),
        Event::Tx(b) => Event::Rx(b),
        Event::Fault(e) => Event::Fault(e),
        Event::Eof => Event::Eof,
    }
}

/// The events `t` as the peer at the other end of the transport sees them.
pub open spec fn mirrored(t: Seq<Event>) -> Seq<Event> {
    t.map_values(|ev: Event| mirror(ev))
}

/// The number of packets that carry `len` bytes.
pub open spec fn packet_count(len: nat) -> nat {
    (len + 127) / 128
}

/// The bytes of `d` that packet `i` carries.
pub open spec fn chunk(d: Seq<u8>, i: nat) -> Seq<u8> {
    if 128 * (i + 1) <= d.len() {
        d.subrange(128 * i as int, 128 * (i + 1) as int)
    } else {
        d.subrange(128 * i as int, d.len() as int)
    }
}

/// The number of the packet at index `i` of a session.
pub open spec fn number(i: nat) -> u8 {
    ((1 + i) % 256) as u8
}

/// The receiver's opening `NAK`, as the sender reads it, when `first`.
pub open spec fn opening(first: bool) -> Seq<Event> {
    if first {
        seq![Event::Rx(NAK)]
    } else {
        Seq::empty()
    }
}

/// The sender's side of the exchange of packet `i` of `d`, accepted.
pub open spec fn packet_exchange(d: Seq<u8>, i: nat) -> Seq<Event> {
    opening(i == 0) + tx_all(frame(number(i), crate::stream::pad(chunk(d, i)))) + seq![Event::Rx(ACK)]
}

/// The sender's side of the end of transmission, accepted.
pub open spec fn closing_exchange(first: bool) -> Seq<Event> {
    opening(first) + seq![
        Event::Tx(crate::protocol::EOT),
        Event::Rx(NAK),
        Event::Tx(crate::protocol::EOT),
        Event::Rx(ACK),
    ]
}

/// The first `k` packets of `d` pulled and sent, each accepted at once.
pub open spec fn packets_sent(d: Seq<u8>, k: nat) -> Seq<Feed>
    decreases k,
{
    if k == 0 {
        Seq::empty()
    } else {
        packets_sent(d, (k - 1) as nat).push(Feed::Pull(chunk(d, (k - 1) as nat))) + wires(
            packet_exchange(d, (k - 1) as nat),
        )
    }
}

/// The sending of all of `d` over a transport whose receiver accepts
/// everything at once.
pub open spec fn transmission(d: Seq<u8>) -> Seq<Feed> {
    packets_sent(d, packet_count(d.len())).push(Feed::Pull(Seq::empty())) + wires(
        closing_exchange(packet_count(d.len()) == 0),
    )
}

/// `d` followed by zeroes up to a whole number of packets.
pub open spec fn padded(d: Seq<u8>) -> Seq<u8> {
    d + Seq::new((128 * packet_count(d.len()) - d.len()) as nat, |i: int| 0u8)
}

proof fn lemma_packet_count(len: nat)
    ensures
        128 * packet_count(len) >= len,
        128 * packet_count(len) < len + 128,
        packet_count(len) > 0 ==> 128 * (packet_count(len) - 1) < len,
{
    let m = packet_count(len);
    assert(len + 127 == 128 * m + (len + 127) % 128) by (nonlinear_arith)
        requires
            m == (len + 127) / 128,
    ;
}

proof fn lemma_mirrored_concat(a: Seq<Event>, b: Seq<Event>)
    ensures
        mirrored(a + b) == mirrored(a) + mirrored(b),
{
    assert(mirrored(a + b) =~= mirrored(a) + mirrored(b));
}

/// A packet the receiver accepts at once ends the sending side's exchange
/// with 128.
proof fn lemma_send_accepted(n: u8, data: Seq<u8>, started: bool)
    requires
        data.len() == PACKET_LEN,
    ensures
        send_run(
            n,
            data,
            crate::protocol::send_start(started, data),
            opening(!started) + tx_all(frame(n, data)) + seq![Event::Rx(ACK)],
        ) == (Send::Done { result: Ok(PACKET_LEN), started: true }),
{
    let s0 = crate::protocol::send_start(started, data);
    let o = opening(!started);
    let f = tx_all(frame(n, data));
    if !started {
        lemma_send_run_push(n, data, s0, Seq::empty(), Event::Rx(NAK));
        assert(o =~= Seq::<Event>::empty().push(Event::Rx(NAK)));
    } else {
        assert(o =~= Seq::<Event>::empty());
    }
    assert(send_run(n, data, s0, o) == Send::Frame { k: 0 });
    lemma_send_frame(n, data, frame(n, data).len());
    assert(frame(n, data).take(frame(n, data).len() as int) =~= frame(n, data));
    lemma_send_run_concat(n, data, s0, o, f);
    lemma_send_run_push(n, data, s0, o + f, Event::Rx(ACK));
    assert(o + f + seq![Event::Rx(ACK)] =~= (o + f).push(Event::Rx(ACK)));
}

/// The receiver's side of a packet it accepts at once ends its exchange
/// with 128 and the payload.
proof fn lemma_recv_accepted(n: u8, data: Seq<u8>, started: bool)
    requires
        data.len() == PACKET_LEN,
    ensures
        recv_run(
            n,
            false,
            crate::protocol::recv_start(started, false),
            mirrored(opening(!started) + tx_all(frame(n, data)) + seq![Event::Rx(ACK)]),
        ) == (Recv::Done { result: Ok(PACKET_LEN), data }),
{
    let s0 = crate::protocol::recv_start(started, false);
    let o = mirrored(opening(!started));
    let f = rx_all(seq![SOH, n, (255 - n) as u8] + data + seq![checksum(data)]);
    assert(mirrored(opening(!started) + tx_all(frame(n, data)) + seq![Event::Rx(ACK)]) =~= (o
        + f).push(Event::Tx(ACK)));
    if !started {
        lemma_recv_run_push(n, false, s0, Seq::empty(), Event::Tx(NAK));
        assert(o =~= Seq::<Event>::empty().push(Event::Tx(NAK)));
    } else {
        assert(o =~= Seq::<Event>::empty());
    }
    assert(recv_run(n, false, s0, o) == Recv::Control);
    lemma_recv_frame(n, data, checksum(data));
    lemma_recv_run_concat(n, false, s0, o, f);
    lemma_recv_run_push(n, false, s0, o + f, Event::Tx(ACK));
}

/// An accepted end of transmission ends both sides' exchanges.
proof fn lemma_closing_accepted(n: u8, started: bool)
    ensures
        send_run(
            n,
            Seq::empty(),
            crate::protocol::send_start(started, Seq::empty()),
            closing_exchange(!started),
        ) == (Send::Done { result: Ok(0), started: false }),
        recv_run(
            n,
            false,
            crate::protocol::recv_start(started, false),
            mirrored(closing_exchange(!started)),
        ) == (Recv::Done { result: Ok(0), data: Seq::empty() }),
{
    let e = Seq::<u8>::empty();
    let ss = crate::protocol::send_start(started, e);
    let rs = crate::protocol::recv_start(started, false);
    let o = opening(!started);
    let eot = crate::protocol::EOT;
    let c = seq![Event::Tx(eot), Event::Rx(NAK), Event::Tx(eot), Event::Rx(ACK)];
    let z = Seq::<Event>::empty();
    if !started {
        lemma_send_run_push(n, e, ss, z, Event::Rx(NAK));
        lemma_recv_run_push(n, false, rs, z, Event::Tx(NAK));
        assert(o =~= z.push(Event::Rx(NAK)));
        assert(mirrored(o) =~= z.push(Event::Tx(NAK)));
    } else {
        assert(o =~= z);
        assert(mirrored(o) =~= z);
    }
    let s1 = send_run(n, e, ss, o);
    assert(s1 == Send::Eot);
    lemma_send_run_push(n, e, s1, z, c[0]);
    lemma_send_run_push(n, e, s1, z.push(c[0]), c[1]);
    lemma_send_run_push(n, e, s1, z.push(c[0]).push(c[1]), c[2]);
    lemma_send_run_push(n, e, s1, z.push(c[0]).push(c[1]).push(c[2]), c[3]);
    assert(c =~= z.push(c[0]).push(c[1]).push(c[2]).push(c[3]));
    lemma_send_run_concat(n, e, ss, o, c);
    let r1 = recv_run(n, false, rs, mirrored(o));
    assert(r1 == Recv::Control);
    let mc = mirrored(c);
    lemma_recv_run_push(n, false, r1, z, mc[0]);
    lemma_recv_run_push(n, false, r1, z.push(mc[0]), mc[1]);
    lemma_recv_run_push(n, false, r1, z.push(mc[0]).push(mc[1]), mc[2]);
    lemma_recv_run_push(n, false, r1, z.push(mc[0]).push(mc[1]).push(mc[2]), mc[3]);
    assert(mc =~= z.push(mc[0]).push(mc[1]).push(mc[2]).push(mc[3]));
    lemma_mirrored_concat(o, c);
    lemma_recv_run_concat(n, false, rs, mirrored(o), mc);
}

} // verus!

verus! {

/// After the first `k` packets of `d`, the sending stream is ready for the
/// next, having pulled the first `128 * k` bytes, and the receiving stream,
/// fed the mirror of the transport events, expects the next packet having
/// received the first `128 * k` bytes of `padded(d)`.
#[verifier::rlimit(80)]
proof fn lemma_packets_sent(d: Seq<u8>, k: nat)
    requires
        k <= packet_count(d.len()),
    ensures
        outlet_run(Outlet::Ready { n: 1, started: false }, packets_sent(d, k)) == (Outlet::Ready {
            n: number(k),
            started: k > 0,
        }),
        pulled_of(packets_sent(d, k)) == if 128 * k <= d.len() {
            d.take(128 * k as int)
        } else {
            d
        },
        intake_run(
            crate::stream::intake_start(1, false),
            mirrored(wire_of(packets_sent(d, k))),
        ) == (Intake::Packet {
            n: number(k),
            tries: 0,
            got: padded(d).take(128 * k as int),
            st: crate::protocol::recv_start(k > 0, false),
        }),
    decreases k,
{
    lemma_packet_count(d.len());
    let s0 = Outlet::Ready { n: 1, started: false };
    let r0 = crate::stream::intake_start(1, false);
    if k == 0 {
        assert(wire_of(Seq::<Feed>::empty()) =~= Seq::<Event>::empty());
        assert(mirrored(Seq::<Event>::empty()) =~= Seq::<Event>::empty());
        assert(d.take(0) =~= Seq::<u8>::empty());
        assert(padded(d).take(0) =~= Seq::<u8>::empty());
    } else {
        let j = (k - 1) as nat;
        lemma_packets_sent(d, j);
        let prev = packets_sent(d, j);
        let c = chunk(d, j);
        let p = crate::stream::pad(c);
        let g = packet_exchange(d, j);
        let n = number(j);
        assert(128 * j < d.len());
        assert(c.len() > 0 && c.len() <= PACKET_LEN);
        assert(p.len() == PACKET_LEN);
        let pulled = prev.push(Feed::Pull(c));
        assert(pulled =~= prev + seq![Feed::Pull(c)]);
        lemma_outlet_run_concat(s0, prev, seq![Feed::Pull(c)]);
        crate::stream::lemma_pull(outlet_run(s0, prev), c);
        let st = crate::protocol::send_start(j > 0, p);
        assert(outlet_run(s0, pulled) == Outlet::Packet { n, data: p, tries: 0, st });
        lemma_outlet_run_concat(s0, pulled, wires(g));
        crate::stream::lemma_wires(g);
        lemma_send_accepted(n, p, j > 0);
        assert(g == opening(!(j > 0)) + tx_all(frame(n, p)) + seq![Event::Rx(ACK)]);
        lemma_outlet_packet(n, p, 0, st, g);
        assert(next_seq(n) == number(k));
        // what was pulled
        assert(wire_of(prev) + Seq::<Event>::empty() =~= wire_of(prev));
        assert(pulled_of(prev) + c + Seq::<u8>::empty() =~= pulled_of(prev) + c);
        if 128 * k <= d.len() {
            assert(d.take(128 * j as int) + c =~= d.take(128 * k as int));
        } else {
            assert(d.take(128 * j as int) + c =~= d);
        }
        // the receiving side
        let w = wire_of(prev);
        assert(wire_of(packets_sent(d, k)) == w + g);
        lemma_mirrored_concat(w, g);
        lemma_intake_run_concat(r0, mirrored(w), mirrored(g));
        let rs = crate::protocol::recv_start(j > 0, false);
        lemma_recv_accepted(n, p, j > 0);
        lemma_intake_packet(n, 0, padded(d).take(128 * j as int), rs, mirrored(g));
        assert(padded(d).take(128 * j as int) + p =~= padded(d).take(128 * k as int));
    }
}

/// Round trip: a receiving stream fed what a sending stream of `d` puts on
/// the transport, as the other end sees it, accepts it, counts a whole
/// number of packets, and hands its sink `d` followed by the zeroes that
/// pad the last packet; the sending stream pulled exactly `d` and counts
/// `d.len()` bytes.
#[verifier::rlimit(60)]
pub proof fn round_trip(d: Seq<u8>)
    requires
        128 * packet_count(d.len()) <= usize::MAX,
    ensures
        outlet_run(Outlet::Ready { n: 1, started: false }, transmission(d)) == (Outlet::Done {
            result: Ok(()),
        }),
        pulled_of(transmission(d)) == d,
        intake_run(crate::stream::intake_start(1, false), mirrored(wire_of(transmission(d))))
            == (Intake::Done { result: Ok(padded(d).len() as usize), got: padded(d) }),
        padded(d).take(d.len() as int) == d,
        padded(d).len() % 128 == 0,
        d.len() <= padded(d).len() < d.len() + 128,
{
    let m = packet_count(d.len());
    lemma_packet_count(d.len());
    lemma_packets_sent(d, m);
    let s0 = Outlet::Ready { n: 1, started: false };
    let r0 = crate::stream::intake_start(1, false);
    let prev = packets_sent(d, m);
    let e = Seq::<u8>::empty();
    let g = closing_exchange(m == 0);
    let n = number(m);
    let pulled = prev.push(Feed::Pull(e));
    assert(pulled =~= prev + seq![Feed::Pull(e)]);
    lemma_outlet_run_concat(s0, prev, seq![Feed::Pull(e)]);
    crate::stream::lemma_pull(outlet_run(s0, prev), e);
    let st = crate::protocol::send_start(m > 0, e);
    assert(outlet_run(s0, pulled) == Outlet::Packet { n, data: e, tries: 0, st });
    lemma_outlet_run_concat(s0, pulled, wires(g));
    crate::stream::lemma_wires(g);
    lemma_closing_accepted(n, m > 0);
    lemma_outlet_packet(n, e, 0, st, g);
    if 128 * m <= d.len() {
        assert(d.take(128 * m as int) =~= d);
    }
    assert(pulled_of(prev) + e + e =~= d);
    assert(wire_of(prev) + Seq::<Event>::empty() =~= wire_of(prev));
    let w = wire_of(prev);
    lemma_mirrored_concat(w, g);
    lemma_intake_run_concat(r0, mirrored(w), mirrored(g));
    assert(padded(d).take(128 * m as int) =~= padded(d));
    lemma_intake_packet(n, 0, padded(d), crate::protocol::recv_start(m > 0, false), mirrored(g));
    assert(padded(d).take(d.len() as int) =~= d);
}

} // verus!

verus! {

/// Once the receiving side is done or astray, further events leave it
/// astray: an exchange is over at its last event.
pub proof fn lemma_recv_run_over(n: u8, short: bool, s: Recv, t: Seq<Event>)
    requires
        s is Done || s is Stray,
        t.len() > 0,
    ensures
        recv_run(n, short, s, t) == Recv::Stray,
    decreases t.len(),
{
    if t.len() > 1 {
        lemma_recv_run_over(n, short, s, t.drop_last());
    } else {
        assert(recv_run(n, short, s, t.drop_last()) == s);
    }
}

/// Once the sending side is done or astray, further events leave it
/// astray: an exchange is over at its last event.
pub proof fn lemma_send_run_over(n: u8, data: Seq<u8>, s: Send, t: Seq<Event>)
    requires
        s is Done || s is Stray,
        t.len() > 0,
    ensures
        send_run(n, data, s, t) == Send::Stray,
    decreases t.len(),
{
    if t.len() > 1 {
        lemma_send_run_over(n, data, s, t.drop_last());
    } else {
        assert(send_run(n, data, s, t.drop_last()) == s);
    }
}

} // verus!
