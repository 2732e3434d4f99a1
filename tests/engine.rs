use xmodem::buffers::{Channel, Cursor};
use xmodem::io::ErrorKind;
use xmodem::progress::{Progress, Recorder};
use xmodem::xmodem::Xmodem;

const SOH: u8 = 0x01;
const EOT: u8 = 0x04;
const ACK: u8 = 0x06;
const NAK: u8 = 0x15;
const CAN: u8 = 0x18;

fn checksum(data: &[u8]) -> u8 {
    data.iter().fold(0u8, |a, b| a.wrapping_add(*b))
}

/// The bytes of packet `n` carrying `data`.
fn frame(n: u8, data: &[u8]) -> Vec<u8> {
    let mut f = vec![SOH, n, 255 - n];
    f.extend_from_slice(data);
    f.push(checksum(data));
    f
}

/// Sends `input` against a receiver that accepts everything, then replays
/// what was sent to a receiving session; gives the sender's count, the bytes
/// on the wire, the receiver's count, its answers and what it received.
fn round_trip(input: &[u8]) -> (usize, Vec<u8>, usize, Vec<u8>, Vec<u8>) {
    let packets = (input.len() + 127) / 128;
    let mut replies = vec![NAK];
    replies.extend(std::iter::repeat(ACK).take(packets));
    replies.extend_from_slice(&[NAK, ACK]);
    let mut to_rx = Channel::new(replies.clone());
    let mut source = Channel::new(input.to_vec());
    let sent = Xmodem::transmit(&mut source, &mut to_rx).0.expect("tx okay");
    let mut from_tx = Channel::new(to_rx.sent().clone());
    let mut sink = Channel::new(vec![]);
    let received = Xmodem::receive(&mut from_tx, &mut sink).0.expect("rx okay");
    assert_eq!(*from_tx.sent(), replies);
    (sent, to_rx.sent().clone(), received, from_tx.sent().clone(), sink.sent().clone())
}

#[test]
fn read_byte() {
    let byte = Xmodem::new(Cursor::new(vec![CAN])).read_byte(false).expect("read a byte");
    assert_eq!(byte, CAN);

    let e = Xmodem::new(Cursor::new(vec![CAN])).read_byte(true).expect_err("abort on CAN");
    assert_eq!(e, ErrorKind::ConnectionAborted);
}

#[test]
fn test_expect_byte() {
    let mut xmodem = Xmodem::new(Cursor::new(vec![1, 1]));
    assert_eq!(xmodem.expect_byte(1).expect("expected"), 1);
    let e = xmodem.expect_byte(2).expect_err("expect the unexpected");
    assert_eq!(e, ErrorKind::InvalidData);
}

#[test]
fn test_expect_byte_or_cancel() {
    let b = Xmodem::new(Cursor::new(vec![2, 0])).expect_byte_or_cancel(2).expect("got a 2");
    assert_eq!(b, 2);
}

#[test]
fn test_expect_can() {
    let mut xmodem = Xmodem::new(Cursor::new(vec![CAN]));
    assert_eq!(xmodem.expect_byte(CAN).expect("CAN"), CAN);
}

#[test]
fn test_unexpected_can() {
    let e = Xmodem::new(Cursor::new(vec![CAN])).expect_byte(SOH).expect_err("have CAN");
    assert_eq!(e, ErrorKind::ConnectionAborted);
}

#[test]
fn test_cancel_on_unexpected() {
    let mut cursor = Cursor::new(vec![CAN, 0]);
    let e = Xmodem::new(&mut cursor).expect_byte_or_cancel(SOH).expect_err("have CAN");
    assert_eq!(e, ErrorKind::ConnectionAborted);
    assert_eq!(cursor.get_ref()[1], CAN);

    let mut cursor = Cursor::new(vec![0, 0]);
    let e = Xmodem::new(&mut cursor).expect_byte_or_cancel(SOH).expect_err("have 0");
    assert_eq!(e, ErrorKind::InvalidData);
    assert_eq!(cursor.get_ref()[1], CAN);
}

#[test]
fn test_can_in_packet_and_checksum() {
    let mut input = [0u8; 256];
    input[0] = CAN;
    let (sent, _, received, _, output) = round_trip(&input);
    assert_eq!(sent, 256);
    assert_eq!(received, 256);
    assert_eq!(&input[..], &output[..]);
}

#[test]
fn test_transmit_reported_bytes() {
    let input = [0u8; 50];
    let (sent, _, received, _, _) = round_trip(&input);
    assert_eq!(sent, 50);
    assert_eq!(received, 128);
}

#[test]
fn test_loop() {
    let mut input = [0u8; 384];
    for (i, chunk) in input.chunks_mut(128).enumerate() {
        chunk.iter_mut().for_each(|b| *b = i as u8);
    }
    let (sent, _, received, _, output) = round_trip(&input);
    assert_eq!(sent, 384);
    assert_eq!(received, 384);
    assert_eq!(&input[..], &output[..]);
}

#[test]
fn test_raw_transmission() {
    let mut input = [0u8; 256];
    (0..256usize).for_each(|b| input[b] = b as u8);
    let (_, rx_buf, _, tx_buf, output) = round_trip(&input);

    assert_eq!(&rx_buf[0..3], &[SOH, 1, 255 - 1]);
    assert_eq!(&rx_buf[3..(3 + 128)], &input[..128]);
    assert_eq!(rx_buf[131], input[..128].iter().fold(0, |a: u8, b| a.wrapping_add(*b)));

    assert_eq!(&rx_buf[132..135], &[SOH, 2, 255 - 2]);
    assert_eq!(&rx_buf[135..(135 + 128)], &input[128..]);
    assert_eq!(rx_buf[263], input[128..].iter().fold(0, |a: u8, b| a.wrapping_add(*b)));

    assert_eq!(&rx_buf[264..], &[EOT, EOT]);
    assert_eq!(&tx_buf, &[NAK, ACK, ACK, NAK, ACK]);
    assert_eq!(&output[..], &input[..]);
}

#[test]
fn test_small_packet_eof_error() {
    let mut xmodem = Xmodem::new(Cursor::new(vec![NAK, NAK, NAK]));

    let mut buffer = [1, 2, 3];
    let e = xmodem.read_packet(&mut buffer[..]).expect_err("read EOF");
    assert_eq!(e, ErrorKind::UnexpectedEof);

    let e = xmodem.write_packet(&buffer).expect_err("write EOF");
    assert_eq!(e, ErrorKind::UnexpectedEof);
}

#[test]
fn test_bad_control() {
    let mut packet = [0; 128];
    let e = Xmodem::new(Cursor::new(vec![0, CAN])).read_packet(&mut packet[..]).expect_err("CAN");
    assert_eq!(e, ErrorKind::ConnectionAborted);

    let e = Xmodem::new(Cursor::new(vec![0, 0xFF]))
        .read_packet(&mut packet[..])
        .expect_err("bad contorl");
    assert_eq!(e, ErrorKind::InvalidData);
}

#[test]
fn test_eot() {
    let mut cursor = Cursor::new(vec![NAK, 0, NAK, 0, ACK]);
    Xmodem::new(&mut cursor).write_packet(&[]).expect("write empty buf for EOT");
    assert_eq!(&cursor.get_ref()[..], &[NAK, EOT, NAK, EOT, ACK]);
}

#[test]
fn round_trip_of_every_length_class() {
    for len in [0usize, 1, 100, 127, 128, 129, 200, 256, 300, 1280] {
        let input: Vec<u8> = (0..len).map(|i| (i * 7 + 3) as u8).collect();
        let (sent, _, received, _, output) = round_trip(&input);
        assert_eq!(sent, len);
        assert_eq!(received, (len + 127) / 128 * 128);
        assert_eq!(&output[..len], &input[..]);
        assert!(output[len..].iter().all(|b| *b == 0));
    }
}

#[test]
fn end_to_end_trace_of_three_packets() {
    let mut input = [0u8; 384];
    for (i, chunk) in input.chunks_mut(128).enumerate() {
        chunk.iter_mut().for_each(|b| *b = i as u8 + 1);
    }
    let (sent, wire, received, answers, output) = round_trip(&input);
    assert_eq!(sent, 384);
    assert_eq!(received, 384);
    assert_eq!(&output[..], &input[..]);
    let mut expected = Vec::new();
    for k in 0..3u8 {
        expected.extend(frame(k + 1, &input[k as usize * 128..(k as usize + 1) * 128]));
    }
    expected.extend_from_slice(&[EOT, EOT]);
    assert_eq!(wire, expected);
    assert_eq!(&wire[0..3], &[SOH, 1, 254]);
    assert_eq!(&wire[132..135], &[SOH, 2, 253]);
    assert_eq!(&wire[264..267], &[SOH, 3, 252]);
    assert_eq!(answers, vec![NAK, ACK, ACK, ACK, NAK, ACK]);
}

#[test]
fn sequence_number_wraps_after_255_packets() {
    let data = [0x5au8; 128];
    let mut replies = vec![NAK];
    replies.extend(std::iter::repeat(ACK).take(300));
    let mut port = Channel::new(replies);
    let mut xmodem = Xmodem::new(&mut port);
    for _ in 0..255 {
        assert_eq!(xmodem.write_packet(&data), Ok(128));
    }
    assert_eq!(xmodem.write_packet(&data), Ok(128));
    assert_eq!(xmodem.write_packet(&data), Ok(128));
    let out = &port.sent();
    assert_eq!(&out[254 * 132..254 * 132 + 3], &[SOH, 255, 0]);
    assert_eq!(&out[255 * 132..255 * 132 + 3], &[SOH, 0, 255]);
    assert_eq!(&out[256 * 132..256 * 132 + 3], &[SOH, 1, 254]);

    let mut wire = Vec::new();
    for k in 0..256usize {
        wire.extend(frame(((k + 1) % 256) as u8, &data));
    }
    let mut from_tx = Channel::new(wire);
    let mut receiver = Xmodem::new(&mut from_tx);
    let mut buf = [0u8; 128];
    for _ in 0..256 {
        assert_eq!(receiver.read_packet(&mut buf), Ok(128));
        assert_eq!(buf, data);
    }
}

#[test]
fn corrupted_payload_is_retried_once() {
    let data: Vec<u8> = (0..128).map(|i| i as u8).collect();
    let mut bad = frame(1, &data);
    bad[3 + 40] ^= 0x10;
    let mut wire = bad;
    wire.extend(frame(1, &data));
    wire.extend(frame(2, &data));
    wire.extend_from_slice(&[EOT, EOT]);
    let mut port = Channel::new(wire);
    let mut sink = Channel::new(vec![]);
    let n = Xmodem::receive(&mut port, &mut sink).0.expect("rx okay");
    assert_eq!(n, 256);
    assert_eq!(*port.sent(), vec![NAK, NAK, ACK, ACK, NAK, ACK]);
    assert_eq!(&sink.sent()[..128], &data[..]);
    assert_eq!(&sink.sent()[128..], &data[..]);
}

#[test]
fn checksum_mismatch_keeps_the_packet_number() {
    let data = [7u8; 128];
    let mut bad = frame(1, &data);
    bad[131] = bad[131].wrapping_add(1);
    let mut wire = bad;
    wire.extend(frame(1, &data));
    let mut port = Channel::new(wire);
    let mut xmodem = Xmodem::new(&mut port);
    let mut buf = [0u8; 128];
    assert_eq!(xmodem.read_packet(&mut buf), Err(ErrorKind::Interrupted));
    assert_eq!(xmodem.read_packet(&mut buf), Ok(128));
    assert_eq!(*port.sent(), vec![NAK, NAK, ACK]);
}

#[test]
fn can_as_first_control_byte_aborts() {
    let mut port = Channel::new(vec![CAN, SOH]);
    let mut buf = [0u8; 128];
    let e = Xmodem::new(&mut port).read_packet(&mut buf).expect_err("CAN");
    assert_eq!(e, ErrorKind::ConnectionAborted);
    assert_eq!(*port.sent(), vec![NAK]);
    assert_eq!(port.consumed(), 1);
}

#[test]
fn can_as_sequence_byte_aborts() {
    let mut port = Channel::new(vec![SOH, CAN, 254]);
    let mut buf = [0u8; 128];
    let e = Xmodem::new(&mut port).read_packet(&mut buf).expect_err("CAN");
    assert_eq!(e, ErrorKind::ConnectionAborted);
    assert_eq!(*port.sent(), vec![NAK, CAN]);
    assert_eq!(port.consumed(), 2);
}

#[test]
fn can_as_acknowledgment_aborts() {
    let data = [1u8; 128];
    let mut port = Channel::new(vec![NAK, CAN, ACK]);
    let e = Xmodem::new(&mut port).write_packet(&data).expect_err("CAN");
    assert_eq!(e, ErrorKind::ConnectionAborted);
    assert_eq!(*port.sent(), frame(1, &data));
    assert_eq!(port.consumed(), 2);
}

#[test]
fn always_nak_exhausts_ten_attempts() {
    let input = [9u8; 128];
    let mut port = Channel::new(vec![NAK; 11]);
    let mut source = Channel::new(input.to_vec());
    let e = Xmodem::transmit(&mut source, &mut port).0.expect_err("broken pipe");
    assert_eq!(e, ErrorKind::BrokenPipe);
    assert_eq!(port.sent().len(), 10 * 132);
    for k in 0..10 {
        assert_eq!(&port.sent()[k * 132..(k + 1) * 132], &frame(1, &input)[..]);
    }
}

#[test]
fn receiver_gives_up_after_ten_bad_checksums() {
    let data = [3u8; 128];
    let mut bad = frame(1, &data);
    bad[131] ^= 1;
    let mut wire = Vec::new();
    for _ in 0..10 {
        wire.extend(bad.iter());
    }
    let mut port = Channel::new(wire);
    let mut sink = Channel::new(vec![]);
    let e = Xmodem::receive(&mut port, &mut sink).0.expect_err("broken pipe");
    assert_eq!(e, ErrorKind::BrokenPipe);
    assert_eq!(port.sent().len(), 11);
    assert!(sink.sent().is_empty());
}

#[test]
fn undersized_buffer_after_handshake_only() {
    let mut port = Channel::new(vec![SOH, 1, 254]);
    let mut xmodem = Xmodem::new(&mut port);
    let mut small = [0u8; 3];
    assert_eq!(xmodem.read_packet(&mut small), Err(ErrorKind::UnexpectedEof));
    assert_eq!(xmodem.read_packet(&mut small), Err(ErrorKind::UnexpectedEof));
    assert_eq!(*port.sent(), vec![NAK]);
    assert_eq!(port.consumed(), 0);
}

#[test]
fn write_packet_refuses_other_lengths() {
    let mut port = Channel::new(vec![NAK]);
    let mut xmodem = Xmodem::new(&mut port);
    assert_eq!(xmodem.write_packet(&[0u8; 129]), Err(ErrorKind::UnexpectedEof));
    assert_eq!(xmodem.write_packet(&[0u8; 127]), Err(ErrorKind::UnexpectedEof));
    assert!(port.sent().is_empty());
    assert_eq!(port.consumed(), 0);
}

#[test]
fn wrong_sequence_byte_is_invalid_data() {
    let mut port = Channel::new(vec![SOH, 2, 253]);
    let mut buf = [0u8; 128];
    let e = Xmodem::new(&mut port).read_packet(&mut buf).expect_err("wrong number");
    assert_eq!(e, ErrorKind::InvalidData);
    assert_eq!(*port.sent(), vec![NAK, CAN]);
}

#[test]
fn wrong_complement_is_invalid_data() {
    let mut port = Channel::new(vec![SOH, 1, 253]);
    let mut buf = [0u8; 128];
    let e = Xmodem::new(&mut port).read_packet(&mut buf).expect_err("wrong complement");
    assert_eq!(e, ErrorKind::InvalidData);
    assert_eq!(*port.sent(), vec![NAK, CAN]);
}

#[test]
fn missing_second_eot_is_invalid_data() {
    let mut port = Channel::new(vec![EOT, SOH]);
    let mut buf = [0u8; 128];
    let e = Xmodem::new(&mut port).read_packet(&mut buf).expect_err("no second EOT");
    assert_eq!(e, ErrorKind::InvalidData);
    assert_eq!(*port.sent(), vec![NAK, NAK]);
}

#[test]
fn end_of_transmission_is_received_as_zero() {
    let mut port = Channel::new(vec![EOT, EOT]);
    let mut buf = [0u8; 128];
    assert_eq!(Xmodem::new(&mut port).read_packet(&mut buf), Ok(0));
    assert_eq!(*port.sent(), vec![NAK, NAK, ACK]);
}

#[test]
fn unexpected_verdict_is_invalid_data() {
    let data = [1u8; 128];
    let mut port = Channel::new(vec![NAK, 0x41]);
    let e = Xmodem::new(&mut port).write_packet(&data).expect_err("bad verdict");
    assert_eq!(e, ErrorKind::InvalidData);
}

#[test]
fn transport_failure_is_passed_on() {
    let mut port = Channel::new(vec![]);
    let mut buf = [0u8; 128];
    let e = Xmodem::new(&mut port).read_packet(&mut buf).expect_err("timed out");
    assert_eq!(e, ErrorKind::TimedOut);
    let mut sink = Channel::new(vec![]);
    let mut port = Channel::new(vec![SOH]);
    assert_eq!(Xmodem::receive(&mut port, &mut sink).0, Err(ErrorKind::TimedOut));
}

#[test]
fn flush_reaches_the_endpoint() {
    let mut xmodem = Xmodem::new(Channel::new(vec![]));
    assert_eq!(xmodem.flush(), Ok(()));
}

#[test]
fn progress_is_reported() {
    let data = [2u8; 128];
    let mut recorder = Recorder::new();
    let mut port = Channel::new(vec![NAK, ACK, NAK, ACK]);
    let mut xmodem = Xmodem::new_with_progress(&mut port, &mut recorder);
    assert_eq!(xmodem.write_packet(&data), Ok(128));
    assert_eq!(xmodem.write_packet(&[]), Ok(0));
    drop(xmodem);
    assert_eq!(*recorder.events(), vec![Progress::Waiting, Progress::Started, Progress::Packet(1)]);

    let mut recorder = Recorder::new();
    let mut wire = frame(1, &data);
    wire.extend_from_slice(&[EOT, EOT]);
    let mut port = Channel::new(wire);
    let mut sink = Channel::new(vec![]);
    assert_eq!(Xmodem::receive_with_progress(&mut port, &mut sink, &mut recorder).0, Ok(128));
    assert_eq!(*recorder.events(), vec![Progress::Started, Progress::Packet(1)]);
}

#[test]
fn refused_length_reports_nothing() {
    let mut recorder = Recorder::new();
    let mut port = Channel::new(vec![NAK]);
    let mut xmodem = Xmodem::new_with_progress(&mut port, &mut recorder);
    assert_eq!(xmodem.write_packet(&[0u8; 5]), Err(ErrorKind::UnexpectedEof));
    drop(xmodem);
    assert!(recorder.events().is_empty());
}

#[test]
fn transport_comes_back_with_the_result() {
    let input = [5u8; 10];
    let mut source = Channel::new(input.to_vec());
    let (sent, port) = Xmodem::transmit(&mut source, Channel::new(vec![NAK, ACK, NAK, ACK]));
    assert_eq!(sent, Ok(10));
    let mut last = input.to_vec();
    last.resize(128, 0);
    let mut wire = frame(1, &last);
    wire.extend_from_slice(&[EOT, EOT]);
    assert_eq!(*port.sent(), wire);

    let mut sink = Channel::new(vec![]);
    let (received, port) = Xmodem::receive(Channel::new(wire), &mut sink);
    assert_eq!(received, Ok(128));
    assert_eq!(*port.sent(), vec![NAK, ACK, NAK, ACK]);
    assert_eq!(*sink.sent(), last);
}
