use xmodem::clock::{counter_value, ms_to_us, timed_out, wait_over};
use xmodem::buffers::{Channel, Cursor, Ram};
use xmodem::device::Port;
use xmodem::io::{ErrorKind, Read, ReadExt, Write};
use xmodem::keys::{echo, key_step, read_symbol, KeyState, KeyStep, BEL, KEY_DEL, KEY_DOWN, KEY_LEFT, KEY_RIGHT, KEY_UP};
use xmodem::mem::MemWrite;

fn console(input: &[u8]) -> Channel {
    Channel::new(input.to_vec())
}

#[test]
fn memory_sink_fills_its_range_then_refuses() {
    let mut sink = MemWrite::new(0x1000, 0x1004, Ram::new(0x1000, 4));
    assert_eq!(sink.remaining(), 4);
    assert_eq!(sink.write(&[1, 2, 3, 4]), Ok(4));
    assert_eq!(sink.position(), 0x1004);
    assert_eq!(sink.remaining(), 0);
    assert_eq!(sink.write_byte(5), Err(ErrorKind::UnexpectedEof));
    assert_eq!(sink.position(), 0x1004);
}

#[test]
fn memory_sink_stores_at_successive_addresses() {
    let mut sink = MemWrite::new(8, 12, Ram::new(8, 4));
    assert_eq!(sink.write_byte(0xaa), Ok(0xaa));
    assert_eq!(sink.write_byte(0xbb), Ok(0xbb));
    assert_eq!(sink.position(), 10);
    assert_eq!(sink.write(&[1, 2, 3]), Err(ErrorKind::UnexpectedEof));
    assert_eq!(sink.position(), 12);
    let ram = sink.into_memory();
    assert_eq!(*ram.cells(), vec![0xaa, 0xbb, 1, 2]);
}

#[test]
fn memory_sink_stores_nothing_once_full() {
    let mut sink = MemWrite::new(0x1000, 0x1004, Ram::new(0x1000, 6));
    assert_eq!(sink.write(&[1, 2, 3, 4]), Ok(4));
    assert_eq!(sink.write_byte(5), Err(ErrorKind::UnexpectedEof));
    assert_eq!(*sink.into_memory().cells(), vec![1, 2, 3, 4, 0, 0]);
}

#[test]
fn empty_memory_sink_refuses_at_once() {
    let mut sink = MemWrite::new(5, 5, Ram::new(5, 0));
    assert_eq!(sink.write_byte(1), Err(ErrorKind::UnexpectedEof));
    assert_eq!(sink.write(&[]), Ok(0));
    assert_eq!(sink.position(), 5);
}

#[test]
fn read_max_stops_when_the_source_is_exhausted() {
    let data: Vec<u8> = (10..60).collect();
    let mut source = Channel::new(data.clone());
    let mut buf = [0xffu8; 64];
    assert_eq!(source.read_max(&mut buf), Ok(50));
    assert_eq!(&buf[..50], &data[..]);
    assert!(buf[50..].iter().all(|b| *b == 0xff));
    let mut buf = [0u8; 8];
    assert_eq!(source.read_max(&mut buf), Ok(0));
}

#[test]
fn channel_reads_what_remains() {
    let mut c = console(&[1, 2, 3]);
    let mut buf = [0u8; 2];
    assert_eq!(c.read(&mut buf), Ok(2));
    assert_eq!(buf, [1, 2]);
    let mut buf = [0u8; 2];
    assert_eq!(c.read(&mut buf), Ok(1));
    assert_eq!(buf, [3, 0]);
    assert_eq!(c.read_byte(), Err(ErrorKind::TimedOut));
}

#[test]
fn escape_sequences_decode_to_keys() {
    let cases: [(&[u8], u8, u8); 9] = [
        (b"a", b'a', b'a'),
        (b"\x1b[A", KEY_UP, b'^'),
        (b"\x1b[B", KEY_DOWN, b'v'),
        (b"\x1b[C", KEY_RIGHT, b'>'),
        (b"\x1b[D", KEY_LEFT, b'<'),
        (b"\x1b[3~", KEY_DEL, b'd'),
        (b"\x1bx", BEL, BEL),
        (b"\x1b[x", BEL, BEL),
        (b"\x1b[3x", BEL, BEL),
    ];
    for (input, symbol, shown) in cases {
        let mut c = console(input);
        assert_eq!(read_symbol(&mut c), Ok(symbol));
        assert_eq!(c.consumed(), input.len());
        assert_eq!(*c.sent(), vec![shown]);
    }
}

#[test]
fn backspace_echoes_a_letter() {
    let mut c = console(&[8]);
    assert_eq!(read_symbol(&mut c), Ok(8));
    assert_eq!(*c.sent(), vec![b'b']);
    assert_eq!(echo(b'x'), b'x');
}

#[test]
fn key_steps_follow_the_sequence() {
    assert_eq!(key_step(KeyState::Plain, 0x1b), KeyStep::More(KeyState::Escape));
    assert_eq!(key_step(KeyState::Escape, b'['), KeyStep::More(KeyState::Bracket));
    assert_eq!(key_step(KeyState::Bracket, b'3'), KeyStep::More(KeyState::Three));
    assert_eq!(key_step(KeyState::Three, b'~'), KeyStep::Symbol(KEY_DEL));
}

#[test]
fn console_failure_is_passed_on() {
    let mut c = console(&[0x1b, b'[']);
    assert_eq!(read_symbol(&mut c), Err(ErrorKind::TimedOut));
    assert!(c.sent().is_empty());
}

#[test]
fn counter_halves_combine() {
    assert_eq!(counter_value(1, 2), 0x1_0000_0002);
    assert_eq!(counter_value(0xffff_ffff, 0xffff_ffff), u64::MAX);
}

#[test]
fn waits_measure_elapsed_time() {
    assert!(wait_over(100, 200, 100));
    assert!(!wait_over(100, 199, 100));
    assert!(wait_over(u64::MAX - 9, 10, 20));
    assert!(timed_out(0, 1001, 1));
    assert!(!timed_out(0, 1000, 1));
    assert_eq!(ms_to_us(3), 3000);
    assert_eq!(ms_to_us(u64::MAX), u64::MAX);
}

#[test]
fn port_carries_a_device() {
    let mut port = Port::new(Channel::new(vec![0x1b, b'[', b'C']));
    assert_eq!(read_symbol(&mut port), Ok(KEY_RIGHT));
    assert_eq!(port.write_byte(7), Ok(7));
    assert_eq!(port.read_byte(), Err(ErrorKind::TimedOut));
    assert_eq!(port.write(&[1, 2]), Ok(2));
    let device = port.into_inner();
    assert_eq!(*device.sent(), vec![b'>', 7, 1, 2]);
}

#[test]
fn cursor_overwrites_then_extends() {
    let mut c = Cursor::new(vec![1, 2]);
    assert_eq!(c.read_byte(), Ok(1));
    assert_eq!(c.write_byte(9), Ok(9));
    assert_eq!(c.write_byte(8), Ok(8));
    assert_eq!(c.read_byte(), Err(ErrorKind::UnexpectedEof));
    assert_eq!(*c.get_ref(), vec![1, 9, 8]);
    assert_eq!(c.position(), 3);
}
