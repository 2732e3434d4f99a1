//! Decoding of terminal key input: plain bytes, and the escape sequences of
//! the arrow keys and the delete key, each turned into one symbol and echoed.
use vstd::prelude::*;
use crate::io::{ErrorKind, Event, Read, Write, rx_all, write_event};
use crate::protocol::gained;

verus! {

/// Escape.
pub const ESC: u8 = 0x1b;
/// Bell, the symbol of an unknown escape sequence.
pub const BEL: u8 = 0x07;
/// The symbol of the backspace key.
pub const KEY_BS: u8 = 8;
/// The symbol of the delete key (`ESC [ 3 ~`).
pub const KEY_DEL: u8 = 46;
/// The symbol of the left arrow (`ESC [ D`).
pub const KEY_LEFT: u8 = 37;
/// The symbol of the up arrow (`ESC [ A`).
pub const KEY_UP: u8 = 38;
/// The symbol of the right arrow (`ESC [ C`).
pub const KEY_RIGHT: u8 = 39;
/// The symbol of the down arrow (`ESC [ B`).
pub const KEY_DOWN: u8 = 40;

/// How much of an escape sequence has been read.
#[derive(Clone, Copy, Debug, PartialEq, Eq, Structural)]
pub enum KeyState {
    /// Nothing yet.
    Plain,
    /// `ESC`.
    Escape,
    /// `ESC [`.
    Bracket,
    /// `ESC [ 3`.
    Three,
}

/// What one more byte makes of the input.
#[derive(Clone, Copy, Debug, PartialEq, Eq, Structural)]
pub enum KeyStep {
    /// More bytes are needed.
    More(KeyState),
    /// The input is the symbol `.0`.
    Symbol(u8),
}

/// What reading `byte` in state `state` makes of the input. A plain byte
/// is its own symbol; `ESC [` followed by `A`, `B`, `C` or `D` is an arrow,
/// `ESC [ 3 ~` is delete, and anything else after `ESC` is `BEL`.
pub open spec fn key_next(state: KeyState, byte: u8) -> KeyStep {
    match state {
        KeyState::Plain => if byte == ESC {
            KeyStep::More(KeyState::Escape)
        } else {
            KeyStep::Symbol(byte)
        },
        KeyState::Escape => if byte == 0x5bu8 {
            KeyStep::More(KeyState::Bracket)
        } else {
            KeyStep::Symbol(BEL)
        },
        KeyState::Bracket => if byte == 0x33u8 {
            KeyStep::More(KeyState::Three)
        } else if byte == 0x41u8 {
            KeyStep::Symbol(KEY_UP)
        } else if byte == 0x42u8 {
            KeyStep::Symbol(KEY_DOWN)
        } else if byte == 0x43u8 {
            KeyStep::Symbol(KEY_RIGHT)
        } else if byte == 0x44u8 {
            KeyStep::Symbol(KEY_LEFT)
        } else {
            KeyStep::Symbol(BEL)
        },
        KeyState::Three => if byte == 0x7eu8 {
            KeyStep::Symbol(KEY_DEL)
        } else {
            KeyStep::Symbol(BEL)
        },
    }
}

/// Reads `byte` in state `state`.
pub fn key_step(state: KeyState, byte: u8) -> (r: KeyStep)
    ensures
        r == key_next(state, byte),
{
    match state {
        KeyState::Plain => if byte == ESC {
            KeyStep::More(KeyState::Escape)
        } else {
            KeyStep::Symbol(byte)
        },
        KeyState::Escape => if byte == 0x5bu8 {
            KeyStep::More(KeyState::Bracket)
        } else {
            KeyStep::Symbol(BEL)
        },
        KeyState::Bracket => if byte == 0x33u8 {
            KeyStep::More(KeyState::Three)
        } else if byte == 0x41u8 {
            KeyStep::Symbol(KEY_UP)
        } else if byte == 0x42u8 {
            KeyStep::Symbol(KEY_DOWN)
        } else if byte == 0x43u8 {
            KeyStep::Symbol(KEY_RIGHT)
        } else if byte == 0x44u8 {
            KeyStep::Symbol(KEY_LEFT)
        } else {
            KeyStep::Symbol(BEL)
        },
        KeyState::Three => if byte == 0x7eu8 {
            KeyStep::Symbol(KEY_DEL)
        } else {
            KeyStep::Symbol(BEL)
        },
    }
}

/// The byte echoed for `symbol`: a letter or arrow-like mark for the
/// backspace, delete and arrow keys, the symbol itself otherwise.
pub open spec fn echo_of(symbol: u8) -> u8 {
    if symbol == KEY_BS {
        0x62u8
    } else if symbol == KEY_DEL {
        0x64u8
    } else if symbol == KEY_LEFT {
        0x3cu8
    } else if symbol == KEY_RIGHT {
        0x3eu8
    } else if symbol == KEY_UP {
        0x5eu8
    } else if symbol == KEY_DOWN {
        0x76u8
    } else {
        symbol
    }
}

/// The byte echoed for `symbol`.
pub fn echo(symbol: u8) -> (r: u8)
    ensures
        r == echo_of(symbol),
{
    if symbol == KEY_BS {
        0x62u8
    } else if symbol == KEY_DEL {
        0x64u8
    } else if symbol == KEY_LEFT {
        0x3cu8
    } else if symbol == KEY_RIGHT {
        0x3eu8
    } else if symbol == KEY_UP {
        0x5eu8
    } else if symbol == KEY_DOWN {
        0x76u8
    } else {
        symbol
    }
}

/// What the bytes `bs` make of the input from the start; `None` when a
/// symbol was complete before the last byte.
pub open spec fn key_run(bs: Seq<u8>) -> Option<KeyStep>
    decreases bs.len(),
{
    if bs.len() == 0 {
        Some(KeyStep::More(KeyState::Plain))
    } else {
        match key_run(bs.drop_last()) {
            Some(KeyStep::More(s)) => Some(key_next(s, bs.last())),
            _ => None,
        }
    }
}

/// Reads one symbol from `console` and echoes it there. A failure of the
/// console is passed on.
pub fn read_symbol<C: Read + Write>(console: &mut C) -> (r: Result<u8, ErrorKind>)
    ensures
        (*old(console)).trace().is_prefix_of((*final(console)).trace()),
        r matches Ok(sym) ==> exists|bs: Seq<u8>|
            #[trigger] key_run(bs) == Some(KeyStep::Symbol(sym)) && gained(
                (*old(console)).trace(),
                (*final(console)).trace(),
            ) == rx_all(bs).push(Event::Tx(echo_of(sym))),
        r matches Err(e) ==> gained((*old(console)).trace(), (*final(console)).trace()).last()
            == Event::Fault(e),
{
    let ghost t0 = console.trace();
    let ghost mut bs: Seq<u8> = Seq::empty();
    let mut state = KeyState::Plain;
    let mut count: usize = 0;
    proof {
        assert(gained(t0, t0) =~= rx_all(bs));
    }
    let mut symbol: u8 = 0;
    loop
        invariant_except_break
            key_run(bs) == Some(KeyStep::More(state)),
            count == bs.len(),
            count <= 3,
            state == KeyState::Plain <==> count == 0,
            state == KeyState::Escape ==> count == 1,
            state == KeyState::Bracket ==> count == 2,
            state == KeyState::Three ==> count == 3,
        invariant
            t0 == (*old(console)).trace(),
            t0.is_prefix_of(console.trace()),
            gained(t0, console.trace()) == rx_all(bs),
        ensures
            t0.is_prefix_of(console.trace()),
            key_run(bs) == Some(KeyStep::Symbol(symbol)),
            gained(t0, console.trace()) == rx_all(bs),
        decreases 4 - count,
    {
        let ghost t1 = console.trace();
        let byte = match console.read_byte() {
            Ok(b) => b,
            Err(e) => {
                assert(gained(t0, console.trace()) =~= gained(t0, t1).push(Event::Fault(e)));
                return Err(e);
            },
        };
        proof {
            assert(gained(t0, console.trace()) =~= gained(t0, t1).push(Event::Rx(byte)));
            assert(rx_all(bs.push(byte)) =~= rx_all(bs).push(Event::Rx(byte)));
            assert(bs.push(byte).drop_last() =~= bs);
            bs = bs.push(byte);
        }
        match key_step(state, byte) {
            KeyStep::More(next) => {
                state = next;
                count = count + 1;
            },
            KeyStep::Symbol(s) => {
                symbol = s;
                break;
            },
        }
    }
    let ghost t2 = console.trace();
    let w = console.write_byte(echo(symbol));
    assert(gained(t0, console.trace()) =~= gained(t0, t2).push(write_event(echo_of(symbol), w)));
    match w {
        Ok(_) => Ok(symbol),
        Err(e) => Err(e),
    }
}

} // verus!
