//! A byte-oriented, checksum-verified, retrying file-transfer protocol engine
//! (XMODEM with 128-byte packets), the byte-endpoint capabilities it is generic
//! over, the bounded memory sink that receives a boot image, and the small
//! decisions of the board's console and timer.
pub mod io;
pub mod protocol;
pub mod progress;
pub mod stream;
pub mod xmodem;
pub mod mem;
pub mod buffers;
pub mod device;
pub mod keys;
pub mod clock;
pub mod guarantees;
