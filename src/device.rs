//! Byte devices outside the library (a UART, a console) and the endpoint
//! that records what is exchanged with one.
use vstd::prelude::*;
use crate::io::{ErrorKind, Event, Endpoint, Read, Write, read_event};

verus! {

/// A device that moves single bytes: a UART, a console.
pub trait Device {
    /// Every byte received or sent, and every failure, oldest first.
    spec fn history(&self) -> Seq<Event>;

    /// Receives one byte.
    fn recv(&mut self) -> (r: Result<u8, ErrorKind>)
        ensures
            final(self).history() == old(self).history().push(read_event(r)),
    ;

    /// Sends one byte.
    fn send(&mut self, byte: u8) -> (r: Result<(), ErrorKind>)
        ensures
            final(self).history() == old(self).history().push(
                match r {
                    Ok(()) => Event::Tx(byte),
                    Err(e) => Event::Fault(e),
                },
            ),
    ;
}

/// The record a device's history is.
pub type Events = Seq<Event>;

/// The endpoint over a device, whose trace is the device's history.
pub struct Port<D> {
    dev: D,
}

impl<D: Device> Port<D> {
    /// An endpoint over `dev`.
    pub fn new(dev: D) -> (r: Self)
        ensures
            r.trace() == dev.history(),
    {
        Port { dev }
    }

    /// The device.
    pub fn into_inner(self) -> (r: D)
        ensures
            r.history() == self.trace(),
    {
        self.dev
    }
}

impl<D: Device> Endpoint for Port<D> {
    closed spec fn trace(&self) -> Seq<Event> {
        self.dev.history()
    }

    /// A device promises nothing beyond its history.
    open spec fn inv(&self) -> bool {
        true
    }

    open spec fn origin(&self) -> Seq<u8> {
        Seq::empty()
    }
}

impl<D: Device> Read for Port<D> {
    fn read_byte(&mut self) -> (r: Result<u8, ErrorKind>) {
        self.dev.recv()
    }
}

impl<D: Device> Write for Port<D> {
    fn write_byte(&mut self, byte: u8) -> (r: Result<u8, ErrorKind>) {
        match self.dev.send(byte) {
            Ok(()) => Ok(byte),
            Err(e) => Err(e),
        }
    }
}

} // verus!
