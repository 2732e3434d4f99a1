//! Observation of a transfer's lifecycle.
use vstd::prelude::*;

verus! {

/// A point in the life of a transfer.
#[derive(Clone, Copy, Debug, PartialEq, Eq, Structural)]
pub enum Progress {
    /// About to wait for the receiver's opening `NAK`.
    Waiting,
    /// The opening handshake is done; the transfer proper begins.
    Started,
    /// Packet `.0` was transferred and acknowledged.
    Packet(u8),
}

/// A side-effect-only observer of `Progress`, called synchronously by the
/// protocol engine. It has no say in the transfer.
pub trait ProgressFn {
    /// Every report received so far, oldest first.
    spec fn seen(&self) -> Seq<Progress>;

    /// Receives the report `p`.
    fn report(&mut self, p: Progress)
        ensures
            final(self).seen() == old(self).seen().push(p),
    ;
}

/// The observer that ignores every event; it only counts as having been
/// told.
pub struct Noop {
    told: Ghost<Seq<Progress>>,
}

impl Noop {
    /// An observer that has been told nothing.
    pub fn new() -> (r: Noop)
        ensures
            r.seen() == Seq::<Progress>::empty(),
    {
        Noop { told: Ghost(Seq::empty()) }
    }
}

impl ProgressFn for Noop {
    closed spec fn seen(&self) -> Seq<Progress> {
        self.told@
    }

    fn report(&mut self, p: Progress) {
        noop(p);
        self.told = Ghost(self.told@.push(p));
    }
}

/// The observer that keeps every report.
pub struct Recorder {
    events: Vec<Progress>,
}

impl Recorder {
    /// An observer that has kept nothing.
    pub fn new() -> (r: Recorder)
        ensures
            r.seen() == Seq::<Progress>::empty(),
    {
        Recorder { events: Vec::new() }
    }

    /// The reports kept, oldest first.
    pub fn events(&self) -> (r: &Vec<Progress>)
        ensures
            r@ == self.seen(),
    {
        &self.events
    }
}

impl ProgressFn for Recorder {
    closed spec fn seen(&self) -> Seq<Progress> {
        self.events@
    }

    fn report(&mut self, p: Progress) {
        self.events.push(p);
    }
}

impl<T: ProgressFn> ProgressFn for &mut T {
    open spec fn seen(&self) -> Seq<Progress> {
        (**self).seen()
    }

    fn report(&mut self, p: Progress) {
        (**self).report(p)
    }
}

/// Ignores `_p`.
pub fn noop(_p: Progress) {
}

} // verus!
