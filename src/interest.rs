use vstd::prelude::*;

verus! {

/// Readiness events a socket is registered for.
#[derive(Clone, Copy, PartialEq, Eq, Structural, Debug)]
pub struct Interest {
    pub readable: bool,
    pub writable: bool,
    pub hup: bool,
}

impl Interest {
    /// No events.
    pub fn none() -> (r: Interest)
        ensures
            !r.readable && !r.writable && !r.hup,
    {
        Interest { readable: false, writable: false, hup: false }
    }

    /// Read readiness only.
    pub fn readable() -> (r: Interest)
        ensures
            r.readable && !r.writable && !r.hup,
    {
        Interest { readable: true, writable: false, hup: false }
    }

    /// Write readiness only.
    pub fn writable() -> (r: Interest)
        ensures
            !r.readable && r.writable && !r.hup,
    {
        Interest { readable: false, writable: true, hup: false }
    }

    /// Hangup only.
    pub fn hup() -> (r: Interest)
        ensures
            !r.readable && !r.writable && r.hup,
    {
        Interest { readable: false, writable: false, hup: true }
    }

    /// Events of either mask.
    pub fn union(self, other: Interest) -> (r: Interest)
        ensures
            r.readable == (self.readable || other.readable),
            r.writable == (self.writable || other.writable),
            r.hup == (self.hup || other.hup),
    {
        Interest {
            readable: self.readable || other.readable,
            writable: self.writable || other.writable,
            hup: self.hup || other.hup,
        }
    }

    /// Whether every event of `other` is in this mask.
    pub fn contains(self, other: Interest) -> (r: bool)
        ensures
            r == ((other.readable ==> self.readable) && (other.writable ==> self.writable) && (
            other.hup ==> self.hup)),
    {
        (!other.readable || self.readable) && (!other.writable || self.writable) && (!other.hup
            || self.hup)
    }
}

} // verus!
