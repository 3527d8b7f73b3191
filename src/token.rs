use vstd::prelude::*;

verus! {

/// Stable integer handle of a resource owned by the reactor.
#[derive(Clone, Copy, PartialEq, Eq, Structural, Debug, Hash)]
pub struct Token(pub usize);

/// First listener token.
pub const LISTENER_BASE: usize = 0;

/// Number of listener slots: listener tokens are `0..=255`.
pub const MAX_LISTENERS: usize = 256;

/// First connection token; connection tokens follow the listener range.
pub const CONNECTION_BASE: usize = 256;

/// Which table a token addresses.
#[derive(Clone, Copy, PartialEq, Eq, Structural, Debug)]
pub enum TokenClass {
    Listener,
    Connection,
}

pub open spec fn spec_class_of(t: usize) -> TokenClass {
    if t < CONNECTION_BASE {
        TokenClass::Listener
    } else {
        TokenClass::Connection
    }
}

/// The table a token belongs to: listener and connection ranges are disjoint,
/// so the token alone decides where an event goes.
pub fn class_of(t: Token) -> (r: TokenClass)
    ensures
        r == spec_class_of(t.0),
{
    if t.0 < CONNECTION_BASE {
        TokenClass::Listener
    } else {
        TokenClass::Connection
    }
}

} // verus!
