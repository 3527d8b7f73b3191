//! The decision core of a single-threaded TCP reactor.
//!
//! Sockets and readiness polling live with the caller; this crate owns the
//! resource tables (listeners, connections, timers), each connection's
//! ordered output queue and lifecycle, and the interpretation of the commands
//! that protocol callbacks hand back.

pub mod token;
pub mod slab;
pub mod buffer;
pub mod interest;
pub mod protocol;
pub mod connection;
pub mod timer;
pub mod control;
