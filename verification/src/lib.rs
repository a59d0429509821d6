//! The core of a CoAP server over UDP: the wire codec, the observer
//! registry with its notification and retransmission bookkeeping, the
//! dispatcher that multiplexes inbound packets, the outbound queue and the
//! observer timer, and the multicast group selection. Everything here is
//! plain computation on decoded values; sockets, clocks and randomness stay
//! with the caller, who feeds their readings in as arguments.

pub mod codec;
pub mod dispatch;
pub mod multicast;
pub mod observer;

use vstd::prelude::*;

verus! {

/// Errors surfaced by the server control surface.
#[derive(Debug)]
pub enum CoAPServerError {
    NetworkError,
    EventLoopError,
    AnotherHandlerIsRunning,
    EventSendError,
}

} // verus!
