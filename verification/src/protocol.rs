//! What a request declares about its reply, and what comes back.

use vstd::prelude::*;

verus! {

/// The reply contract of a request. It is fixed per request type; it is never
/// guessed from traffic.
#[derive(Clone, Copy, Debug, PartialEq, Eq, Structural)]
pub enum ReplyKind {
    /// No reply travels on the wire: the request is answered by being written.
    Implicit,
    /// The server answers with a reply that carries the request's sequence number.
    Wire,
}

/// A reply as handed to the caller, who owns it from then on.
#[derive(Clone, Debug, PartialEq, Eq)]
pub enum Reply {
    /// The payload-free reply: the request was accepted.
    Void,
    /// The undecoded bytes of a wire reply.
    Payload(Vec<u8>),
}

/// What the receive path observed for one sequence number.
#[derive(Clone, Debug, PartialEq, Eq)]
pub enum Arrival {
    /// A reply with these bytes.
    Reply(Vec<u8>),
    /// An error reply with this code.
    Error(u8),
}

} // verus!
