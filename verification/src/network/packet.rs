//! Addresses and outgoing packets, as plain values.

use crate::network::messages::{ClientBoundMessage, ServerBoundMessage};
use vstd::prelude::*;

verus! {

/// The address of a socket: an IPv4 or IPv6 address with a port.
#[derive(Debug, Clone, Copy, PartialEq, Eq, Hash, Structural)]
#[allow(inconsistent_fields)]
pub enum Peer {
    V4 { ip: u32, port: u16 },
    V6 { ip: u128, port: u16, flowinfo: u32, scope_id: u32 },
}

/// The two channels of the transport.
#[derive(Debug, Clone, Copy, PartialEq, Eq, Structural)]
pub enum Delivery {
    /// Sent again until acknowledged.
    Reliable,
    /// Sent once; may be lost or overtaken.
    Unreliable,
}

/// A message of the host to be sent to each of `targets`.
#[derive(Debug)]
pub struct Outgoing {
    pub targets: Vec<Peer>,
    pub delivery: Delivery,
    pub message: ClientBoundMessage,
}

/// What an `Outgoing` says: whom to send what, and how.
pub ghost struct Dispatch {
    pub targets: Seq<Peer>,
    pub delivery: Delivery,
    pub message: ClientBoundMessage,
}

/// The packet `o` is the dispatch `d`.
pub open spec fn is_dispatch(o: Outgoing, d: Dispatch) -> bool {
    o.targets@ == d.targets && o.delivery == d.delivery && o.message.alike(&d.message)
}

/// The packets are the dispatches, one for one and in order.
pub open spec fn carries(out: Seq<Outgoing>, expected: Seq<Dispatch>) -> bool {
    &&& out.len() == expected.len()
    &&& forall|i: int| 0 <= i < out.len() ==> is_dispatch(#[trigger] out[i], expected[i])
}

/// Packets that are dispatches, followed by more of them, are the
/// dispatches of both.
pub proof fn lemma_carries_both(
    a: Seq<Outgoing>,
    ea: Seq<Dispatch>,
    b: Seq<Outgoing>,
    eb: Seq<Dispatch>,
)
    requires
        carries(a, ea),
        carries(b, eb),
    ensures
        carries(a + b, ea + eb),
{
    assert forall|i: int| 0 <= i < (a + b).len() implies is_dispatch(
        #[trigger] (a + b)[i],
        (ea + eb)[i],
    ) by {
        if i < a.len() {
            assert(is_dispatch(a[i], ea[i]));
        } else {
            assert(is_dispatch(b[i - a.len()], eb[i - a.len()]));
        }
    }
}

/// A message of a client to be sent to the host.
#[derive(Debug)]
pub struct Upload {
    pub target: Peer,
    pub delivery: Delivery,
    pub message: ServerBoundMessage,
}

} // verus!
