//! The routing table of the hub that links the receiver, the sender and the
//! miner of a node. The hub never changes what it passes on; it only decides
//! where each value goes.

use crate::network::Data;
use vstd::prelude::*;

verus! {

/// The capacity of each channel between the hub and an actor.
pub const CHANNEL_CAPACITY: usize = 10;

/// The endpoint at which a value enters the hub.
#[derive(Clone, Copy, Debug, PartialEq, Eq, Structural)]
pub enum Source {
    /// From the network, through the receiver.
    Receiver,
    /// From the miner of this node.
    Miner,
}

/// Where the hub passes a value on.
#[derive(Clone, Copy, Debug, PartialEq, Eq, Structural)]
pub enum Route {
    /// To the miner.
    ToMiner,
    /// To the sender, and so to the other peers.
    ToSender,
    /// Nowhere: the value is not expected at this endpoint.
    Discard,
}

/// The routing table by kind of value: blocks and transactions from the
/// network go to the miner, peer addresses and peer lists from the network
/// to the sender, blocks from the miner to the sender; nothing else is passed
/// on.
pub open spec fn spec_route(source: Source, kind: u8) -> Route {
    match source {
        Source::Receiver => {
            if kind == 1 || kind == 2 {
                Route::ToMiner
            } else if kind == 3 || kind == 4 {
                Route::ToSender
            } else {
                Route::Discard
            }
        },
        Source::Miner => {
            if kind == 1 {
                Route::ToSender
            } else {
                Route::Discard
            }
        },
    }
}

/// Where the hub passes on a value that entered at `source`.
pub fn route(source: Source, data: &Data) -> (target: Route)
    ensures
        target == spec_route(source, data@.data_type()),
{
    let kind = data.data_type();
    match source {
        Source::Receiver => {
            if kind == 1 || kind == 2 {
                Route::ToMiner
            } else if kind == 3 || kind == 4 {
                Route::ToSender
            } else {
                Route::Discard
            }
        },
        Source::Miner => {
            if kind == 1 {
                Route::ToSender
            } else {
                Route::Discard
            }
        },
    }
}

} // verus!
