//! What a node decides outside its miner: which blocks answer a query, which
//! peers hear of a new block, and by which ports it is reached.

use crate::client2node::{
    encode_response, parse_request, parsed_request, response_bytes, RequestType, RequestView,
};
use crate::codec::Wire;
use crate::errors::LedgerError;
use crate::network::{serialize_data, Data, DataView};
use crate::state::{blocks_view, Block, BlockView};
use vstd::prelude::*;

verus! {

/// The distance between the port for peers and the port for queries.
pub const API_PORT_OFFSET: u16 = 10;

/// The ports of the peers that every node knows from the start.
pub open spec fn spec_initial_peers() -> Seq<u16> {
    seq![1234u16, 1235u16, 1236u16]
}

/// The ports of the peers that every node knows from the start.
pub fn initial_peers() -> (peers: Vec<u16>)
    ensures
        peers@ == spec_initial_peers(),
{
    let mut peers: Vec<u16> = Vec::new();
    peers.push(1234);
    peers.push(1235);
    peers.push(1236);
    assert(peers@ =~= spec_initial_peers());
    peers
}

/// The port on which the node that serves peers on `port` serves queries;
/// `None` where there is no such port number.
pub fn api_port(port: u16) -> (api: Option<u16>)
    ensures
        match api {
            Some(api) => api == port + API_PORT_OFFSET,
            None => port + API_PORT_OFFSET > u16::MAX,
        },
{
    port.checked_add(API_PORT_OFFSET)
}

/// The peers of the list without the node itself, in the order of the list.
pub open spec fn others(peers: Seq<u16>, own: u16) -> Seq<u16>
    decreases peers.len(),
{
    if peers.len() == 0 {
        Seq::empty()
    } else if peers.last() == own {
        others(peers.drop_last(), own)
    } else {
        others(peers.drop_last(), own).push(peers.last())
    }
}

/// Every peer that is told is a peer of the list and not the node itself,
/// and every peer of the list but the node itself is told.
pub proof fn lemma_others_members(peers: Seq<u16>, own: u16, peer: u16)
    ensures
        others(peers, own).contains(peer) <==> (peers.contains(peer) && peer != own),
    decreases peers.len(),
{
    if peers.len() > 0 {
        let init = peers.drop_last();
        let last = peers.last();
        lemma_others_members(init, own, peer);
        let told = others(peers, own);
        if told.contains(peer) {
            let i = choose|i: int| 0 <= i < told.len() && told[i] == peer;
            if last != own && i == told.len() - 1 {
                assert(peers[peers.len() - 1] == peer);
            } else {
                assert(others(init, own)[i] == peer);
                assert(others(init, own).contains(peer));
                let j = choose|j: int| 0 <= j < init.len() && init[j] == peer;
                assert(peers[j] == peer);
            }
        }
        if peers.contains(peer) && peer != own {
            let j = choose|j: int| 0 <= j < peers.len() && peers[j] == peer;
            if j == peers.len() - 1 {
                assert(told[told.len() - 1] == peer);
            } else {
                assert(init[j] == peer);
                assert(init.contains(peer));
                let i = choose|i: int|
                    0 <= i < others(init, own).len() && others(init, own)[i] == peer;
                assert(told[i] == peer);
            }
        }
    }
}

/// The peers that a node tells of a new block: all of the list but itself.
pub fn other_peers(peers: &Vec<u16>, own: u16) -> (told: Vec<u16>)
    ensures
        told@ == others(peers@, own),
{
    let mut told: Vec<u16> = Vec::new();
    let mut i: usize = 0;
    assert(peers@.take(0) =~= Seq::empty());
    while i < peers.len()
        invariant
            i <= peers.len(),
            told@ == others(peers@.take(i as int), own),
        decreases peers.len() - i,
    {
        assert(peers@.take(i + 1).drop_last() =~= peers@.take(i as int));
        assert(peers@.take(i + 1).last() == peers@[i as int]);
        if peers[i] != own {
            told.push(peers[i]);
        }
        i += 1;
    }
    assert(peers@.take(peers.len() as int) =~= peers@);
    told
}

/// The block that the sender passes to the other peers, if the value is one.
pub fn block_to_broadcast(data: Data) -> (block: Option<Block>)
    ensures
        match data@ {
            DataView::Block(carried) => block matches Some(found) && found@ == carried,
            _ => block is None,
        },
{
    match data {
        Data::Block(block) => Some(block),
        _ => None,
    }
}

/// The newest `height` blocks of a chain, newest first; the whole chain in
/// that order where it holds fewer.
pub open spec fn newest_first(chain: Seq<BlockView>, height: nat) -> Seq<BlockView> {
    let count = if height < chain.len() {
        height
    } else {
        chain.len()
    };
    Seq::new(count, |i: int| chain[chain.len() - 1 - i])
}

/// The newest `height` blocks of `chain`, newest first.
pub fn last_blocks(chain: &Vec<Block>, height: u64) -> (blocks: Vec<Block>)
    ensures
        blocks_view(blocks@) == newest_first(blocks_view(chain@), height as nat),
{
    let total: usize = chain.len();
    let count: usize = if height < total as u64 {
        height as usize
    } else {
        total
    };
    let mut blocks: Vec<Block> = Vec::new();
    let mut i: usize = 0;
    while i < count
        invariant
            i <= count <= total,
            total == chain@.len(),
            blocks@.len() == i,
            forall|j: int| 0 <= j < i ==> blocks@[j]@ == chain@[total - 1 - j]@,
        decreases count - i,
    {
        blocks.push(chain[total - 1 - i].clone());
        i += 1;
    }
    assert(blocks_view(blocks@) =~= newest_first(blocks_view(chain@), height as nat));
    blocks
}

/// The payload that answers a request: for the newest blocks, the canonical
/// form of that stretch of the chain. The requests for one block and for one
/// transaction are reserved and answered with an API error.
pub fn blockchain_data(chain: &Vec<Block>, request_type: &RequestType) -> (result: Result<
    Vec<u8>,
    LedgerError,
>)
    ensures
        match request_type@ {
            RequestView::Blockchain { height } => result matches Ok(payload) && payload@
                == DataView::Blockchain(newest_first(blocks_view(chain@), height as nat)).form(),
            _ => result matches Err(error) && error == LedgerError::ApiError,
        },
{
    match request_type {
        RequestType::Blockchain { height } => {
            let data = Data::Blockchain(last_blocks(chain, *height));
            Ok(serialize_data(&data))
        },
        _ => Err(LedgerError::ApiError),
    }
}

/// The bytes with which a node answers the bytes of a request: the framed
/// payload for a request it serves, an API error for bytes that spell no
/// request or a reserved one, a serialization error for an answer too long
/// to frame.
pub fn respond(chain: &Vec<Block>, request: &[u8]) -> (result: Result<Vec<u8>, LedgerError>)
    ensures
        match parsed_request(request@) {
            Some(RequestView::Blockchain { height }) => {
                let payload = DataView::Blockchain(
                    newest_first(blocks_view(chain@), height as nat),
                ).form();
                if payload.len() <= u32::MAX {
                    result matches Ok(bytes) && bytes@ == response_bytes(payload)
                } else {
                    result matches Err(error) && error == LedgerError::SerializeError
                }
            },
            _ => result matches Err(error) && error == LedgerError::ApiError,
        },
{
    let request_type = match parse_request(request) {
        Ok(request_type) => request_type,
        Err(_) => return Err(LedgerError::ApiError),
    };
    let payload = match blockchain_data(chain, &request_type) {
        Ok(payload) => payload,
        Err(_) => return Err(LedgerError::ApiError),
    };
    encode_response(payload.as_slice())
}

} // verus!
