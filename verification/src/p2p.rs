//! The peer-to-peer event protocol: one event per connection, framed as a
//! tag byte, the length of the payload in four bytes, most significant first,
//! and the payload; the receiver answers with one acknowledgement byte.

use crate::codec::{
    decoded, decoded_sequence, decoded_text, sequence_bytes, string_bytes, Wire,
};
use crate::endian::{be32_bytes, be32_value, lemma_be32_roundtrip, read_be32, write_be32};
use crate::errors::LedgerError;
use crate::network::{
    decoded_peers, deserialize_blockchain, deserialize_peer, deserialize_peers,
    serialize_blockchain, serialize_peer, serialize_peers, Data, DataView,
};
use crate::state::{BlockView, TransactionView};
use crate::wire::{
    deserialize_block, deserialize_transaction, serialize_block, serialize_transaction,
};
use vstd::prelude::*;
use vstd::slice::slice_subrange;

verus! {

/// The acknowledgement byte that reports success.
pub const ACK_SUCCESS: u8 = 1;

/// The length of a frame header: the tag and the payload length.
pub const FRAME_HEADER_LENGTH: usize = 5;

/// What a node sends.
#[derive(Clone, Copy, Debug, PartialEq, Eq, Structural)]
pub enum SendEvent {
    SendBlock,
    SendTransaction,
    InitPeer,
    SendPeers,
    SendChain,
}

/// What a node receives.
#[derive(Clone, Copy, Debug, PartialEq, Eq, Structural)]
pub enum ReceiveEvent {
    ReceiveBlock,
    ReceiveTransaction,
    AddPeer,
    ReceivePeers,
    ReceiveChain,
}

/// A wire event with its direction.
#[derive(Clone, Copy, Debug, PartialEq, Eq, Structural)]
pub enum NetworkEvent {
    Send(SendEvent),
    Receive(ReceiveEvent),
}

impl SendEvent {
    /// The tag byte of the event.
    pub open spec fn spec_value(self) -> u8 {
        match self {
            SendEvent::SendBlock => 1,
            SendEvent::SendTransaction => 2,
            SendEvent::InitPeer => 3,
            SendEvent::SendPeers => 4,
            SendEvent::SendChain => 5,
        }
    }

    /// The tag byte of the event.
    pub fn value(&self) -> (tag: u8)
        ensures
            tag == self.spec_value(),
    {
        match self {
            SendEvent::SendBlock => 1,
            SendEvent::SendTransaction => 2,
            SendEvent::InitPeer => 3,
            SendEvent::SendPeers => 4,
            SendEvent::SendChain => 5,
        }
    }

    /// The event with the tag `value`, if there is one.
    pub open spec fn spec_from_value(value: u8) -> Option<SendEvent> {
        if value == 1 {
            Some(SendEvent::SendBlock)
        } else if value == 2 {
            Some(SendEvent::SendTransaction)
        } else if value == 3 {
            Some(SendEvent::InitPeer)
        } else if value == 4 {
            Some(SendEvent::SendPeers)
        } else if value == 5 {
            Some(SendEvent::SendChain)
        } else {
            None
        }
    }

    /// The event under which a value of the given kind travels.
    pub open spec fn spec_for_data(data: DataView) -> SendEvent {
        match data {
            DataView::Block(_) => SendEvent::SendBlock,
            DataView::Transaction(_) => SendEvent::SendTransaction,
            DataView::Peer(_) => SendEvent::InitPeer,
            DataView::Peers(_) => SendEvent::SendPeers,
            DataView::Blockchain(_) => SendEvent::SendChain,
        }
    }
}

impl ReceiveEvent {
    /// The event with the tag `value`, if there is one.
    pub open spec fn spec_from_value(value: u8) -> Option<ReceiveEvent> {
        if value == 1 {
            Some(ReceiveEvent::ReceiveBlock)
        } else if value == 2 {
            Some(ReceiveEvent::ReceiveTransaction)
        } else if value == 3 {
            Some(ReceiveEvent::AddPeer)
        } else if value == 4 {
            Some(ReceiveEvent::ReceivePeers)
        } else if value == 5 {
            Some(ReceiveEvent::ReceiveChain)
        } else {
            None
        }
    }

    /// The event with the tag `value`; an unknown tag is a wrong command.
    pub fn from_value(value: u8) -> (result: Result<ReceiveEvent, LedgerError>)
        ensures
            match Self::spec_from_value(value) {
                Some(event) => result == Ok::<ReceiveEvent, LedgerError>(event),
                None => result == Err::<ReceiveEvent, LedgerError>(LedgerError::WrongCommandError),
            },
    {
        match value {
            1 => Ok(ReceiveEvent::ReceiveBlock),
            2 => Ok(ReceiveEvent::ReceiveTransaction),
            3 => Ok(ReceiveEvent::AddPeer),
            4 => Ok(ReceiveEvent::ReceivePeers),
            5 => Ok(ReceiveEvent::ReceiveChain),
            _ => Err(LedgerError::WrongCommandError),
        }
    }
}

impl NetworkEvent {
    /// The event that a direction byte and a tag byte name: direction 1 is
    /// sending, direction 2 receiving.
    pub open spec fn spec_from_pair(value: (u8, u8)) -> Option<NetworkEvent> {
        if value.0 == 1 {
            match SendEvent::spec_from_value(value.1) {
                Some(event) => Some(NetworkEvent::Send(event)),
                None => None,
            }
        } else if value.0 == 2 {
            match ReceiveEvent::spec_from_value(value.1) {
                Some(event) => Some(NetworkEvent::Receive(event)),
                None => None,
            }
        } else {
            None
        }
    }
}

impl vstd::std_specs::convert::TryFromSpecImpl<(u8, u8)> for NetworkEvent {
    open spec fn obeys_try_from_spec() -> bool {
        true
    }

    open spec fn try_from_spec(value: (u8, u8)) -> Result<NetworkEvent, LedgerError> {
        match NetworkEvent::spec_from_pair(value) {
            Some(event) => Ok(event),
            None => Err(LedgerError::WrongCommandError),
        }
    }
}

impl TryFrom<(u8, u8)> for NetworkEvent {
    type Error = LedgerError;

    /// The event that a direction byte and a tag byte name; an unknown
    /// direction or tag is a wrong command.
    fn try_from(value: (u8, u8)) -> (result: Result<NetworkEvent, LedgerError>) {
        match value.0 {
            1u8 => {
                let send_event = match value.1 {
                    1 => SendEvent::SendBlock,
                    2 => SendEvent::SendTransaction,
                    3 => SendEvent::InitPeer,
                    4 => SendEvent::SendPeers,
                    5 => SendEvent::SendChain,
                    _ => {
                        return Err(LedgerError::WrongCommandError);
                    },
                };
                Ok(NetworkEvent::Send(send_event))
            },
            2u8 => {
                let receive_event = match value.1 {
                    1 => ReceiveEvent::ReceiveBlock,
                    2 => ReceiveEvent::ReceiveTransaction,
                    3 => ReceiveEvent::AddPeer,
                    4 => ReceiveEvent::ReceivePeers,
                    5 => ReceiveEvent::ReceiveChain,
                    _ => {
                        return Err(LedgerError::WrongCommandError);
                    },
                };
                Ok(NetworkEvent::Receive(receive_event))
            },
            _ => Err(LedgerError::WrongCommandError),
        }
    }
}

/// The bytes of a frame: the tag, the payload length, the payload.
pub open spec fn frame_bytes(tag: u8, payload: Seq<u8>) -> Seq<u8> {
    seq![tag] + be32_bytes(payload.len() as u32) + payload
}

/// The payload under which a value travels: its own canonical bytes, without
/// the tag of its kind, which the frame carries.
pub open spec fn payload_bytes(data: DataView) -> Seq<u8> {
    match data {
        DataView::Block(block) => block.form(),
        DataView::Transaction(transaction) => transaction.form(),
        DataView::Peer(peer) => string_bytes(peer),
        DataView::Peers(peers) => sequence_bytes(peers),
        DataView::Blockchain(blocks) => sequence_bytes(blocks),
    }
}

/// The value that a payload stands for under an event.
pub open spec fn event_data(event: ReceiveEvent, payload: Seq<u8>) -> Option<DataView> {
    match event {
        ReceiveEvent::ReceiveBlock => match decoded::<BlockView>(payload) {
            Some(block) => Some(DataView::Block(block)),
            None => None,
        },
        ReceiveEvent::ReceiveTransaction => match decoded::<TransactionView>(payload) {
            Some(transaction) => Some(DataView::Transaction(transaction)),
            None => None,
        },
        ReceiveEvent::AddPeer => match decoded_text(payload) {
            Some(peer) => Some(DataView::Peer(peer)),
            None => None,
        },
        ReceiveEvent::ReceivePeers => match decoded_peers(payload) {
            Some(peers) => Some(DataView::Peers(peers)),
            None => None,
        },
        ReceiveEvent::ReceiveChain => match decoded_sequence::<BlockView>(payload) {
            Some(blocks) => Some(DataView::Blockchain(blocks)),
            None => None,
        },
    }
}

/// What a receiver makes of the bytes of a connection: the value, or the
/// error at the first step that fails. A missing or unknown tag and a
/// missing length are wrong commands, a payload shorter than announced is a
/// network error, a payload that stands for no value of the announced kind a
/// deserialization error. Bytes after the announced payload are never read.
pub open spec fn frame_data(frame: Seq<u8>) -> Result<DataView, LedgerError> {
    if frame.len() < 1 {
        Err(LedgerError::WrongCommandError)
    } else {
        match ReceiveEvent::spec_from_value(frame[0]) {
            None => Err(LedgerError::WrongCommandError),
            Some(event) => {
                if frame.len() < 5 {
                    Err(LedgerError::WrongCommandError)
                } else {
                    let announced = be32_value(frame.subrange(1, 5));
                    if frame.len() - 5 < announced {
                        Err(LedgerError::NetworkError)
                    } else {
                        match event_data(event, frame.subrange(5, 5 + announced)) {
                            Some(data) => Ok(data),
                            None => Err(LedgerError::DeserializationError),
                        }
                    }
                }
            },
        }
    }
}

/// Frames a payload under an event. A payload whose length does not fit the
/// length field cannot be framed.
pub fn encode_frame(event: SendEvent, payload: &[u8]) -> (result: Result<Vec<u8>, LedgerError>)
    ensures
        match result {
            Ok(frame) => payload@.len() <= u32::MAX && frame@ == frame_bytes(
                event.spec_value(),
                payload@,
            ),
            Err(error) => payload@.len() > u32::MAX && error == LedgerError::SerializeError,
        },
{
    if payload.len() > u32::MAX as usize {
        return Err(LedgerError::SerializeError);
    }
    let mut frame: Vec<u8> = Vec::new();
    frame.push(event.value());
    write_be32(&mut frame, payload.len() as u32);
    let ghost headed = frame@;
    let mut i: usize = 0;
    while i < payload.len()
        invariant
            i <= payload.len(),
            frame@ == headed + payload@.take(i as int),
        decreases payload.len() - i,
    {
        frame.push(payload[i]);
        assert(frame@ =~= headed + payload@.take(i + 1));
        i += 1;
    }
    assert(payload@.take(payload.len() as int) =~= payload@);
    assert(frame@ =~= frame_bytes(event.spec_value(), payload@));
    Ok(frame)
}

/// The length that the four bytes after the tag announce.
pub fn payload_length(header: &[u8]) -> (length: u32)
    requires
        header@.len() == 4,
    ensures
        length == be32_value(header@),
{
    assert(header@.subrange(0, 4) =~= header@);
    read_be32(header, 0)
}

/// Turns the payload of an event into the value it stands for.
pub fn process_event(event: ReceiveEvent, payload: &[u8]) -> (result: Result<Data, LedgerError>)
    ensures
        match event_data(event, payload@) {
            Some(data) => result matches Ok(read) && read@ == data,
            None => result matches Err(error) && error == LedgerError::DeserializationError,
        },
{
    match event {
        ReceiveEvent::ReceiveBlock => {
            match deserialize_block(payload) {
                Ok(block) => Ok(Data::Block(block)),
                Err(_) => Err(LedgerError::DeserializationError),
            }
        },
        ReceiveEvent::ReceiveTransaction => {
            match deserialize_transaction(payload) {
                Ok(transaction) => Ok(Data::Transaction(transaction)),
                Err(_) => Err(LedgerError::DeserializationError),
            }
        },
        ReceiveEvent::AddPeer => {
            match deserialize_peer(payload) {
                Ok(peer) => Ok(Data::Peer(peer)),
                Err(_) => Err(LedgerError::DeserializationError),
            }
        },
        ReceiveEvent::ReceivePeers => {
            match deserialize_peers(payload) {
                Ok(peers) => Ok(Data::Peers(peers)),
                Err(_) => Err(LedgerError::DeserializationError),
            }
        },
        ReceiveEvent::ReceiveChain => {
            match deserialize_blockchain(payload) {
                Ok(blocks) => Ok(Data::Blockchain(blocks)),
                Err(_) => Err(LedgerError::DeserializationError),
            }
        },
    }
}

/// Turns the bytes of a connection into the value they carry.
pub fn decode_frame(frame: &[u8]) -> (result: Result<Data, LedgerError>)
    ensures
        match frame_data(frame@) {
            Ok(data) => result matches Ok(read) && read@ == data,
            Err(error) => result matches Err(found) && found == error,
        },
{
    if frame.len() < 1 {
        return Err(LedgerError::WrongCommandError);
    }
    let event = match ReceiveEvent::from_value(frame[0]) {
        Ok(event) => event,
        Err(_) => return Err(LedgerError::WrongCommandError),
    };
    if frame.len() < FRAME_HEADER_LENGTH {
        return Err(LedgerError::WrongCommandError);
    }
    let announced: u32 = read_be32(frame, 1);
    if ((frame.len() - FRAME_HEADER_LENGTH) as u64) < announced as u64 {
        return Err(LedgerError::NetworkError);
    }
    let payload = slice_subrange(frame, FRAME_HEADER_LENGTH, FRAME_HEADER_LENGTH + announced as usize);
    process_event(event, payload)
}

/// The frame under which a value travels to a peer.
pub fn event_frame(data: &Data) -> (result: Result<Vec<u8>, LedgerError>)
    ensures
        match result {
            Ok(frame) => payload_bytes(data@).len() <= u32::MAX && frame@ == frame_bytes(
                SendEvent::spec_for_data(data@).spec_value(),
                payload_bytes(data@),
            ) && frame_data(frame@) == Ok::<DataView, LedgerError>(data@),
            Err(error) => payload_bytes(data@).len() > u32::MAX && error
                == LedgerError::SerializeError,
        },
{
    let (event, payload) = match data {
        Data::Block(block) => (SendEvent::SendBlock, serialize_block(block)),
        Data::Transaction(transaction) => (
            SendEvent::SendTransaction,
            serialize_transaction(transaction),
        ),
        Data::Peer(peer) => (SendEvent::InitPeer, serialize_peer(peer)),
        Data::Peers(peers) => (SendEvent::SendPeers, serialize_peers(peers)),
        Data::Blockchain(blocks) => (SendEvent::SendChain, serialize_blockchain(blocks)),
    };
    let result = encode_frame(event, payload.as_slice());
    proof {
        if result is Ok {
            lemma_frame_roundtrip(data@);
        }
    }
    result
}

/// What the acknowledgement byte of a receiver says: 1 is success, any
/// other byte a network error.
pub fn check_ack(ack: u8) -> (result: Result<(), LedgerError>)
    ensures
        ack == ACK_SUCCESS ==> result is Ok,
        ack != ACK_SUCCESS ==> result == Err::<(), LedgerError>(LedgerError::NetworkError),
{
    if ack == ACK_SUCCESS {
        Ok(())
    } else {
        Err(LedgerError::NetworkError)
    }
}

/// A receiver reads from the frame of a value exactly that value.
pub proof fn lemma_frame_roundtrip(data: DataView)
    requires
        data.encodable(),
        payload_bytes(data).len() <= u32::MAX,
    ensures
        frame_data(frame_bytes(SendEvent::spec_for_data(data).spec_value(), payload_bytes(data)))
            == Ok::<DataView, LedgerError>(data),
{
    let payload = payload_bytes(data);
    let tag = SendEvent::spec_for_data(data).spec_value();
    let frame = frame_bytes(tag, payload);
    let announced = payload.len() as u32;
    lemma_be32_roundtrip(announced);
    assert(frame.subrange(1, 5) =~= be32_bytes(announced));
    assert(frame.subrange(5, 5 + announced) =~= payload);
    assert(frame[0] == tag);
    match data {
        DataView::Block(block) => {
            crate::codec::lemma_decode_encode(block);
        },
        DataView::Transaction(transaction) => {
            crate::codec::lemma_decode_encode(transaction);
        },
        DataView::Peer(peer) => {
            crate::codec::lemma_decode_encode_text(peer);
        },
        DataView::Peers(peers) => {
            crate::network::lemma_decode_encode_peers(peers);
        },
        DataView::Blockchain(blocks) => {
            crate::codec::lemma_decode_encode_sequence(blocks);
        },
    }
}

} // verus!
