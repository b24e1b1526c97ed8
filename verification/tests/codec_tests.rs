use bincode::Options;
use ledger::codec::{
    bytes_equal, read_byte_string, read_i64, read_optional_bytes, read_string, read_u32,
    read_varint, write_byte_string, write_i64, write_optional_bytes, write_string, write_u32,
    write_varint,
};
use ledger::errors::LedgerError;
use ledger::network::{
    deserialize_blockchain, deserialize_data, deserialize_peer, deserialize_peers,
    serialize_blockchain, serialize_data, serialize_peer, serialize_peers, Data, Peers,
};
use ledger::state::{Block, Command, Transaction};
use ledger::wire::{
    deserialize_block, deserialize_command, deserialize_transaction, serialize_block,
    serialize_command, serialize_transaction,
};
use serde::ser::{SerializeSeq, SerializeStruct, SerializeStructVariant, SerializeTuple};
use serde::{Serialize, Serializer};

fn varint(value: u64) -> Vec<u8> {
    let mut out = Vec::new();
    write_varint(&mut out, value);
    out
}

fn signed(value: i64) -> Vec<u8> {
    let mut out = Vec::new();
    write_i64(&mut out, value);
    out
}

fn create_account(public_key: &str) -> Command {
    Command::CreateAccount { public_key: public_key.to_string() }
}

fn add_funds(account_id: u32, value: u32, asset_id: &str) -> Command {
    Command::AddFunds { account_id, value, asset_id: asset_id.to_string() }
}

fn transfer(from: u32, to: u32, value: u32, asset_id: &str) -> Command {
    Command::TransferFunds {
        account_from_id: from,
        account_to_id: to,
        value,
        asset_id: asset_id.to_string(),
    }
}

fn sample_transaction() -> Transaction {
    Transaction {
        fee: 555,
        commands: vec![create_account("12345"), add_funds(1, 70000, "TEST"), transfer(1, 2, 3, "X")],
    }
}

fn sample_block() -> Block {
    Block {
        id: 1,
        timestamp: -1_700_000_000,
        nonce: 4_000_000_000,
        signature: vec![1, 2, 3, 4, 5],
        hash: vec![0, 0, 255],
        previous_block_hash: Some(vec![9, 8, 7]),
        transactions: vec![sample_transaction(), Transaction { fee: 0, commands: vec![] }],
    }
}

fn peers_of(pairs: &[(&str, &str)]) -> Peers {
    let pairs = pairs.iter().map(|(key, address)| (key.to_string(), address.to_string())).collect();
    Peers::from_pairs(pairs).unwrap()
}

fn show<T: std::fmt::Debug>(value: &T) -> String {
    format!("{:?}", value)
}

struct WireCommand<'a>(&'a Command);

impl<'a> Serialize for WireCommand<'a> {
    fn serialize<S: Serializer>(&self, serializer: S) -> Result<S::Ok, S::Error> {
        match self.0 {
            Command::CreateAccount { public_key } => {
                let mut state =
                    serializer.serialize_struct_variant("Command", 0, "CreateAccount", 1)?;
                state.serialize_field("public_key", public_key)?;
                state.end()
            }
            Command::AddFunds { account_id, value, asset_id } => {
                let mut state = serializer.serialize_struct_variant("Command", 1, "AddFunds", 3)?;
                state.serialize_field("account_id", account_id)?;
                state.serialize_field("value", value)?;
                state.serialize_field("asset_id", asset_id)?;
                state.end()
            }
            Command::TransferFunds { account_from_id, account_to_id, value, asset_id } => {
                let mut state =
                    serializer.serialize_struct_variant("Command", 2, "TransferFunds", 4)?;
                state.serialize_field("account_from_id", account_from_id)?;
                state.serialize_field("account_to_id", account_to_id)?;
                state.serialize_field("value", value)?;
                state.serialize_field("asset_id", asset_id)?;
                state.end()
            }
        }
    }
}

struct WireCommands<'a>(&'a Vec<Command>);

impl<'a> Serialize for WireCommands<'a> {
    fn serialize<S: Serializer>(&self, serializer: S) -> Result<S::Ok, S::Error> {
        let mut state = serializer.serialize_seq(Some(self.0.len()))?;
        for command in self.0.iter() {
            state.serialize_element(&WireCommand(command))?;
        }
        state.end()
    }
}

struct WireTransaction<'a>(&'a Transaction);

impl<'a> Serialize for WireTransaction<'a> {
    fn serialize<S: Serializer>(&self, serializer: S) -> Result<S::Ok, S::Error> {
        let mut state = serializer.serialize_struct("Transaction", 2)?;
        state.serialize_field("fee", &self.0.fee)?;
        state.serialize_field("commands", &WireCommands(&self.0.commands))?;
        state.end()
    }
}

struct WireTransactions<'a>(&'a Vec<Transaction>);

impl<'a> Serialize for WireTransactions<'a> {
    fn serialize<S: Serializer>(&self, serializer: S) -> Result<S::Ok, S::Error> {
        let mut state = serializer.serialize_seq(Some(self.0.len()))?;
        for transaction in self.0.iter() {
            state.serialize_element(&WireTransaction(transaction))?;
        }
        state.end()
    }
}

struct WireBlock<'a>(&'a Block);

impl<'a> Serialize for WireBlock<'a> {
    fn serialize<S: Serializer>(&self, serializer: S) -> Result<S::Ok, S::Error> {
        let mut state = serializer.serialize_struct("Block", 7)?;
        state.serialize_field("id", &self.0.id)?;
        state.serialize_field("timestamp", &self.0.timestamp)?;
        state.serialize_field("nonce", &self.0.nonce)?;
        state.serialize_field("signature", &self.0.signature)?;
        state.serialize_field("hash", &self.0.hash)?;
        state.serialize_field("previous_block_hash", &self.0.previous_block_hash)?;
        state.serialize_field("transactions", &WireTransactions(&self.0.transactions))?;
        state.end()
    }
}

struct WireBlocks<'a>(&'a Vec<Block>);

impl<'a> Serialize for WireBlocks<'a> {
    fn serialize<S: Serializer>(&self, serializer: S) -> Result<S::Ok, S::Error> {
        let mut state = serializer.serialize_seq(Some(self.0.len()))?;
        for block in self.0.iter() {
            state.serialize_element(&WireBlock(block))?;
        }
        state.end()
    }
}

struct WirePeer<'a>(&'a (String, String));

impl<'a> Serialize for WirePeer<'a> {
    fn serialize<S: Serializer>(&self, serializer: S) -> Result<S::Ok, S::Error> {
        let mut state = serializer.serialize_tuple(2)?;
        state.serialize_element(&(self.0).0)?;
        state.serialize_element(&(self.0).1)?;
        state.end()
    }
}

struct WirePeers<'a>(&'a Vec<(String, String)>);

impl<'a> Serialize for WirePeers<'a> {
    fn serialize<S: Serializer>(&self, serializer: S) -> Result<S::Ok, S::Error> {
        // A map is written as its length and its entries, key before value.
        let mut state = serializer.serialize_seq(Some(self.0.len()))?;
        for peer in self.0.iter() {
            state.serialize_element(&WirePeer(peer))?;
        }
        state.end()
    }
}

struct WireData<'a>(&'a Data);

impl<'a> Serialize for WireData<'a> {
    fn serialize<S: Serializer>(&self, serializer: S) -> Result<S::Ok, S::Error> {
        match self.0 {
            Data::Block(block) => {
                serializer.serialize_newtype_variant("Data", 0, "Block", &WireBlock(block))
            }
            Data::Transaction(transaction) => serializer.serialize_newtype_variant(
                "Data",
                1,
                "Transaction",
                &WireTransaction(transaction),
            ),
            Data::Peer(peer) => serializer.serialize_newtype_variant("Data", 2, "Peer", peer),
            Data::Peers(peers) => {
                serializer.serialize_newtype_variant("Data", 3, "Peers", &WirePeers(peers.entries()))
            }
            Data::Blockchain(blocks) => {
                serializer.serialize_newtype_variant("Data", 4, "Blockchain", &WireBlocks(blocks))
            }
        }
    }
}

fn reference<T: Serialize>(value: &T) -> Vec<u8> {
    bincode::DefaultOptions::new().with_varint_encoding().serialize(value).unwrap()
}

#[test]
fn varint_single_byte_up_to_250() {
    assert_eq!(varint(0), vec![0]);
    assert_eq!(varint(1), vec![1]);
    assert_eq!(varint(250), vec![250]);
}

#[test]
fn varint_two_byte_form_from_251() {
    assert_eq!(varint(251), vec![251, 251, 0]);
    assert_eq!(varint(300), vec![251, 44, 1]);
    assert_eq!(varint(65535), vec![251, 255, 255]);
}

#[test]
fn varint_four_byte_form_from_65536() {
    assert_eq!(varint(65536), vec![252, 0, 0, 1, 0]);
    assert_eq!(varint(0xFFFF_FFFF), vec![252, 255, 255, 255, 255]);
    assert_eq!(varint(0x0102_0304), vec![252, 4, 3, 2, 1]);
}

#[test]
fn varint_eight_byte_form_from_two_to_the_32() {
    assert_eq!(varint(0x1_0000_0000), vec![253, 0, 0, 0, 0, 1, 0, 0, 0]);
    assert_eq!(varint(u64::MAX), vec![253, 255, 255, 255, 255, 255, 255, 255, 255]);
    assert_eq!(varint(0x0102_0304_0506_0708), vec![253, 8, 7, 6, 5, 4, 3, 2, 1]);
}

#[test]
fn varint_matches_the_reference_encoder() {
    for value in [0u64, 1, 250, 251, 252, 65535, 65536, 0xFFFF_FFFF, 0x1_0000_0000, u64::MAX] {
        assert_eq!(varint(value), reference(&value), "value {}", value);
    }
}

#[test]
fn varint_reads_back_what_was_written() {
    for value in [0u64, 250, 251, 65535, 65536, 0xFFFF_FFFF, 0x1_0000_0000, u64::MAX] {
        let mut bytes = vec![7u8, 7];
        write_varint(&mut bytes, value);
        let end = bytes.len();
        bytes.push(99);
        assert_eq!(read_varint(&bytes, 2), Some((value, end)));
    }
}

#[test]
fn varint_read_fails_on_short_input_and_foreign_markers() {
    assert_eq!(read_varint(&[], 0), None);
    assert_eq!(read_varint(&[251, 1], 0), None);
    assert_eq!(read_varint(&[252, 1, 2, 3], 0), None);
    assert_eq!(read_varint(&[253, 1, 2, 3, 4, 5, 6, 7], 0), None);
    assert_eq!(read_varint(&[254, 0, 0, 0, 0, 0, 0, 0, 0, 0, 0, 0, 0, 0, 0, 0, 0], 0), None);
    assert_eq!(read_varint(&[255, 0], 0), None);
    assert_eq!(read_varint(&[5], 1), None);
}

#[test]
fn varint_read_accepts_a_wider_form_than_needed() {
    assert_eq!(read_varint(&[251, 5, 0], 0), Some((5, 3)));
    assert_eq!(read_varint(&[253, 5, 0, 0, 0, 0, 0, 0, 0], 0), Some((5, 9)));
}

#[test]
fn u32_read_rejects_a_number_beyond_32_bits() {
    assert_eq!(read_u32(&[253, 0, 0, 0, 0, 1, 0, 0, 0], 0), None);
    assert_eq!(read_u32(&[252, 255, 255, 255, 255], 0), Some((u32::MAX, 5)));
    let mut out = Vec::new();
    write_u32(&mut out, 70000);
    assert_eq!(out, vec![252, 112, 17, 1, 0]);
}

#[test]
fn signed_integers_are_folded() {
    assert_eq!(signed(0), vec![0]);
    assert_eq!(signed(-1), vec![1]);
    assert_eq!(signed(1), vec![2]);
    assert_eq!(signed(-2), vec![3]);
    assert_eq!(signed(2), vec![4]);
    assert_eq!(signed(125), vec![250]);
    assert_eq!(signed(-126), vec![251, 251, 0]);
    assert_eq!(signed(i64::MIN), vec![253, 255, 255, 255, 255, 255, 255, 255, 255]);
    assert_eq!(signed(i64::MAX), vec![253, 254, 255, 255, 255, 255, 255, 255, 255]);
}

#[test]
fn signed_integers_match_the_reference_encoder_and_read_back() {
    for value in [0i64, -1, 1, -2, 125, -126, 1_700_000_000, -1_700_000_000, i64::MIN, i64::MAX] {
        let bytes = signed(value);
        assert_eq!(bytes, reference(&value), "value {}", value);
        assert_eq!(read_i64(&bytes, 0), Some((value, bytes.len())));
    }
}

#[test]
fn byte_strings_carry_their_length() {
    let mut out = Vec::new();
    write_byte_string(&mut out, &[9, 8, 7]);
    assert_eq!(out, vec![3, 9, 8, 7]);
    assert_eq!(read_byte_string(&out, 0), Some((vec![9, 8, 7], 4)));
    assert_eq!(read_byte_string(&[3, 9, 8], 0), None);
    assert_eq!(read_byte_string(&[0], 0), Some((vec![], 1)));
    let long = vec![1u8; 300];
    let mut out = Vec::new();
    write_byte_string(&mut out, &long);
    assert_eq!(&out[..3], &[251, 44, 1]);
    assert_eq!(out.len(), 303);
    assert_eq!(out, reference(&long));
}

#[test]
fn byte_string_with_a_huge_announced_length_is_rejected() {
    assert_eq!(read_byte_string(&[253, 255, 255, 255, 255, 255, 255, 255, 255, 1, 2], 0), None);
}

#[test]
fn texts_are_utf8_behind_their_length() {
    let mut out = Vec::new();
    write_string(&mut out, &"héllo".to_string());
    assert_eq!(out, vec![6, b'h', 0xC3, 0xA9, b'l', b'l', b'o']);
    assert_eq!(read_string(&out, 0), Some(("héllo".to_string(), 7)));
    assert_eq!(out, reference(&"héllo".to_string()));
}

#[test]
fn text_that_is_not_utf8_is_rejected() {
    assert_eq!(read_string(&[2, 0xC3, 0x28], 0), None);
    assert_eq!(read_string(&[1, 0xFF], 0), None);
    assert_eq!(read_string(&[2, b'o', b'k'], 0), Some(("ok".to_string(), 3)));
}

#[test]
fn optional_byte_strings_carry_a_presence_byte() {
    let mut out = Vec::new();
    write_optional_bytes(&mut out, &None);
    assert_eq!(out, vec![0]);
    let mut out = Vec::new();
    write_optional_bytes(&mut out, &Some(vec![5, 6]));
    assert_eq!(out, vec![1, 2, 5, 6]);
    assert_eq!(read_optional_bytes(&[0], 0), Some((None, 1)));
    assert_eq!(read_optional_bytes(&[1, 2, 5, 6], 0), Some((Some(vec![5, 6]), 4)));
    assert_eq!(read_optional_bytes(&[2, 2, 5, 6], 0), None);
    assert_eq!(read_optional_bytes(&[], 0), None);
    assert_eq!(out, reference(&Some(vec![5u8, 6])));
}

#[test]
fn bytes_equal_compares_contents() {
    assert!(bytes_equal(&[], &[]));
    assert!(bytes_equal(&[1, 2, 3], &[1, 2, 3]));
    assert!(!bytes_equal(&[1, 2, 3], &[1, 2, 4]));
    assert!(!bytes_equal(&[1, 2, 3], &[1, 2]));
}

#[test]
fn command_forms_are_tag_then_fields() {
    assert_eq!(serialize_command(&create_account("ab")), vec![0, 2, b'a', b'b']);
    assert_eq!(serialize_command(&add_funds(7, 300, "X")), vec![1, 7, 251, 44, 1, 1, b'X']);
    assert_eq!(serialize_command(&transfer(1, 2, 3, "X")), vec![2, 1, 2, 3, 1, b'X']);
}

#[test]
fn commands_match_the_reference_encoder() {
    for command in [create_account("pk-1"), add_funds(1, 4_000_000_000, "NATIVE"), transfer(4, 5, 6, "")] {
        assert_eq!(serialize_command(&command), reference(&WireCommand(&command)));
    }
}

#[test]
fn command_round_trip() {
    for command in [create_account("pk-1"), add_funds(1, 4_000_000_000, "NATIVE"), transfer(4, 5, 6, "")] {
        let bytes = serialize_command(&command);
        let back = deserialize_command(&bytes).unwrap();
        assert_eq!(show(&back), show(&command));
    }
}

#[test]
fn command_with_unknown_tag_is_rejected() {
    assert_eq!(deserialize_command(&[3, 0]).unwrap_err(), LedgerError::DeserializationError);
    assert_eq!(deserialize_command(&[]).unwrap_err(), LedgerError::DeserializationError);
}

#[test]
fn command_with_trailing_bytes_is_rejected() {
    let mut bytes = serialize_command(&create_account("ab"));
    bytes.push(0);
    assert_eq!(deserialize_command(&bytes).unwrap_err(), LedgerError::DeserializationError);
}

#[test]
fn transaction_form_is_fee_then_commands() {
    let transaction = Transaction { fee: 1, commands: vec![create_account("a"), create_account("b")] };
    assert_eq!(serialize_transaction(&transaction), vec![1, 2, 0, 1, b'a', 0, 1, b'b']);
    let empty = Transaction { fee: 300, commands: vec![] };
    assert_eq!(serialize_transaction(&empty), vec![251, 44, 1, 0]);
}

#[test]
fn transaction_matches_the_reference_encoder_and_round_trips() {
    let transaction = sample_transaction();
    let bytes = serialize_transaction(&transaction);
    assert_eq!(bytes, reference(&WireTransaction(&transaction)));
    let back = deserialize_transaction(&bytes).unwrap();
    assert_eq!(show(&back), show(&transaction));
}

#[test]
fn transaction_that_announces_more_commands_than_it_holds_is_rejected() {
    assert_eq!(
        deserialize_transaction(&[1, 2, 0, 1, b'a']).unwrap_err(),
        LedgerError::DeserializationError
    );
    assert_eq!(
        deserialize_transaction(&[1, 253, 255, 255, 255, 255, 255, 255, 255, 255]).unwrap_err(),
        LedgerError::DeserializationError
    );
}

#[test]
fn block_form_is_its_fields_in_order() {
    let block = Block {
        id: 1,
        timestamp: 2,
        nonce: 3,
        signature: vec![4],
        hash: vec![5, 6],
        previous_block_hash: None,
        transactions: vec![],
    };
    assert_eq!(serialize_block(&block), vec![1, 4, 3, 1, 4, 2, 5, 6, 0, 0]);
}

#[test]
fn block_matches_the_reference_encoder_and_round_trips() {
    let block = sample_block();
    let bytes = serialize_block(&block);
    assert_eq!(bytes, reference(&WireBlock(&block)));
    let back = deserialize_block(&bytes).unwrap();
    assert_eq!(show(&back), show(&block));
}

#[test]
fn default_block_round_trips() {
    let block = Block::default();
    let bytes = serialize_block(&block);
    assert_eq!(bytes, vec![0, 0, 0, 0, 0, 0, 0]);
    assert_eq!(show(&deserialize_block(&bytes).unwrap()), show(&block));
}

#[test]
fn truncated_block_is_rejected_at_every_length() {
    let bytes = serialize_block(&sample_block());
    for end in 0..bytes.len() {
        assert_eq!(
            deserialize_block(&bytes[..end]).unwrap_err(),
            LedgerError::DeserializationError,
            "prefix of {} bytes",
            end
        );
    }
}

#[test]
fn data_forms_start_with_the_position_of_the_variant() {
    let peer = Data::Peer("p".to_string());
    assert_eq!(serialize_data(&peer), vec![2, 1, b'p']);
    let chain = Data::Blockchain(vec![]);
    assert_eq!(serialize_data(&chain), vec![4, 0]);
    let peers = Data::Peers(peers_of(&[("a", "b")]));
    assert_eq!(serialize_data(&peers), vec![3, 1, 1, b'a', 1, b'b']);
    let transaction = Data::Transaction(Transaction { fee: 9, commands: vec![] });
    assert_eq!(serialize_data(&transaction), vec![1, 9, 0]);
    let block = Data::Block(Block::default());
    assert_eq!(serialize_data(&block), vec![0, 0, 0, 0, 0, 0, 0, 0]);
}

#[test]
fn data_matches_the_reference_encoder_and_round_trips() {
    let values = vec![
        Data::Block(sample_block()),
        Data::Transaction(sample_transaction()),
        Data::Peer("127.0.0.1:1234".to_string()),
        Data::Peers(peers_of(&[("1", "127.0.0.1:1234"), ("2", "127.0.0.1:1235")])),
        Data::Blockchain(vec![sample_block(), Block::default()]),
    ];
    for data in values.iter() {
        let bytes = serialize_data(data);
        assert_eq!(bytes, reference(&WireData(data)));
        let back = deserialize_data(&bytes).unwrap();
        assert_eq!(show(&back), show(data));
        assert_eq!(back.data_type(), data.data_type());
    }
}

#[test]
fn data_with_unknown_variant_is_rejected() {
    assert_eq!(deserialize_data(&[5, 0]).unwrap_err(), LedgerError::DeserializationError);
    assert_eq!(deserialize_data(&[4, 0, 0]).unwrap_err(), LedgerError::DeserializationError);
}

#[test]
fn bare_payloads_round_trip() {
    let peer = "127.0.0.1:1236".to_string();
    assert_eq!(deserialize_peer(&serialize_peer(&peer)).unwrap(), peer);
    let peers = peers_of(&[("k", "v"), ("l", "v")]);
    assert_eq!(deserialize_peers(&serialize_peers(&peers)).unwrap().entries(), peers.entries());
    assert_eq!(serialize_peers(&peers), reference(&WirePeers(peers.entries())));
    let chain = vec![sample_block(), sample_block()];
    let bytes = serialize_blockchain(&chain);
    assert_eq!(bytes, reference(&WireBlocks(&chain)));
    assert_eq!(show(&deserialize_blockchain(&bytes).unwrap()), show(&chain));
    assert_eq!(deserialize_peer(&[1]).unwrap_err(), LedgerError::DeserializationError);
    assert_eq!(deserialize_peers(&[1, 1, b'a']).unwrap_err(), LedgerError::DeserializationError);
    assert_eq!(deserialize_blockchain(&[1]).unwrap_err(), LedgerError::DeserializationError);
}

#[test]
fn data_kinds_are_numbered_from_one() {
    assert_eq!(Data::Block(Block::default()).data_type(), 1);
    assert_eq!(Data::Transaction(Transaction { fee: 0, commands: vec![] }).data_type(), 2);
    assert_eq!(Data::Peer(String::new()).data_type(), 3);
    assert_eq!(Data::Peers(Peers::new()).data_type(), 4);
    assert_eq!(Data::Blockchain(vec![]).data_type(), 5);
}

#[test]
fn clones_say_the_same() {
    let block = sample_block();
    assert_eq!(show(&block.clone()), show(&block));
    let data = Data::Peers(peers_of(&[("a", "b")]));
    assert_eq!(show(&data.clone()), show(&data));
}

#[test]
fn a_list_of_peers_holds_each_key_once() {
    let pairs = vec![
        ("1".to_string(), "127.0.0.1:1234".to_string()),
        ("2".to_string(), "127.0.0.1:1235".to_string()),
        ("3".to_string(), "127.0.0.1:1234".to_string()),
    ];
    let peers = Peers::from_pairs(pairs.clone()).unwrap();
    assert_eq!(peers.entries(), &pairs);
    assert_eq!(peers.len(), 3);
    assert_eq!(peers.get(&"2".to_string()), Some(&"127.0.0.1:1235".to_string()));
    assert_eq!(peers.get(&"3".to_string()), Some(&"127.0.0.1:1234".to_string()));
    assert_eq!(peers.get(&"4".to_string()), None);
    assert_eq!(peers.clone().entries(), &pairs);
    assert_eq!(Peers::new().len(), 0);
    assert!(Peers::from_pairs(vec![]).is_some());
    let twice = vec![
        ("1".to_string(), "a".to_string()),
        ("2".to_string(), "b".to_string()),
        ("1".to_string(), "c".to_string()),
    ];
    assert!(Peers::from_pairs(twice).is_none());
    let same = vec![("1".to_string(), "a".to_string()), ("1".to_string(), "a".to_string())];
    assert!(Peers::from_pairs(same).is_none());
}

#[test]
fn bytes_in_which_a_key_stands_twice_are_no_list_of_peers() {
    let once = [2, 1, b'k', 1, b'v', 1, b'l', 1, b'w'];
    assert_eq!(deserialize_peers(&once).unwrap().len(), 2);
    let twice = [2, 1, b'k', 1, b'v', 1, b'k', 1, b'w'];
    assert_eq!(deserialize_peers(&twice).unwrap_err(), LedgerError::DeserializationError);
    let mut data = vec![3u8];
    data.extend_from_slice(&twice);
    assert_eq!(deserialize_data(&data).unwrap_err(), LedgerError::DeserializationError);
    let mut data = vec![3u8];
    data.extend_from_slice(&once);
    assert_eq!(deserialize_data(&data).unwrap().data_type(), 4);
}
