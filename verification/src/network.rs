//! The values that travel between the actors of a node and between nodes,
//! and their canonical bytes.

use crate::codec::{
    all_encodable, decoded, decoded_sequence, decoded_text, items_bytes, lemma_concat_assoc,
    lemma_decode_encode, lemma_decode_encode_sequence, lemma_decode_encode_text,
    lemma_items_bytes_push, lemma_parse_items_stays_none, lemma_parse_sequence_bounds,
    lemma_parse_string_bounds, lemma_parse_u32_bounds, lemma_sequence_roundtrip,
    lemma_skip_concat, lemma_skip_skip, lemma_string_roundtrip, lemma_u32_roundtrip, parse_items,
    parse_sequence, parse_string, parse_u32, parse_varint, read_string, read_u32, read_varint,
    sequence_bytes, string_bytes, u32_bytes, whole, write_string, write_u32, write_varint, Wire,
};
use crate::errors::LedgerError;
use crate::state::{
    blocks_view, clone_blocks, Block, BlockView, Transaction, TransactionView,
};
use crate::wire::{
    read_block, read_blocks, read_transaction, write_block, write_blocks, write_transaction,
};
use vstd::prelude::*;
use vstd::utf8::*;

verus! {

/// A peer as the peer list names it: a key and the address filed under it.
pub type PeerEntryView = (Seq<char>, Seq<char>);

/// Everything that is passed around: a block, a transaction, the address of
/// one peer, a list of peers, or a stretch of the chain.
#[derive(Debug)]
pub enum Data {
    Block(Block),
    Transaction(Transaction),
    Peer(String),
    Peers(Peers),
    Blockchain(Vec<Block>),
}

/// What a [`Data`] says.
pub enum DataView {
    Block(BlockView),
    Transaction(TransactionView),
    Peer(Seq<char>),
    Peers(Seq<PeerEntryView>),
    Blockchain(Seq<BlockView>),
}

/// The views of a list of peers, in order.
pub open spec fn peers_view(peers: Seq<(String, String)>) -> Seq<PeerEntryView> {
    peers.map_values(|peer: (String, String)| (peer.0@, peer.1@))
}

impl View for Data {
    type V = DataView;

    open spec fn view(&self) -> DataView {
        match *self {
            Data::Block(block) => DataView::Block(block@),
            Data::Transaction(transaction) => DataView::Transaction(transaction@),
            Data::Peer(peer) => DataView::Peer(peer@),
            Data::Peers(peers) => DataView::Peers(peers@),
            Data::Blockchain(blocks) => DataView::Blockchain(blocks_view(blocks@)),
        }
    }
}

impl DataView {
    /// The kind of the value as a number from 1 to 5.
    pub open spec fn data_type(self) -> u8 {
        match self {
            DataView::Block(_) => 1,
            DataView::Transaction(_) => 2,
            DataView::Peer(_) => 3,
            DataView::Peers(_) => 4,
            DataView::Blockchain(_) => 5,
        }
    }
}

/// No key stands twice in the list.
pub open spec fn distinct_keys(peers: Seq<PeerEntryView>) -> bool {
    forall|i: int, j: int| 0 <= i < j < peers.len() ==> peers[i].0 != peers[j].0
}

/// A list of peers: a mapping from keys to addresses, kept in the order in
/// which it is written on the wire. No key stands twice in it.
#[derive(Debug)]
pub struct Peers {
    entries: Vec<(String, String)>,
}

impl View for Peers {
    type V = Seq<PeerEntryView>;

    /// The entries in their order, each as key and address.
    closed spec fn view(&self) -> Seq<PeerEntryView> {
        peers_view(self.entries@)
    }
}

impl Peers {
    /// No key stands twice.
    #[verifier::type_invariant]
    closed spec fn keys_are_distinct(&self) -> bool {
        distinct_keys(peers_view(self.entries@))
    }

    /// The empty list.
    pub fn new() -> (peers: Peers)
        ensures
            peers@ == Seq::<PeerEntryView>::empty(),
    {
        let entries: Vec<(String, String)> = Vec::new();
        assert(peers_view(entries@) =~= Seq::empty());
        Peers { entries }
    }

    /// The list that holds the given pairs of key and address in their
    /// order; `None` where a key stands twice among them.
    pub fn from_pairs(pairs: Vec<(String, String)>) -> (peers: Option<Peers>)
        ensures
            match peers {
                Some(list) => distinct_keys(peers_view(pairs@)) && list@ == peers_view(pairs@),
                None => !distinct_keys(peers_view(pairs@)),
            },
    {
        let ghost view = peers_view(pairs@);
        let mut j: usize = 0;
        while j < pairs.len()
            invariant
                j <= pairs.len(),
                view == peers_view(pairs@),
                forall|a: int, b: int| 0 <= a < b < j ==> view[a].0 != view[b].0,
            decreases pairs.len() - j,
        {
            let mut i: usize = 0;
            while i < j
                invariant
                    i <= j < pairs.len(),
                    view == peers_view(pairs@),
                    forall|a: int| 0 <= a < i ==> view[a].0 != view[j as int].0,
                decreases j - i,
            {
                if pairs[i].0 == pairs[j].0 {
                    assert(view[i as int].0 == view[j as int].0);
                    return None;
                }
                i += 1;
            }
            j += 1;
        }
        Some(Peers { entries: pairs })
    }

    /// The pairs of key and address in their order. No key stands twice
    /// among them.
    pub fn entries(&self) -> (pairs: &Vec<(String, String)>)
        ensures
            peers_view(pairs@) == self@,
            distinct_keys(self@),
    {
        proof {
            use_type_invariant(self);
        }
        &self.entries
    }

    /// The number of peers.
    pub fn len(&self) -> (count: usize)
        ensures
            count == self@.len(),
    {
        self.entries.len()
    }

    /// The address filed under `key`, if there is one.
    pub fn get(&self, key: &String) -> (address: Option<&String>)
        ensures
            match address {
                Some(found) => exists|i: int|
                    0 <= i < self@.len() && (#[trigger] self@[i]).0 == key@ && self@[i].1
                        == found@,
                None => forall|i: int| 0 <= i < self@.len() ==> (#[trigger] self@[i]).0 != key@,
            },
    {
        let mut i: usize = 0;
        while i < self.entries.len()
            invariant
                i <= self.entries@.len(),
                forall|a: int| 0 <= a < i ==> (#[trigger] self@[a]).0 != key@,
            decreases self.entries.len() - i,
        {
            if self.entries[i].0 == *key {
                assert(self@[i as int].0 == key@ && self@[i as int].1 == self.entries@[i as int].1@);
                return Some(&self.entries[i].1);
            }
            i += 1;
        }
        None
    }
}

impl Clone for Peers {
    fn clone(&self) -> (copy: Peers)
        ensures
            copy@ == self@,
    {
        proof {
            use_type_invariant(self);
        }
        Peers { entries: clone_pairs(&self.entries) }
    }
}

/// Copies a list of pairs.
fn clone_pairs(peers: &Vec<(String, String)>) -> (copy: Vec<(String, String)>)
    ensures
        peers_view(copy@) == peers_view(peers@),
{
    let mut copy: Vec<(String, String)> = Vec::new();
    let mut i: usize = 0;
    while i < peers.len()
        invariant
            i <= peers.len(),
            copy.len() == i,
            forall|j: int|
                0 <= j < i ==> copy@[j].0@ == peers@[j].0@ && copy@[j].1@ == peers@[j].1@,
        decreases peers.len() - i,
    {
        copy.push((peers[i].0.clone(), peers[i].1.clone()));
        i += 1;
    }
    assert(peers_view(copy@) =~= peers_view(peers@));
    copy
}

impl Clone for Data {
    fn clone(&self) -> (copy: Data)
        ensures
            copy@ == self@,
    {
        match self {
            Data::Block(block) => Data::Block(block.clone()),
            Data::Transaction(transaction) => Data::Transaction(transaction.clone()),
            Data::Peer(peer) => Data::Peer(peer.clone()),
            Data::Peers(peers) => Data::Peers(peers.clone()),
            Data::Blockchain(blocks) => Data::Blockchain(clone_blocks(blocks)),
        }
    }
}

impl Data {
    /// The kind of the value as a number: 1 for a block, 2 for a
    /// transaction, 3 for a peer, 4 for a list of peers, 5 for a stretch of
    /// the chain.
    pub fn data_type(&self) -> (kind: u8)
        ensures
            kind == self@.data_type(),
            1 <= kind <= 5,
    {
        match self {
            Data::Block(_) => 1,
            Data::Transaction(_) => 2,
            Data::Peer(_) => 3,
            Data::Peers(_) => 4,
            Data::Blockchain(_) => 5,
        }
    }
}

impl Wire for PeerEntryView {
    open spec fn encodable(self) -> bool {
        encode_utf8(self.0).len() <= u64::MAX && encode_utf8(self.1).len() <= u64::MAX
    }

    open spec fn form(self) -> Seq<u8> {
        string_bytes(self.0) + string_bytes(self.1)
    }

    open spec fn parse(input: Seq<u8>) -> Option<(PeerEntryView, int)> {
        match parse_string(input) {
            Some((key, n0)) => match parse_string(input.skip(n0)) {
                Some((address, n1)) => Some(((key, address), n0 + n1)),
                None => None,
            },
            None => None,
        }
    }

    proof fn lemma_parse_bounds(input: Seq<u8>) {
        lemma_parse_string_bounds(input);
        if let Some((_, n0)) = parse_string(input) {
            lemma_parse_string_bounds(input.skip(n0));
        }
    }

    proof fn lemma_roundtrip(self, rest: Seq<u8>) {
        let input = self.form() + rest;
        let a0 = string_bytes(self.0);
        let a1 = string_bytes(self.1);
        let r0 = a1 + rest;
        assert(input == a0 + r0) by {
            lemma_concat_assoc(a0, a1, rest);
        }
        assert(parse_string(input) == Some((self.0, a0.len() as int))) by {
            lemma_string_roundtrip(self.0, r0);
        }
        assert(input.skip(a0.len() as int) == r0) by {
            lemma_skip_concat(a0, r0);
        }
        assert(parse_string(r0) == Some((self.1, a1.len() as int))) by {
            lemma_string_roundtrip(self.1, rest);
        }
    }
}

/// The list of peers at the front of `input`: a sequence of pairs in which
/// no key stands twice.
pub open spec fn parse_peers(input: Seq<u8>) -> Option<(Seq<PeerEntryView>, int)> {
    match parse_sequence::<PeerEntryView>(input) {
        Some((peers, taken)) => if distinct_keys(peers) {
            Some((peers, taken))
        } else {
            None
        },
        None => None,
    }
}

/// The list of peers that `bytes` stand for as a whole.
pub open spec fn decoded_peers(bytes: Seq<u8>) -> Option<Seq<PeerEntryView>> {
    whole(parse_peers(bytes), bytes.len())
}

/// Decoding the form of a list of peers gives the list back.
pub proof fn lemma_decode_encode_peers(peers: Seq<PeerEntryView>)
    requires
        all_encodable(peers),
        distinct_keys(peers),
    ensures
        decoded_peers(sequence_bytes(peers)) == Some(peers),
{
    lemma_decode_encode_sequence(peers);
}

/// Appends the form of a list of peers to `out`.
pub fn write_peers(out: &mut Vec<u8>, peers: &Peers)
    ensures
        final(out)@ == old(out)@ + sequence_bytes(peers@),
        all_encodable(peers@),
        distinct_keys(peers@),
{
    write_pairs(out, peers.entries());
}

/// Reads the list of peers that starts at `pos`.
pub fn read_peers(input: &[u8], pos: usize) -> (result: Option<(Peers, usize)>)
    requires
        pos <= input.len(),
    ensures
        match parse_peers(input@.skip(pos as int)) {
            Some((peers, taken)) => result matches Some((read, next)) && read@ == peers && next
                == pos + taken && 1 <= taken && next <= input.len(),
            None => result is None,
        },
{
    let (pairs, next) = match read_pairs(input, pos) {
        Some(found) => found,
        None => return None,
    };
    match Peers::from_pairs(pairs) {
        Some(peers) => Some((peers, next)),
        None => None,
    }
}

/// Appends the form of a list of pairs to `out`.
fn write_pairs(out: &mut Vec<u8>, peers: &Vec<(String, String)>)
    ensures
        final(out)@ == old(out)@ + sequence_bytes(peers_view(peers@)),
        all_encodable(peers_view(peers@)),
{
    let ghost before = out@;
    let ghost view = peers_view(peers@);
    write_varint(out, peers.len() as u64);
    let ghost headed = out@;
    let mut i: usize = 0;
    assert(view.take(0) =~= Seq::empty());
    while i < peers.len()
        invariant
            i <= peers.len(),
            view == peers_view(peers@),
            out@ == headed + items_bytes(view.take(i as int)),
            forall|j: int| 0 <= j < i ==> (#[trigger] view[j]).encodable(),
        decreases peers.len() - i,
    {
        let ghost written = out@;
        write_string(out, &peers[i].0);
        write_string(out, &peers[i].1);
        proof {
            assert(out@ =~= written + view[i as int].form());
            lemma_items_bytes_push(view.take(i as int), view[i as int]);
            assert(view.take(i + 1) =~= view.take(i as int).push(view[i as int]));
            assert(out@ =~= headed + items_bytes(view.take(i + 1)));
        }
        i += 1;
    }
    assert(view.take(peers.len() as int) =~= view);
    assert(out@ =~= before + sequence_bytes(view));
}

/// Reads the peer that starts at `pos`.
fn read_peer_entry(input: &[u8], pos: usize) -> (result: Option<((String, String), usize)>)
    requires
        pos <= input.len(),
    ensures
        match PeerEntryView::parse(input@.skip(pos as int)) {
            Some((peer, taken)) => result matches Some((read, next)) && (read.0@, read.1@) == peer
                && next == pos + taken && 1 <= taken && next <= input.len(),
            None => result is None,
        },
{
    let (key, mark0) = match read_string(input, pos) {
        Some(found) => found,
        None => return None,
    };
    proof {
        lemma_skip_skip(input@, pos as int, mark0 - pos);
    }
    let (address, mark1) = match read_string(input, mark0) {
        Some(found) => found,
        None => return None,
    };
    Some(((key, address), mark1))
}

/// Reads the list of pairs that starts at `pos`.
fn read_pairs(input: &[u8], pos: usize) -> (result: Option<(Vec<(String, String)>, usize)>)
    requires
        pos <= input.len(),
    ensures
        match parse_sequence::<PeerEntryView>(input@.skip(pos as int)) {
            Some((peers, taken)) => result matches Some((read, next)) && peers_view(read@)
                == peers && next == pos + taken && 1 <= taken && next <= input.len(),
            None => result is None,
        },
{
    let (count, start) = match read_varint(input, pos) {
        Some(found) => found,
        None => return None,
    };
    let ghost base = input@.skip(start as int);
    proof {
        lemma_skip_skip(input@, pos as int, start - pos);
    }
    let mut read: Vec<(String, String)> = Vec::new();
    let mut next: usize = start;
    let mut i: u64 = 0;
    assert(peers_view(read@) =~= Seq::empty());
    while i < count
        invariant
            i <= count,
            pos <= start <= next <= input.len(),
            base == input@.skip(start as int),
            base == input@.skip(pos as int).skip(start - pos),
            parse_varint(input@.skip(pos as int)) == Some((count, start - pos)),
            parse_items::<PeerEntryView>(base, i as nat) == Some((peers_view(read@), next - start)),
        decreases count - i,
    {
        proof {
            lemma_skip_skip(input@, start as int, next - start);
        }
        match read_peer_entry(input, next) {
            Some((peer, after)) => {
                assert(peers_view(read@.push(peer)) =~= peers_view(read@).push(
                    (peer.0@, peer.1@),
                ));
                read.push(peer);
                next = after;
            },
            None => {
                proof {
                    lemma_parse_items_stays_none::<PeerEntryView>(
                        base,
                        (i + 1) as nat,
                        count as nat,
                    );
                }
                return None;
            },
        }
        i += 1;
    }
    Some((read, next))
}

impl Wire for DataView {
    open spec fn encodable(self) -> bool {
        match self {
            DataView::Block(block) => block.encodable(),
            DataView::Transaction(transaction) => transaction.encodable(),
            DataView::Peer(peer) => encode_utf8(peer).len() <= u64::MAX,
            DataView::Peers(peers) => all_encodable(peers) && distinct_keys(peers),
            DataView::Blockchain(blocks) => all_encodable(blocks),
        }
    }

    open spec fn form(self) -> Seq<u8> {
        match self {
            DataView::Block(block) => u32_bytes(0) + block.form(),
            DataView::Transaction(transaction) => u32_bytes(1) + transaction.form(),
            DataView::Peer(peer) => u32_bytes(2) + string_bytes(peer),
            DataView::Peers(peers) => u32_bytes(3) + sequence_bytes(peers),
            DataView::Blockchain(blocks) => u32_bytes(4) + sequence_bytes(blocks),
        }
    }

    open spec fn parse(input: Seq<u8>) -> Option<(DataView, int)> {
        match parse_u32(input) {
            Some((tag, n0)) => {
                if tag == 0 {
                    match BlockView::parse(input.skip(n0)) {
                        Some((block, n1)) => Some((DataView::Block(block), n0 + n1)),
                        None => None,
                    }
                } else if tag == 1 {
                    match TransactionView::parse(input.skip(n0)) {
                        Some((transaction, n1)) => Some(
                            (DataView::Transaction(transaction), n0 + n1),
                        ),
                        None => None,
                    }
                } else if tag == 2 {
                    match parse_string(input.skip(n0)) {
                        Some((peer, n1)) => Some((DataView::Peer(peer), n0 + n1)),
                        None => None,
                    }
                } else if tag == 3 {
                    match parse_peers(input.skip(n0)) {
                        Some((peers, n1)) => Some((DataView::Peers(peers), n0 + n1)),
                        None => None,
                    }
                } else if tag == 4 {
                    match parse_sequence::<BlockView>(input.skip(n0)) {
                        Some((blocks, n1)) => Some((DataView::Blockchain(blocks), n0 + n1)),
                        None => None,
                    }
                } else {
                    None
                }
            },
            None => None,
        }
    }

    proof fn lemma_parse_bounds(input: Seq<u8>) {
        lemma_parse_u32_bounds(input);
        if let Some((_, n0)) = parse_u32(input) {
            let rest = input.skip(n0);
            BlockView::lemma_parse_bounds(rest);
            TransactionView::lemma_parse_bounds(rest);
            lemma_parse_string_bounds(rest);
            lemma_parse_sequence_bounds::<PeerEntryView>(rest);
            lemma_parse_sequence_bounds::<BlockView>(rest);
        }
    }

    proof fn lemma_roundtrip(self, rest: Seq<u8>) {
        let input = self.form() + rest;
        match self {
            DataView::Block(block) => {
                let r0 = block.form() + rest;
                lemma_concat_assoc(u32_bytes(0), block.form(), rest);
                lemma_u32_roundtrip(0, r0);
                lemma_skip_concat(u32_bytes(0), r0);
                block.lemma_roundtrip(rest);
            },
            DataView::Transaction(transaction) => {
                let r0 = transaction.form() + rest;
                lemma_concat_assoc(u32_bytes(1), transaction.form(), rest);
                lemma_u32_roundtrip(1, r0);
                lemma_skip_concat(u32_bytes(1), r0);
                transaction.lemma_roundtrip(rest);
            },
            DataView::Peer(peer) => {
                let r0 = string_bytes(peer) + rest;
                lemma_concat_assoc(u32_bytes(2), string_bytes(peer), rest);
                lemma_u32_roundtrip(2, r0);
                lemma_skip_concat(u32_bytes(2), r0);
                lemma_string_roundtrip(peer, rest);
            },
            DataView::Peers(peers) => {
                let r0 = sequence_bytes(peers) + rest;
                lemma_concat_assoc(u32_bytes(3), sequence_bytes(peers), rest);
                lemma_u32_roundtrip(3, r0);
                lemma_skip_concat(u32_bytes(3), r0);
                lemma_sequence_roundtrip::<PeerEntryView>(peers, rest);
            },
            DataView::Blockchain(blocks) => {
                let r0 = sequence_bytes(blocks) + rest;
                lemma_concat_assoc(u32_bytes(4), sequence_bytes(blocks), rest);
                lemma_u32_roundtrip(4, r0);
                lemma_skip_concat(u32_bytes(4), r0);
                lemma_sequence_roundtrip::<BlockView>(blocks, rest);
            },
        }
    }
}

/// Appends the form of a value to `out`.
pub fn write_data(out: &mut Vec<u8>, data: &Data)
    ensures
        final(out)@ == old(out)@ + data@.form(),
        data@.encodable(),
{
    let ghost before = out@;
    match data {
        Data::Block(block) => {
            write_u32(out, 0);
            write_block(out, block);
        },
        Data::Transaction(transaction) => {
            write_u32(out, 1);
            write_transaction(out, transaction);
        },
        Data::Peer(peer) => {
            write_u32(out, 2);
            write_string(out, peer);
        },
        Data::Peers(peers) => {
            write_u32(out, 3);
            write_peers(out, peers);
        },
        Data::Blockchain(blocks) => {
            write_u32(out, 4);
            write_blocks(out, blocks);
        },
    }
    assert(out@ =~= before + data@.form());
}

/// Reads the value that starts at `pos`.
pub fn read_data(input: &[u8], pos: usize) -> (result: Option<(Data, usize)>)
    requires
        pos <= input.len(),
    ensures
        match DataView::parse(input@.skip(pos as int)) {
            Some((data, taken)) => result matches Some((read, next)) && read@ == data && next
                == pos + taken && 1 <= taken && next <= input.len(),
            None => result is None,
        },
{
    let (tag, mark0) = match read_u32(input, pos) {
        Some(found) => found,
        None => return None,
    };
    proof {
        lemma_skip_skip(input@, pos as int, mark0 - pos);
    }
    if tag == 0 {
        match read_block(input, mark0) {
            Some((block, next)) => Some((Data::Block(block), next)),
            None => None,
        }
    } else if tag == 1 {
        match read_transaction(input, mark0) {
            Some((transaction, next)) => Some((Data::Transaction(transaction), next)),
            None => None,
        }
    } else if tag == 2 {
        match read_string(input, mark0) {
            Some((peer, next)) => Some((Data::Peer(peer), next)),
            None => None,
        }
    } else if tag == 3 {
        match read_peers(input, mark0) {
            Some((peers, next)) => Some((Data::Peers(peers), next)),
            None => None,
        }
    } else if tag == 4 {
        match read_blocks(input, mark0) {
            Some((blocks, next)) => Some((Data::Blockchain(blocks), next)),
            None => None,
        }
    } else {
        None
    }
}

/// The canonical bytes of a value.
pub fn serialize_data(data: &Data) -> (bytes: Vec<u8>)
    ensures
        bytes@ == data@.form(),
        data@.encodable(),
        decoded::<DataView>(bytes@) == Some(data@),
{
    let mut bytes: Vec<u8> = Vec::new();
    write_data(&mut bytes, data);
    proof {
        assert(bytes@ =~= data@.form());
        lemma_decode_encode(data@);
    }
    bytes
}

/// The value that `bytes` stand for, or `DeserializationError` where they
/// stand for none.
pub fn deserialize_data(bytes: &[u8]) -> (result: Result<Data, LedgerError>)
    ensures
        match decoded::<DataView>(bytes@) {
            Some(data) => result matches Ok(read) && read@ == data,
            None => result matches Err(error) && error == LedgerError::DeserializationError,
        },
{
    assert(bytes@.skip(0) =~= bytes@);
    match read_data(bytes, 0) {
        Some((data, next)) => {
            if next == bytes.len() {
                Ok(data)
            } else {
                Err(LedgerError::DeserializationError)
            }
        },
        None => Err(LedgerError::DeserializationError),
    }
}

/// The canonical bytes of the address of a peer.
pub fn serialize_peer(peer: &String) -> (bytes: Vec<u8>)
    ensures
        bytes@ == string_bytes(peer@),
        encode_utf8(peer@).len() <= u64::MAX,
        decoded_text(bytes@) == Some(peer@),
{
    let mut bytes: Vec<u8> = Vec::new();
    write_string(&mut bytes, peer);
    proof {
        assert(bytes@ =~= string_bytes(peer@));
        lemma_decode_encode_text(peer@);
    }
    bytes
}

/// The address that `bytes` stand for, or `DeserializationError`.
pub fn deserialize_peer(bytes: &[u8]) -> (result: Result<String, LedgerError>)
    ensures
        match decoded_text(bytes@) {
            Some(peer) => result matches Ok(read) && read@ == peer,
            None => result matches Err(error) && error == LedgerError::DeserializationError,
        },
{
    assert(bytes@.skip(0) =~= bytes@);
    match read_string(bytes, 0) {
        Some((peer, next)) => {
            if next == bytes.len() {
                Ok(peer)
            } else {
                Err(LedgerError::DeserializationError)
            }
        },
        None => Err(LedgerError::DeserializationError),
    }
}

/// The canonical bytes of a list of peers.
pub fn serialize_peers(peers: &Peers) -> (bytes: Vec<u8>)
    ensures
        bytes@ == sequence_bytes(peers@),
        all_encodable(peers@),
        distinct_keys(peers@),
        decoded_peers(bytes@) == Some(peers@),
{
    let mut bytes: Vec<u8> = Vec::new();
    write_peers(&mut bytes, peers);
    proof {
        assert(bytes@ =~= sequence_bytes(peers@));
        lemma_decode_encode_peers(peers@);
    }
    bytes
}

/// The list of peers that `bytes` stand for, or `DeserializationError`
/// where they stand for none: a list in which a key stands twice is none.
pub fn deserialize_peers(bytes: &[u8]) -> (result: Result<Peers, LedgerError>)
    ensures
        match decoded_peers(bytes@) {
            Some(peers) => result matches Ok(read) && read@ == peers,
            None => result matches Err(error) && error == LedgerError::DeserializationError,
        },
{
    assert(bytes@.skip(0) =~= bytes@);
    match read_peers(bytes, 0) {
        Some((peers, next)) => {
            if next == bytes.len() {
                Ok(peers)
            } else {
                Err(LedgerError::DeserializationError)
            }
        },
        None => Err(LedgerError::DeserializationError),
    }
}

/// The canonical bytes of a stretch of the chain.
pub fn serialize_blockchain(blocks: &Vec<Block>) -> (bytes: Vec<u8>)
    ensures
        bytes@ == sequence_bytes(blocks_view(blocks@)),
        all_encodable(blocks_view(blocks@)),
        decoded_sequence::<BlockView>(bytes@) == Some(blocks_view(blocks@)),
{
    let mut bytes: Vec<u8> = Vec::new();
    write_blocks(&mut bytes, blocks);
    proof {
        assert(bytes@ =~= sequence_bytes(blocks_view(blocks@)));
        lemma_decode_encode_sequence(blocks_view(blocks@));
    }
    bytes
}

/// The stretch of the chain that `bytes` stand for, or `DeserializationError`.
pub fn deserialize_blockchain(bytes: &[u8]) -> (result: Result<Vec<Block>, LedgerError>)
    ensures
        match decoded_sequence::<BlockView>(bytes@) {
            Some(blocks) => result matches Ok(read) && blocks_view(read@) == blocks,
            None => result matches Err(error) && error == LedgerError::DeserializationError,
        },
{
    assert(bytes@.skip(0) =~= bytes@);
    match read_blocks(bytes, 0) {
        Some((blocks, next)) => {
            if next == bytes.len() {
                Ok(blocks)
            } else {
                Err(LedgerError::DeserializationError)
            }
        },
        None => Err(LedgerError::DeserializationError),
    }
}

} // verus!
