//! How the values of the ledger read as text, for logs and for people.

use crate::network::{peers_view, Data, DataView, PeerEntryView};
use crate::state::{
    blocks_view, commands_view, transactions_view, Block, BlockView, Command, CommandView,
    Transaction, TransactionView,
};
use crate::utils::{decimals, digit, digit_text, print_bytes};
use vstd::prelude::*;
use vstd::string::StringExecFns;

verus! {

/// A natural number in decimal.
pub open spec fn digits(value: nat) -> Seq<char>
    decreases value,
{
    if value < 10 {
        seq![digit(value as int)]
    } else {
        digits(value / 10).push(digit((value % 10) as int))
    }
}

/// An integer in decimal, with a minus sign in front of a negative one.
pub open spec fn signed_digits(value: int) -> Seq<char> {
    if value < 0 {
        seq!['-'] + digits((-value) as nat)
    } else {
        digits(value as nat)
    }
}

/// The digits of a list of numbers below ten, last number first.
pub open spec fn digits_backwards(low_first: Seq<u8>) -> Seq<char> {
    Seq::new(low_first.len(), |i: int| digit(low_first[low_first.len() - 1 - i] as int))
}

/// Appends a natural number in decimal to `text`.
pub fn append_number(text: &mut String, value: u64)
    ensures
        final(text)@ == old(text)@ + digits(value as nat),
{
    let ghost before = text@;
    let mut low_first: Vec<u8> = Vec::new();
    let mut rest: u64 = value;
    assert(digits_backwards(low_first@) =~= Seq::empty());
    while rest >= 10
        invariant
            digits(value as nat) == digits(rest as nat) + digits_backwards(low_first@),
            forall|i: int| 0 <= i < low_first@.len() ==> low_first@[i] < 10,
        decreases rest,
    {
        let ghost collected = low_first@;
        low_first.push((rest % 10) as u8);
        proof {
            assert(digits_backwards(low_first@) =~= seq![digit((rest % 10) as int)]
                + digits_backwards(collected));
            assert(digits(rest as nat) == digits((rest / 10) as nat).push(
                digit((rest % 10) as int),
            ));
            assert(digits((rest / 10) as nat) + digits_backwards(low_first@) =~= digits(
                rest as nat,
            ) + digits_backwards(collected));
        }
        rest = rest / 10;
    }
    text.append(digit_text(rest as u8));
    let ghost lead = text@;
    assert(lead =~= before + digits(rest as nat));
    let mut left: usize = low_first.len();
    assert(digits_backwards(low_first@).take(0) =~= Seq::empty());
    while left > 0
        invariant
            left <= low_first@.len(),
            forall|i: int| 0 <= i < low_first@.len() ==> low_first@[i] < 10,
            text@ == lead + digits_backwards(low_first@).take(low_first@.len() - left),
        decreases left,
    {
        let ghost shown = text@;
        left -= 1;
        text.append(digit_text(low_first[left]));
        proof {
            let all = digits_backwards(low_first@);
            let done = low_first@.len() - left - 1;
            assert(all[done] == digit(low_first@[left as int] as int));
            assert(all.take(done + 1) =~= all.take(done).push(all[done]));
            assert(text@ =~= lead + all.take(done + 1));
        }
    }
    proof {
        let all = digits_backwards(low_first@);
        assert(all.take(low_first@.len() as int) =~= all);
        assert(text@ =~= before + (digits(rest as nat) + all));
    }
}

/// Appends an integer in decimal to `text`.
pub fn append_signed_number(text: &mut String, value: i64)
    ensures
        final(text)@ == old(text)@ + signed_digits(value as int),
{
    let ghost before = text@;
    if value < 0 {
        proof {
            reveal_strlit("-");
        }
        text.append("-");
        assert(text@ =~= before + seq!['-']);
        let below: i64 = -(value + 1);
        append_number(text, below as u64 + 1);
        assert(text@ =~= before + signed_digits(value as int));
    } else {
        append_number(text, value as u64);
    }
}

/// The texts one after another with `separator` between them.
pub open spec fn joined(texts: Seq<Seq<char>>, separator: Seq<char>) -> Seq<char>
    decreases texts.len(),
{
    if texts.len() == 0 {
        Seq::empty()
    } else if texts.len() == 1 {
        texts[0]
    } else {
        joined(texts.drop_last(), separator) + separator + texts.last()
    }
}

impl CommandView {
    /// The command as text.
    pub open spec fn text(self) -> Seq<char> {
        match self {
            CommandView::CreateAccount { public_key } => public_key,
            CommandView::AddFunds { account_id, value, asset_id } => "account_id: "@ + digits(
                account_id as nat,
            ) + ", value: "@ + digits(value as nat) + ", asset_id: "@ + asset_id,
            CommandView::TransferFunds {
                account_from_id,
                account_to_id,
                value,
                asset_id,
            } => "account_from_id: "@ + digits(account_from_id as nat) + ", account_to_id: "@
                + digits(account_to_id as nat) + " value: "@ + digits(value as nat)
                + ", asset_id: "@ + asset_id,
        }
    }
}

impl TransactionView {
    /// The transaction as text: its fee, then its commands with a blank
    /// between them.
    pub open spec fn text(self) -> Seq<char> {
        "transaction: fee : "@ + digits(self.fee as nat) + ", commands: "@ + joined(
            self.commands.map_values(|command: CommandView| command.text()),
            " "@,
        )
    }
}

impl BlockView {
    /// The block as text: a heading and one line for each field, the byte
    /// strings in decimal, the transactions with a blank between them. A
    /// block without a predecessor shows the bytes of the word `None`.
    pub open spec fn text(self) -> Seq<char> {
        "block: \n\n                   id: "@ + digits(self.id as nat)
            + ", \n\n                   timestamp: "@ + signed_digits(self.timestamp as int)
            + ", \n\n                   nonce: "@ + digits(self.nonce as nat)
            + ", \n\n                   signature: "@ + decimals(self.signature)
            + ",  \n\n                   hash: "@ + decimals(self.hash)
            + ", \n\n                   previous_block_hash: "@ + (match self.previous_block_hash {
            Some(previous) => decimals(previous),
            None => "78111110101"@,
        }) + ", \n\n                   transactions: "@ + joined(
            self.transactions.map_values(|transaction: TransactionView| transaction.text()),
            " "@,
        ) + " \n"@
    }
}

/// A peer as text: its key, a blank, its address.
pub open spec fn peer_text(peer: PeerEntryView) -> Seq<char> {
    peer.0 + " "@ + peer.1
}

impl DataView {
    /// The value as text: its kind, then what it holds.
    pub open spec fn text(self) -> Seq<char> {
        match self {
            DataView::Block(block) => "data (block) : "@ + block.text(),
            DataView::Transaction(transaction) => "data (transaction) : "@ + transaction.text(),
            DataView::Peer(peer) => "data (node) : "@ + peer,
            DataView::Peers(peers) => "data (peers) : "@ + joined(
                peers.map_values(|peer: PeerEntryView| peer_text(peer)),
                ", "@,
            ),
            DataView::Blockchain(blocks) => "data (blockchain) : "@ + joined(
                blocks.map_values(|block: BlockView| block.text()),
                ", "@,
            ),
        }
    }
}

impl Command {
    /// The command as text.
    pub fn to_string(&self) -> (text: String)
        ensures
            text@ == self@.text(),
    {
        match self {
            Command::CreateAccount { public_key } => public_key.clone(),
            Command::AddFunds { account_id, value, asset_id } => {
                let mut text = String::from_str("account_id: ");
                append_number(&mut text, *account_id as u64);
                text.append(", value: ");
                append_number(&mut text, *value as u64);
                text.append(", asset_id: ");
                text.append(asset_id.as_str());
                assert(text@ =~= self@.text());
                text
            },
            Command::TransferFunds { account_from_id, account_to_id, value, asset_id } => {
                let mut text = String::from_str("account_from_id: ");
                append_number(&mut text, *account_from_id as u64);
                text.append(", account_to_id: ");
                append_number(&mut text, *account_to_id as u64);
                text.append(" value: ");
                append_number(&mut text, *value as u64);
                text.append(", asset_id: ");
                text.append(asset_id.as_str());
                assert(text@ =~= self@.text());
                text
            },
        }
    }
}

/// Appends the commands as text, with a blank between them.
fn append_commands(text: &mut String, commands: &Vec<Command>)
    ensures
        final(text)@ == old(text)@ + joined(
            commands_view(commands@).map_values(|command: CommandView| command.text()),
            " "@,
        ),
{
    let ghost before = text@;
    let ghost texts = commands_view(commands@).map_values(|command: CommandView| command.text());
    let mut i: usize = 0;
    assert(texts.take(0) =~= Seq::empty());
    assert(text@ =~= before + joined(texts.take(0), " "@));
    while i < commands.len()
        invariant
            i <= commands.len(),
            texts == commands_view(commands@).map_values(|command: CommandView| command.text()),
            text@ == before + joined(texts.take(i as int), " "@),
        decreases commands.len() - i,
    {
        let ghost shown = text@;
        if i > 0 {
            text.append(" ");
        }
        let one = commands[i].to_string();
        text.append(one.as_str());
        proof {
            let next = texts.take(i + 1);
            assert(next.drop_last() =~= texts.take(i as int));
            assert(next.last() == commands@[i as int]@.text());
            if i == 0 {
                assert(next[0] == commands@[0]@.text());
                assert(joined(texts.take(0), " "@) =~= Seq::empty());
                assert(text@ =~= before + joined(next, " "@));
            } else {
                assert(text@ =~= before + joined(next, " "@));
            }
        }
        i += 1;
    }
    assert(texts.take(commands.len() as int) =~= texts);
}

impl Transaction {
    /// The transaction as text.
    pub fn to_string(&self) -> (text: String)
        ensures
            text@ == self@.text(),
    {
        let mut text = String::from_str("transaction: fee : ");
        append_number(&mut text, self.fee as u64);
        text.append(", commands: ");
        append_commands(&mut text, &self.commands);
        assert(text@ =~= self@.text());
        text
    }
}

/// Appends the transactions as text, with a blank between them.
fn append_transactions(text: &mut String, transactions: &Vec<Transaction>)
    ensures
        final(text)@ == old(text)@ + joined(
            transactions_view(transactions@).map_values(
                |transaction: TransactionView| transaction.text(),
            ),
            " "@,
        ),
{
    let ghost before = text@;
    let ghost texts = transactions_view(transactions@).map_values(
        |transaction: TransactionView| transaction.text(),
    );
    let mut i: usize = 0;
    assert(texts.take(0) =~= Seq::empty());
    assert(text@ =~= before + joined(texts.take(0), " "@));
    while i < transactions.len()
        invariant
            i <= transactions.len(),
            texts == transactions_view(transactions@).map_values(
                |transaction: TransactionView| transaction.text(),
            ),
            text@ == before + joined(texts.take(i as int), " "@),
        decreases transactions.len() - i,
    {
        if i > 0 {
            text.append(" ");
        }
        let one = transactions[i].to_string();
        text.append(one.as_str());
        proof {
            let next = texts.take(i + 1);
            assert(next.drop_last() =~= texts.take(i as int));
            assert(next.last() == transactions@[i as int]@.text());
            if i == 0 {
                assert(next[0] == transactions@[0]@.text());
                assert(joined(texts.take(0), " "@) =~= Seq::empty());
                assert(text@ =~= before + joined(next, " "@));
            } else {
                assert(text@ =~= before + joined(next, " "@));
            }
        }
        i += 1;
    }
    assert(texts.take(transactions.len() as int) =~= texts);
}

impl Block {
    /// The block as text.
    pub fn to_string(&self) -> (text: String)
        ensures
            text@ == self@.text(),
    {
        let mut text = String::from_str("block: \n\n                   id: ");
        append_number(&mut text, self.id);
        text.append(", \n\n                   timestamp: ");
        append_signed_number(&mut text, self.timestamp);
        text.append(", \n\n                   nonce: ");
        append_number(&mut text, self.nonce as u64);
        text.append(", \n\n                   signature: ");
        let signature = print_bytes(&self.signature);
        text.append(signature.as_str());
        text.append(",  \n\n                   hash: ");
        let hash = print_bytes(&self.hash);
        text.append(hash.as_str());
        text.append(", \n\n                   previous_block_hash: ");
        match &self.previous_block_hash {
            Some(previous) => {
                let shown = print_bytes(previous);
                text.append(shown.as_str());
            },
            None => {
                text.append("78111110101");
            },
        }
        text.append(", \n\n                   transactions: ");
        append_transactions(&mut text, &self.transactions);
        text.append(" \n");
        assert(text@ =~= self@.text());
        text
    }
}

impl Data {
    /// The value as text.
    pub fn to_string(&self) -> (text: String)
        ensures
            text@ == self@.text(),
    {
        match self {
            Data::Block(block) => {
                let mut text = String::from_str("data (block) : ");
                let shown = block.to_string();
                text.append(shown.as_str());
                text
            },
            Data::Transaction(transaction) => {
                let mut text = String::from_str("data (transaction) : ");
                let shown = transaction.to_string();
                text.append(shown.as_str());
                text
            },
            Data::Peer(peer) => {
                let mut text = String::from_str("data (node) : ");
                text.append(peer.as_str());
                text
            },
            Data::Peers(list) => {
                let peers = list.entries();
                let mut text = String::from_str("data (peers) : ");
                let ghost before = text@;
                let ghost texts = peers_view(peers@).map_values(
                    |peer: PeerEntryView| peer_text(peer),
                );
                let mut i: usize = 0;
                assert(texts.take(0) =~= Seq::empty());
                assert(text@ =~= before + joined(texts.take(0), ", "@));
                while i < peers.len()
                    invariant
                        i <= peers.len(),
                        texts == peers_view(peers@).map_values(
                            |peer: PeerEntryView| peer_text(peer),
                        ),
                        text@ == before + joined(texts.take(i as int), ", "@),
                    decreases peers.len() - i,
                {
                    if i > 0 {
                        text.append(", ");
                    }
                    text.append(peers[i].0.as_str());
                    text.append(" ");
                    text.append(peers[i].1.as_str());
                    proof {
                        let next = texts.take(i + 1);
                        assert(next.drop_last() =~= texts.take(i as int));
                        assert(next.last() =~= peers@[i as int].0@ + " "@ + peers@[i as int].1@);
                        if i == 0 {
                            assert(next[0] == next.last());
                            assert(joined(texts.take(0), ", "@) =~= Seq::empty());
                            assert(text@ =~= before + joined(next, ", "@));
                        } else {
                            assert(text@ =~= before + joined(next, ", "@));
                        }
                    }
                    i += 1;
                }
                assert(texts.take(peers.len() as int) =~= texts);
                text
            },
            Data::Blockchain(blocks) => {
                let mut text = String::from_str("data (blockchain) : ");
                let ghost before = text@;
                let ghost texts = blocks_view(blocks@).map_values(|block: BlockView| block.text());
                let mut i: usize = 0;
                assert(texts.take(0) =~= Seq::empty());
                assert(text@ =~= before + joined(texts.take(0), ", "@));
                while i < blocks.len()
                    invariant
                        i <= blocks.len(),
                        texts == blocks_view(blocks@).map_values(|block: BlockView| block.text()),
                        text@ == before + joined(texts.take(i as int), ", "@),
                    decreases blocks.len() - i,
                {
                    if i > 0 {
                        text.append(", ");
                    }
                    let shown = blocks[i].to_string();
                    text.append(shown.as_str());
                    proof {
                        let next = texts.take(i + 1);
                        assert(next.drop_last() =~= texts.take(i as int));
                        assert(next.last() == blocks@[i as int]@.text());
                        if i == 0 {
                            assert(next[0] == next.last());
                            assert(joined(texts.take(0), ", "@) =~= Seq::empty());
                            assert(text@ =~= before + joined(next, ", "@));
                        } else {
                            assert(text@ =~= before + joined(next, ", "@));
                        }
                    }
                    i += 1;
                }
                assert(texts.take(blocks.len() as int) =~= texts);
                text
            },
        }
    }
}

} // verus!
