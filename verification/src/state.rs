//! The data model of the ledger: accounts, assets, commands, transactions and
//! blocks, each with the mathematical view that the contracts speak of.

use vstd::prelude::*;

verus! {

/// The most transactions a block may carry.
pub const MAX_TRANSACTIONS_IN_BLOCK: usize = 100;

/// The asset in which the block reward is paid.
pub const NATIVE_COIN: &'static str = "NATIVE";

/// The account that receives the block reward.
pub const REWARD_ACCOUNT_ID: u32 = 1;

/// The value of the block reward.
pub const BLOCK_REWARD: u32 = 1;

/// An account of the ledger, known by the public key of its owner.
#[derive(Debug)]
pub struct Account {
    public_key: String,
}

impl View for Account {
    type V = Seq<char>;

    closed spec fn view(&self) -> Seq<char> {
        self.public_key@
    }
}

impl Account {
    /// An account owned by the holder of `public_key`.
    pub fn new(public_key: String) -> (account: Account)
        ensures
            account@ == public_key@,
    {
        Account { public_key }
    }

    /// The public key of the owner.
    pub fn public_key(&self) -> (key: &String)
        ensures
            key@ == self@,
    {
        &self.public_key
    }
}

impl Clone for Account {
    fn clone(&self) -> (copy: Account)
        ensures
            copy@ == self@,
    {
        Account { public_key: self.public_key.clone() }
    }
}

/// An amount of some asset held by some account.
#[derive(Debug)]
pub struct Asset {
    value: u32,
}

impl View for Asset {
    type V = u32;

    closed spec fn view(&self) -> u32 {
        self.value
    }
}

impl Asset {
    /// An asset holding `value`.
    pub fn new_with_value(value: u32) -> (asset: Asset)
        ensures
            asset@ == value,
    {
        Asset { value }
    }

    /// The amount held.
    pub fn value(&self) -> (value: u32)
        ensures
            value == self@,
    {
        self.value
    }
}

impl Clone for Asset {
    fn clone(&self) -> (copy: Asset)
        ensures
            copy@ == self@,
    {
        Asset { value: self.value }
    }
}

/// One instruction to the ledger.
#[derive(Debug)]
pub enum Command {
    CreateAccount { public_key: String },
    AddFunds { account_id: u32, value: u32, asset_id: String },
    TransferFunds { account_from_id: u32, account_to_id: u32, value: u32, asset_id: String },
}

/// What a [`Command`] says, with its strings as sequences of characters.
pub enum CommandView {
    CreateAccount { public_key: Seq<char> },
    AddFunds { account_id: u32, value: u32, asset_id: Seq<char> },
    TransferFunds { account_from_id: u32, account_to_id: u32, value: u32, asset_id: Seq<char> },
}

impl View for Command {
    type V = CommandView;

    open spec fn view(&self) -> CommandView {
        match *self {
            Command::CreateAccount { public_key } => CommandView::CreateAccount {
                public_key: public_key@,
            },
            Command::AddFunds { account_id, value, asset_id } => CommandView::AddFunds {
                account_id,
                value,
                asset_id: asset_id@,
            },
            Command::TransferFunds {
                account_from_id,
                account_to_id,
                value,
                asset_id,
            } => CommandView::TransferFunds {
                account_from_id,
                account_to_id,
                value,
                asset_id: asset_id@,
            },
        }
    }
}

impl Clone for Command {
    fn clone(&self) -> (copy: Command)
        ensures
            copy@ == self@,
    {
        match self {
            Command::CreateAccount { public_key } => Command::CreateAccount {
                public_key: public_key.clone(),
            },
            Command::AddFunds { account_id, value, asset_id } => Command::AddFunds {
                account_id: *account_id,
                value: *value,
                asset_id: asset_id.clone(),
            },
            Command::TransferFunds {
                account_from_id,
                account_to_id,
                value,
                asset_id,
            } => Command::TransferFunds {
                account_from_id: *account_from_id,
                account_to_id: *account_to_id,
                value: *value,
                asset_id: asset_id.clone(),
            },
        }
    }
}

/// The views of a sequence of commands, in order.
pub open spec fn commands_view(commands: Seq<Command>) -> Seq<CommandView> {
    commands.map_values(|c: Command| c@)
}

/// Copies a list of commands.
pub fn clone_commands(commands: &Vec<Command>) -> (copy: Vec<Command>)
    ensures
        commands_view(copy@) == commands_view(commands@),
{
    let mut copy: Vec<Command> = Vec::new();
    let mut i: usize = 0;
    while i < commands.len()
        invariant
            i <= commands.len(),
            copy.len() == i,
            forall|j: int| 0 <= j < i ==> copy@[j]@ == commands@[j]@,
        decreases commands.len() - i,
    {
        copy.push(commands[i].clone());
        i += 1;
    }
    assert(commands_view(copy@) =~= commands_view(commands@));
    copy
}

/// A fee and the commands it pays for, applied to the ledger together.
#[derive(Debug)]
pub struct Transaction {
    pub fee: u32,
    pub commands: Vec<Command>,
}

/// What a [`Transaction`] says.
pub struct TransactionView {
    pub fee: u32,
    pub commands: Seq<CommandView>,
}

impl View for Transaction {
    type V = TransactionView;

    open spec fn view(&self) -> TransactionView {
        TransactionView { fee: self.fee, commands: commands_view(self.commands@) }
    }
}

impl Clone for Transaction {
    fn clone(&self) -> (copy: Transaction)
        ensures
            copy@ == self@,
    {
        Transaction { fee: self.fee, commands: clone_commands(&self.commands) }
    }
}

/// The views of a sequence of transactions, in order.
pub open spec fn transactions_view(transactions: Seq<Transaction>) -> Seq<TransactionView> {
    transactions.map_values(|t: Transaction| t@)
}

/// Copies a list of transactions.
pub fn clone_transactions(transactions: &Vec<Transaction>) -> (copy: Vec<Transaction>)
    ensures
        transactions_view(copy@) == transactions_view(transactions@),
{
    let mut copy: Vec<Transaction> = Vec::new();
    let mut i: usize = 0;
    while i < transactions.len()
        invariant
            i <= transactions.len(),
            copy.len() == i,
            forall|j: int| 0 <= j < i ==> copy@[j]@ == transactions@[j]@,
        decreases transactions.len() - i,
    {
        copy.push(transactions[i].clone());
        i += 1;
    }
    assert(transactions_view(copy@) =~= transactions_view(transactions@));
    copy
}

/// A batch of transactions with the proof-of-work header that chains it to
/// the block before it.
#[derive(Debug)]
pub struct Block {
    pub id: u64,
    pub timestamp: i64,
    pub nonce: u32,
    pub signature: Vec<u8>,
    pub hash: Vec<u8>,
    pub previous_block_hash: Option<Vec<u8>>,
    pub transactions: Vec<Transaction>,
}

/// What a [`Block`] says.
pub struct BlockView {
    pub id: u64,
    pub timestamp: i64,
    pub nonce: u32,
    pub signature: Seq<u8>,
    pub hash: Seq<u8>,
    pub previous_block_hash: Option<Seq<u8>>,
    pub transactions: Seq<TransactionView>,
}

/// The view of an optional byte string.
pub open spec fn optional_bytes_view(bytes: Option<Vec<u8>>) -> Option<Seq<u8>> {
    match bytes {
        Some(b) => Some(b@),
        None => None,
    }
}

impl View for Block {
    type V = BlockView;

    open spec fn view(&self) -> BlockView {
        BlockView {
            id: self.id,
            timestamp: self.timestamp,
            nonce: self.nonce,
            signature: self.signature@,
            hash: self.hash@,
            previous_block_hash: optional_bytes_view(self.previous_block_hash),
            transactions: transactions_view(self.transactions@),
        }
    }
}

/// Copies an optional byte string.
pub fn clone_optional_bytes(bytes: &Option<Vec<u8>>) -> (copy: Option<Vec<u8>>)
    ensures
        optional_bytes_view(copy) == optional_bytes_view(*bytes),
{
    match bytes {
        Some(b) => Some(b.clone()),
        None => None,
    }
}

impl Clone for Block {
    fn clone(&self) -> (copy: Block)
        ensures
            copy@ == self@,
    {
        Block {
            id: self.id,
            timestamp: self.timestamp,
            nonce: self.nonce,
            signature: self.signature.clone(),
            hash: self.hash.clone(),
            previous_block_hash: clone_optional_bytes(&self.previous_block_hash),
            transactions: clone_transactions(&self.transactions),
        }
    }
}

impl Default for Block {
    /// The empty block: every number zero, every sequence empty, no predecessor.
    fn default() -> (block: Block)
        ensures
            block@ == (BlockView {
                id: 0,
                timestamp: 0,
                nonce: 0,
                signature: Seq::empty(),
                hash: Seq::empty(),
                previous_block_hash: None,
                transactions: Seq::empty(),
            }),
    {
        let block = Block {
            id: 0,
            timestamp: 0,
            nonce: 0,
            signature: Vec::new(),
            hash: Vec::new(),
            previous_block_hash: None,
            transactions: Vec::new(),
        };
        assert(transactions_view(block.transactions@) =~= Seq::empty());
        block
    }
}

/// The views of a sequence of blocks, in order.
pub open spec fn blocks_view(blocks: Seq<Block>) -> Seq<BlockView> {
    blocks.map_values(|b: Block| b@)
}

/// Copies a list of blocks.
pub fn clone_blocks(blocks: &Vec<Block>) -> (copy: Vec<Block>)
    ensures
        blocks_view(copy@) == blocks_view(blocks@),
{
    let mut copy: Vec<Block> = Vec::new();
    let mut i: usize = 0;
    while i < blocks.len()
        invariant
            i <= blocks.len(),
            copy.len() == i,
            forall|j: int| 0 <= j < i ==> copy@[j]@ == blocks@[j]@,
        decreases blocks.len() - i,
    {
        copy.push(blocks[i].clone());
        i += 1;
    }
    assert(blocks_view(copy@) =~= blocks_view(blocks@));
    copy
}

} // verus!
