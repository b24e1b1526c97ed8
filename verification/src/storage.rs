//! The ledger state machine: the chain of accepted blocks with the accounts
//! and assets they made, and the one way to extend it.
//!
//! A block is checked by itself and against the tip, then applied. The
//! commands of a block run on a copy of the accounts and assets, which takes
//! the place of the old ones only when every command has applied, so a block
//! is applied as a whole or not at all. A block that does not extend the tip
//! is turned away; the chain only ever grows at its end.

use crate::codec::{bytes_equal, Wire};
use crate::crypto::{hash, is_hash_valid, meets_difficulty, sha256, DIFFICULTY, DIGEST_LENGTH};
use crate::errors::LedgerError;
use crate::ledger::{apply_command, Accounts, Assets, LedgerView};
use crate::state::{
    blocks_view, commands_view, transactions_view, Asset, Block, BlockView,
    Command, CommandView, Transaction, TransactionView, BLOCK_REWARD, MAX_TRANSACTIONS_IN_BLOCK,
    NATIVE_COIN, REWARD_ACCOUNT_ID,
};
use crate::time::{convert_timestamp_to_day_time, utc_day_time};
use crate::wire::serialize_block;
use vstd::prelude::*;

verus! {

/// The block as it is hashed: without its hash. The miner hashes a candidate
/// that carries the nonce it is trying and no hash; the block it hands out
/// carries that same nonce and the digest it found.
pub open spec fn hashed_block(block: BlockView) -> BlockView {
    BlockView {
        id: block.id,
        timestamp: block.timestamp,
        nonce: block.nonce,
        signature: block.signature,
        hash: Seq::empty(),
        previous_block_hash: block.previous_block_hash,
        transactions: block.transactions,
    }
}

/// The digest that a block must carry as its hash: the SHA-256 of the
/// canonical bytes of the block without its hash.
pub open spec fn block_digest(block: BlockView) -> Seq<u8> {
    sha256(hashed_block(block).form())
}

/// The hash rule: the hash is the digest of the block without its hash.
pub open spec fn valid_hash(block: BlockView) -> bool {
    block.hash == block_digest(block)
}

/// What every block of the chain satisfies by itself: it holds no more
/// transactions than allowed, its hash obeys the hash rule and meets the
/// difficulty.
pub open spec fn sealed(block: BlockView) -> bool {
    &&& block.transactions.len() <= MAX_TRANSACTIONS_IN_BLOCK
    &&& valid_hash(block)
    &&& meets_difficulty(block.hash, DIFFICULTY as nat)
}

/// What the first block of a chain satisfies: no predecessor, number 0 or 1,
/// and sealed.
pub open spec fn valid_genesis(block: BlockView) -> bool {
    &&& block.previous_block_hash is None
    &&& block.id <= 1
    &&& sealed(block)
}

/// Both timestamps are moments of the calendar, the second strictly later.
pub open spec fn later(previous: i64, timestamp: i64) -> bool {
    &&& utc_day_time(previous) is Some
    &&& utc_day_time(timestamp) is Some
    &&& previous < timestamp
}

/// What a block satisfies to follow `previous`: it names the hash of
/// `previous`, it is strictly later, and it is sealed.
pub open spec fn extends(previous: BlockView, block: BlockView) -> bool {
    &&& block.previous_block_hash == Some(previous.hash)
    &&& later(previous.timestamp, block.timestamp)
    &&& sealed(block)
}

/// Each block of the sequence but the first follows the one before it.
pub open spec fn linked(chain: Seq<BlockView>) -> bool {
    forall|i: int| 0 < i < chain.len() ==> extends(chain[i - 1], #[trigger] chain[i])
}

/// A chain as the ledger keeps it: a valid first block, and each further
/// block following the one before it.
pub open spec fn valid_chain(chain: Seq<BlockView>) -> bool {
    &&& chain.len() > 0 ==> valid_genesis(chain[0])
    &&& linked(chain)
}

/// What the commands make of the ledger when applied in order, or the error
/// of the first command that fails.
pub open spec fn apply_commands(commands: Seq<CommandView>, ledger: LedgerView) -> Result<
    LedgerView,
    LedgerError,
>
    decreases commands.len(),
{
    if commands.len() == 0 {
        Ok(ledger)
    } else {
        match apply_commands(commands.drop_last(), ledger) {
            Ok(before) => apply_command(commands.last(), before),
            Err(error) => Err(error),
        }
    }
}

/// What the transactions make of the ledger when their commands are applied
/// in order, or the error of the first command that fails.
pub open spec fn apply_transactions(
    transactions: Seq<TransactionView>,
    ledger: LedgerView,
) -> Result<LedgerView, LedgerError>
    decreases transactions.len(),
{
    if transactions.len() == 0 {
        Ok(ledger)
    } else {
        match apply_transactions(transactions.drop_last(), ledger) {
            Ok(before) => apply_commands(transactions.last().commands, before),
            Err(error) => Err(error),
        }
    }
}

/// What the reward account holds in the native coin, nothing counting as zero.
pub open spec fn reward_holding(ledger: LedgerView) -> u32 {
    if ledger.assets.contains_key((REWARD_ACCOUNT_ID, NATIVE_COIN@)) {
        ledger.assets[(REWARD_ACCOUNT_ID, NATIVE_COIN@)]
    } else {
        0
    }
}

/// A holding with the reward for a block on top. A holding that cannot
/// grow any more stays at the highest amount there is.
pub open spec fn credited(held: u32) -> u32 {
    if held + BLOCK_REWARD <= u32::MAX {
        (held + BLOCK_REWARD) as u32
    } else {
        u32::MAX
    }
}

/// The ledger after the reward for a block: the reward account holds in the
/// native coin what it held, with the reward on top. Nothing else changes.
pub open spec fn rewarded(ledger: LedgerView) -> LedgerView {
    LedgerView {
        accounts: ledger.accounts,
        assets: ledger.assets.insert(
            (REWARD_ACCOUNT_ID, NATIVE_COIN@),
            credited(reward_holding(ledger)),
        ),
    }
}

/// The block carries the number after the number of `previous`.
pub open spec fn numbered_after(previous: BlockView, block: BlockView) -> bool {
    block.id == previous.id + 1
}

/// Each block of the sequence but the first carries the number after the
/// number of the block before it.
pub open spec fn numbered(chain: Seq<BlockView>) -> bool {
    forall|i: int| 0 < i < chain.len() ==> numbered_after(chain[i - 1], #[trigger] chain[i])
}

/// The storage as contracts see it.
pub struct StorageView {
    pub id: u64,
    /// Whether a block must carry the number after the number of the tip.
    pub strict: bool,
    pub chain: Seq<BlockView>,
    pub ledger: LedgerView,
}

/// What offering a block makes of the storage, or the error with which the
/// block is turned away.
///
/// Whether the block may stand at the end of the chain, whatever its
/// commands do: an empty chain asks for a valid first block; a chain with a
/// tip asks for a block that follows the tip and, where the storage is
/// strict, carries the number after the number of the tip.
pub open spec fn fits(storage: StorageView, block: BlockView) -> bool {
    if storage.chain.len() == 0 {
        valid_genesis(block)
    } else {
        &&& extends(storage.chain.last(), block)
        &&& storage.strict ==> numbered_after(storage.chain.last(), block)
    }
}

/// What offering a block makes of the storage, or the error with which the
/// block is turned away. The only error is `BlockError`.
///
/// An empty chain takes a valid first block as it is: its transactions are
/// not applied. A chain with a tip takes a block that follows the tip and
/// whose commands all apply; the ledger is then what the commands made of it,
/// with the reward on top. A block that does not fit the end of the chain is
/// turned away, and so is a block with a command that fails, whatever the
/// error of that command; the chain is never replaced by another.
pub open spec fn append_block(storage: StorageView, block: BlockView) -> Result<
    StorageView,
    LedgerError,
> {
    if !fits(storage, block) {
        Err(LedgerError::BlockError)
    } else if storage.chain.len() == 0 {
        Ok(
            StorageView {
                id: storage.id,
                strict: storage.strict,
                chain: seq![block],
                ledger: storage.ledger,
            },
        )
    } else {
        match apply_transactions(block.transactions, storage.ledger) {
            Ok(ledger) => Ok(
                StorageView {
                    id: storage.id,
                    strict: storage.strict,
                    chain: storage.chain.push(block),
                    ledger: rewarded(ledger),
                },
            ),
            Err(_) => Err(LedgerError::BlockError),
        }
    }
}

/// The ledger as the commands leave it when they are applied in order up to
/// the first that fails: what all of them made of it where none fails, and
/// what the commands before the failing one made of it otherwise.
pub open spec fn reached_by_commands(commands: Seq<CommandView>, ledger: LedgerView) -> LedgerView
    decreases commands.len(),
{
    if commands.len() == 0 {
        ledger
    } else {
        match apply_commands(commands.drop_last(), ledger) {
            Ok(before) => match apply_command(commands.last(), before) {
                Ok(after) => after,
                Err(_) => before,
            },
            Err(_) => reached_by_commands(commands.drop_last(), ledger),
        }
    }
}

/// The ledger as the transactions leave it when their commands are applied
/// in order up to the first that fails.
pub open spec fn reached_by_transactions(
    transactions: Seq<TransactionView>,
    ledger: LedgerView,
) -> LedgerView
    decreases transactions.len(),
{
    if transactions.len() == 0 {
        ledger
    } else {
        match apply_transactions(transactions.drop_last(), ledger) {
            Ok(before) => reached_by_commands(transactions.last().commands, before),
            Err(_) => reached_by_transactions(transactions.drop_last(), ledger),
        }
    }
}

/// Once a prefix of the commands has failed, the commands after it change
/// nothing.
pub proof fn lemma_reached_by_commands_sticks(
    commands: Seq<CommandView>,
    prefix: int,
    ledger: LedgerView,
)
    requires
        0 <= prefix <= commands.len(),
        apply_commands(commands.take(prefix), ledger) is Err,
    ensures
        reached_by_commands(commands, ledger) == reached_by_commands(
            commands.take(prefix),
            ledger,
        ),
    decreases commands.len() - prefix,
{
    if prefix == commands.len() {
        assert(commands.take(prefix) =~= commands);
    } else {
        assert(commands.take(prefix + 1).drop_last() =~= commands.take(prefix));
        lemma_reached_by_commands_sticks(commands, prefix + 1, ledger);
    }
}

/// Once a prefix of the transactions has failed, the transactions after it
/// change nothing.
pub proof fn lemma_reached_by_transactions_sticks(
    transactions: Seq<TransactionView>,
    prefix: int,
    ledger: LedgerView,
)
    requires
        0 <= prefix <= transactions.len(),
        apply_transactions(transactions.take(prefix), ledger) is Err,
    ensures
        reached_by_transactions(transactions, ledger) == reached_by_transactions(
            transactions.take(prefix),
            ledger,
        ),
    decreases transactions.len() - prefix,
{
    if prefix == transactions.len() {
        assert(transactions.take(prefix) =~= transactions);
    } else {
        assert(transactions.take(prefix + 1).drop_last() =~= transactions.take(prefix));
        lemma_reached_by_transactions_sticks(transactions, prefix + 1, ledger);
    }
}

/// Where all commands apply, they leave the ledger as they made it.
pub proof fn lemma_reached_by_commands_that_apply(commands: Seq<CommandView>, ledger: LedgerView)
    requires
        apply_commands(commands, ledger) is Ok,
    ensures
        reached_by_commands(commands, ledger) == apply_commands(commands, ledger)->Ok_0,
{
}

/// Where the commands of all transactions apply, they leave the ledger as
/// they made it.
pub proof fn lemma_reached_by_transactions_that_apply(
    transactions: Seq<TransactionView>,
    ledger: LedgerView,
)
    requires
        apply_transactions(transactions, ledger) is Ok,
    ensures
        reached_by_transactions(transactions, ledger) == apply_transactions(
            transactions,
            ledger,
        )->Ok_0,
{
    if transactions.len() > 0 {
        let before = apply_transactions(transactions.drop_last(), ledger)->Ok_0;
        lemma_reached_by_commands_that_apply(transactions.last().commands, before);
    }
}

/// The SHA-256 digest of the canonical bytes of `block`, its hash field
/// included as it stands. The digest depends on what the block says and on
/// nothing else.
pub fn digest_of_block(block: &Block) -> (digest: Vec<u8>)
    ensures
        digest@ == sha256(block@.form()),
        digest@.len() == DIGEST_LENGTH,
{
    let hash_data = serialize_block(block);
    hash(hash_data.as_slice())
}

/// Once a prefix of the commands has failed, the whole list fails the same way.
pub proof fn lemma_apply_commands_error_sticks(
    commands: Seq<CommandView>,
    prefix: int,
    ledger: LedgerView,
)
    requires
        0 <= prefix <= commands.len(),
        apply_commands(commands.take(prefix), ledger) is Err,
    ensures
        apply_commands(commands, ledger) == apply_commands(commands.take(prefix), ledger),
    decreases commands.len() - prefix,
{
    if prefix == commands.len() {
        assert(commands.take(prefix) =~= commands);
    } else {
        assert(commands.take(prefix + 1).drop_last() =~= commands.take(prefix));
        lemma_apply_commands_error_sticks(commands, prefix + 1, ledger);
    }
}

/// Once a prefix of the transactions has failed, the whole list fails the
/// same way.
pub proof fn lemma_apply_transactions_error_sticks(
    transactions: Seq<TransactionView>,
    prefix: int,
    ledger: LedgerView,
)
    requires
        0 <= prefix <= transactions.len(),
        apply_transactions(transactions.take(prefix), ledger) is Err,
    ensures
        apply_transactions(transactions, ledger) == apply_transactions(
            transactions.take(prefix),
            ledger,
        ),
    decreases transactions.len() - prefix,
{
    if prefix == transactions.len() {
        assert(transactions.take(prefix) =~= transactions);
    } else {
        assert(transactions.take(prefix + 1).drop_last() =~= transactions.take(prefix));
        lemma_apply_transactions_error_sticks(transactions, prefix + 1, ledger);
    }
}

/// Where the commands applied, each of them applied to what the commands
/// before it had made of the ledger.
pub proof fn lemma_apply_commands_step(commands: Seq<CommandView>, ledger: LedgerView, i: int)
    requires
        apply_commands(commands, ledger) is Ok,
        0 <= i < commands.len(),
    ensures
        apply_commands(commands.take(i), ledger) matches Ok(before) && apply_command(
            commands[i],
            before,
        ) is Ok,
{
    let next = commands.take(i + 1);
    if apply_commands(next, ledger) is Err {
        lemma_apply_commands_error_sticks(commands, i + 1, ledger);
    }
    assert(next.drop_last() =~= commands.take(i));
    assert(next.last() == commands[i]);
}

/// Where the transactions applied, each of them applied to what the
/// transactions before it had made of the ledger.
pub proof fn lemma_apply_transactions_step(
    transactions: Seq<TransactionView>,
    ledger: LedgerView,
    i: int,
)
    requires
        apply_transactions(transactions, ledger) is Ok,
        0 <= i < transactions.len(),
    ensures
        apply_transactions(transactions.take(i), ledger) matches Ok(before) && apply_commands(
            transactions[i].commands,
            before,
        ) is Ok,
{
    let next = transactions.take(i + 1);
    if apply_transactions(next, ledger) is Err {
        lemma_apply_transactions_error_sticks(transactions, i + 1, ledger);
    }
    assert(next.drop_last() =~= transactions.take(i));
    assert(next.last() == transactions[i]);
}

/// A transfer in a block that was appended to a chain with a tip found, at
/// the moment it was applied, its source key in the ledger, holding at least
/// the amount transferred. The moment is after the transactions before it
/// in the block and the commands before it in its transaction.
pub proof fn lemma_committed_transfer_was_funded(
    storage: StorageView,
    block: BlockView,
    transaction: int,
    command: int,
)
    requires
        storage.chain.len() > 0,
        append_block(storage, block) is Ok,
        0 <= transaction < block.transactions.len(),
        0 <= command < block.transactions[transaction].commands.len(),
        block.transactions[transaction].commands[command] is TransferFunds,
    ensures
        apply_transactions(block.transactions.take(transaction), storage.ledger) matches Ok(
            reached,
        ) && apply_commands(
            block.transactions[transaction].commands.take(command),
            reached,
        ) matches Ok(before) && block.transactions[transaction].commands[command] matches CommandView::TransferFunds {
            account_from_id,
            value,
            asset_id,
            ..
        } && before.assets.contains_key((account_from_id, asset_id)) && before.assets[(
            account_from_id,
            asset_id,
        )] >= value,
{
    lemma_apply_transactions_step(block.transactions, storage.ledger, transaction);
    let reached = apply_transactions(block.transactions.take(transaction), storage.ledger)->Ok_0;
    lemma_apply_commands_step(block.transactions[transaction].commands, reached, command);
}

/// An empty chain takes every valid first block: one without a
/// predecessor, numbered 0 or 1 and sealed. The block becomes the chain, and
/// the ledger stays as it is.
pub proof fn lemma_genesis_is_accepted(storage: StorageView, block: BlockView)
    requires
        storage.chain.len() == 0,
        block.previous_block_hash is None,
        block.id <= 1,
        sealed(block),
    ensures
        append_block(storage, block) == Ok::<StorageView, LedgerError>(
            StorageView {
                id: storage.id,
                strict: storage.strict,
                chain: seq![block],
                ledger: storage.ledger,
            },
        ),
{
}

/// A chain with a tip turns away, with `BlockError`, every block that does
/// not name the hash of the tip.
pub proof fn lemma_unlinked_block_is_rejected(storage: StorageView, block: BlockView)
    requires
        storage.chain.len() > 0,
        block.previous_block_hash != Some(storage.chain.last().hash),
    ensures
        append_block(storage, block) == Err::<StorageView, LedgerError>(LedgerError::BlockError),
{
}

/// A block with a command that fails is turned away with `BlockError`,
/// whatever the error of the command.
pub proof fn lemma_failing_block_is_rejected(storage: StorageView, block: BlockView)
    requires
        storage.chain.len() > 0,
        apply_transactions(block.transactions, storage.ledger) is Err,
    ensures
        append_block(storage, block) == Err::<StorageView, LedgerError>(LedgerError::BlockError),
{
}

/// Every error with which a block is turned away is `BlockError`.
pub proof fn lemma_only_block_errors(storage: StorageView, block: BlockView)
    ensures
        append_block(storage, block) matches Err(error) ==> error == LedgerError::BlockError,
{
}

/// A block appended to a chain with a tip credits the reward: the reward
/// account then holds in the native coin what the commands of the block left
/// it, nothing counting as zero, and one unit more, unless it held the
/// highest amount there is, at which it stays. The accounts and every other
/// holding are as the commands of the block left them.
pub proof fn lemma_reward_is_credited(storage: StorageView, block: BlockView)
    requires
        storage.chain.len() > 0,
        append_block(storage, block) is Ok,
    ensures
        apply_transactions(block.transactions, storage.ledger) matches Ok(applied) && ({
            let ledger = append_block(storage, block)->Ok_0.ledger;
            &&& ledger.accounts == applied.accounts
            &&& reward_holding(applied) < u32::MAX ==> reward_holding(ledger) == reward_holding(
                applied,
            ) + 1
            &&& reward_holding(applied) == u32::MAX ==> reward_holding(ledger) == u32::MAX
            &&& ledger.assets.contains_key((REWARD_ACCOUNT_ID, NATIVE_COIN@))
            &&& forall|key: crate::ledger::AssetKey|
                key != (REWARD_ACCOUNT_ID, NATIVE_COIN@) ==> (ledger.assets.contains_key(key)
                    <==> applied.assets.contains_key(key)) && (applied.assets.contains_key(key)
                    ==> ledger.assets[key] == applied.assets[key])
        }),
{
}

/// The digest of a block depends on what the block says and on nothing else.
pub proof fn lemma_digest_depends_on_content(first: Block, second: Block)
    requires
        first@ == second@,
    ensures
        block_digest(first@) == block_digest(second@),
        sha256(first@.form()) == sha256(second@.form()),
{
}

/// Applies the commands in order to the accounts and assets, up to the first
/// that fails. After an error the accounts and assets are as the commands
/// before the failing one left them.
pub fn execute_commands(commands: &Vec<Command>, accounts: &mut Accounts, assets: &mut Assets) -> (result:
    Result<(), LedgerError>)
    requires
        old(accounts).wf(),
        old(assets).wf(),
    ensures
        final(accounts).wf(),
        final(assets).wf(),
        match apply_commands(
            commands_view(commands@),
            LedgerView { accounts: old(accounts)@, assets: old(assets)@ },
        ) {
            Ok(next) => result is Ok && final(accounts)@ == next.accounts && final(assets)@
                == next.assets,
            Err(error) => result == Err::<(), LedgerError>(error),
        },
        (LedgerView { accounts: final(accounts)@, assets: final(assets)@ }) == reached_by_commands(
            commands_view(commands@),
            LedgerView { accounts: old(accounts)@, assets: old(assets)@ },
        ),
{
    let ghost start = LedgerView { accounts: accounts@, assets: assets@ };
    let ghost view = commands_view(commands@);
    let mut i: usize = 0;
    assert(view.take(0) =~= Seq::empty());
    while i < commands.len()
        invariant
            i <= commands.len(),
            accounts.wf(),
            assets.wf(),
            view == commands_view(commands@),
            start == (LedgerView { accounts: old(accounts)@, assets: old(assets)@ }),
            apply_commands(view.take(i as int), start) == Ok::<LedgerView, LedgerError>(
                LedgerView { accounts: accounts@, assets: assets@ },
            ),
        decreases commands.len() - i,
    {
        assert(view.take(i + 1).drop_last() =~= view.take(i as int));
        assert(view.take(i + 1).last() == commands@[i as int]@);
        match commands[i].execute(accounts, assets) {
            Ok(()) => {},
            Err(error) => {
                proof {
                    assert(apply_commands(view.take(i + 1), start) is Err);
                    lemma_apply_commands_error_sticks(view, i + 1, start);
                    lemma_reached_by_commands_sticks(view, i + 1, start);
                }
                return Err(error);
            },
        }
        i += 1;
    }
    proof {
        assert(view.take(commands.len() as int) =~= view);
        lemma_reached_by_commands_that_apply(view, start);
    }
    Ok(())
}

/// Applies the commands of the transactions in order to the accounts and
/// assets, up to the first that fails. After an error the accounts and
/// assets are as the commands before the failing one left them.
pub fn execute_transactions(
    transactions: &Vec<Transaction>,
    accounts: &mut Accounts,
    assets: &mut Assets,
) -> (result: Result<(), LedgerError>)
    requires
        old(accounts).wf(),
        old(assets).wf(),
    ensures
        final(accounts).wf(),
        final(assets).wf(),
        match apply_transactions(
            transactions_view(transactions@),
            LedgerView { accounts: old(accounts)@, assets: old(assets)@ },
        ) {
            Ok(next) => result is Ok && final(accounts)@ == next.accounts && final(assets)@
                == next.assets,
            Err(error) => result == Err::<(), LedgerError>(error),
        },
        (LedgerView { accounts: final(accounts)@, assets: final(assets)@ })
            == reached_by_transactions(
            transactions_view(transactions@),
            LedgerView { accounts: old(accounts)@, assets: old(assets)@ },
        ),
{
    let ghost start = LedgerView { accounts: accounts@, assets: assets@ };
    let ghost view = transactions_view(transactions@);
    let mut i: usize = 0;
    assert(view.take(0) =~= Seq::empty());
    while i < transactions.len()
        invariant
            i <= transactions.len(),
            accounts.wf(),
            assets.wf(),
            view == transactions_view(transactions@),
            start == (LedgerView { accounts: old(accounts)@, assets: old(assets)@ }),
            apply_transactions(view.take(i as int), start) == Ok::<LedgerView, LedgerError>(
                LedgerView { accounts: accounts@, assets: assets@ },
            ),
        decreases transactions.len() - i,
    {
        assert(view.take(i + 1).drop_last() =~= view.take(i as int));
        assert(view.take(i + 1).last() == transactions@[i as int]@);
        match execute_commands(&transactions[i].commands, accounts, assets) {
            Ok(()) => {},
            Err(error) => {
                proof {
                    assert(apply_transactions(view.take(i + 1), start) is Err);
                    lemma_apply_transactions_error_sticks(view, i + 1, start);
                    lemma_reached_by_transactions_sticks(view, i + 1, start);
                }
                return Err(error);
            },
        }
        i += 1;
    }
    proof {
        assert(view.take(transactions.len() as int) =~= view);
        lemma_reached_by_transactions_that_apply(view, start);
    }
    Ok(())
}

/// The chain of accepted blocks and the ledger they made.
pub struct Storage {
    id: u64,
    strict: bool,
    blockchain: Vec<Block>,
    accounts: Accounts,
    assets: Assets,
}

impl View for Storage {
    type V = StorageView;

    closed spec fn view(&self) -> StorageView {
        StorageView {
            id: self.id,
            strict: self.strict,
            chain: blocks_view(self.blockchain@),
            ledger: LedgerView { accounts: self.accounts@, assets: self.assets@ },
        }
    }
}

impl Storage {
    /// The chain is valid and the accounts and assets are well formed.
    pub closed spec fn wf(&self) -> bool {
        &&& valid_chain(blocks_view(self.blockchain@))
        &&& self.strict ==> numbered(blocks_view(self.blockchain@))
        &&& self.accounts.wf()
        &&& self.assets.wf()
    }

    /// The numbers under which the accounts are stored.
    pub closed spec fn account_ids(&self) -> Set<u32> {
        self.accounts.ids()
    }

    /// The chain of a storage is always a valid chain.
    pub proof fn lemma_chain_is_valid(&self)
        requires
            self.wf(),
        ensures
            valid_chain(self@.chain),
    {
    }

    /// Every block of the chain but the first names the hash of the block
    /// before it.
    pub proof fn lemma_blocks_are_linked(&self, i: int)
        requires
            self.wf(),
            0 < i < self@.chain.len(),
        ensures
            self@.chain[i].previous_block_hash == Some(self@.chain[i - 1].hash),
    {
    }

    /// The hash of every block of the chain meets the difficulty.
    pub proof fn lemma_hashes_meet_difficulty(&self, i: int)
        requires
            self.wf(),
            0 <= i < self@.chain.len(),
        ensures
            meets_difficulty(self@.chain[i].hash, DIFFICULTY as nat),
    {
        if i > 0 {
            assert(extends(self@.chain[i - 1], self@.chain[i]));
        }
    }

    /// The hash of every block of the chain is the SHA-256 digest of the
    /// canonical bytes of the block without its hash.
    pub proof fn lemma_hashes_are_digests(&self, i: int)
        requires
            self.wf(),
            0 <= i < self@.chain.len(),
        ensures
            self@.chain[i].hash == sha256(hashed_block(self@.chain[i]).form()),
    {
        if i > 0 {
            assert(extends(self@.chain[i - 1], self@.chain[i]));
        }
    }

    /// No block of the chain holds more transactions than allowed.
    pub proof fn lemma_blocks_are_bounded(&self, i: int)
        requires
            self.wf(),
            0 <= i < self@.chain.len(),
        ensures
            self@.chain[i].transactions.len() <= MAX_TRANSACTIONS_IN_BLOCK,
    {
        if i > 0 {
            assert(extends(self@.chain[i - 1], self@.chain[i]));
        }
    }

    /// In a storage that is strict about block numbers, every block of the
    /// chain but the first carries the number after the number of the block
    /// before it.
    pub proof fn lemma_strict_numbers_are_consecutive(&self, i: int)
        requires
            self.wf(),
            self@.strict,
            0 < i < self@.chain.len(),
        ensures
            self@.chain[i].id == self@.chain[i - 1].id + 1,
    {
    }

    /// Every block of the chain but the first is strictly later than the
    /// block before it, and both are moments of the calendar.
    pub proof fn lemma_timestamps_increase(&self, i: int)
        requires
            self.wf(),
            0 < i < self@.chain.len(),
        ensures
            self@.chain[i - 1].timestamp < self@.chain[i].timestamp,
            utc_day_time(self@.chain[i - 1].timestamp) is Some,
            utc_day_time(self@.chain[i].timestamp) is Some,
    {
    }

    /// The account numbers of a storage are always a gapless run from 1.
    pub proof fn lemma_account_ids_contiguous(&self)
        requires
            self.wf(),
        ensures
            forall|id: u32| self.account_ids().contains(id) <==> 1 <= id <= self@.ledger.accounts.len(),
    {
        self.accounts.lemma_ids_contiguous();
    }

    /// What an empty storage for the node `id` looks like.
    pub open spec fn empty_view(id: u64, strict: bool) -> StorageView {
        StorageView {
            id,
            strict,
            chain: Seq::empty(),
            ledger: LedgerView { accounts: Seq::empty(), assets: Map::empty() },
        }
    }

    /// What an empty storage for the node `id` looks like that takes blocks
    /// whatever their numbers.
    pub open spec fn new_view(id: u64) -> StorageView {
        Self::empty_view(id, false)
    }

    /// An empty storage for the node `id`. It takes a block that follows the
    /// tip whatever number the block carries.
    pub fn new(id: u64) -> (storage: Storage)
        ensures
            storage.wf(),
            storage@ == Self::new_view(id),
    {
        let storage = Storage {
            id,
            strict: false,
            blockchain: Vec::new(),
            accounts: Accounts::new(),
            assets: Assets::new(),
        };
        assert(blocks_view(storage.blockchain@) =~= Seq::empty());
        storage
    }

    /// An empty storage for the node `id` that is strict about block
    /// numbers: a block must carry the number after the number of the tip.
    pub fn new_strict(id: u64) -> (storage: Storage)
        ensures
            storage.wf(),
            storage@ == Self::empty_view(id, true),
    {
        let storage = Storage {
            id,
            strict: true,
            blockchain: Vec::new(),
            accounts: Accounts::new(),
            assets: Assets::new(),
        };
        assert(blocks_view(storage.blockchain@) =~= Seq::empty());
        storage
    }

    /// Whether the storage is strict about block numbers.
    pub fn is_strict(&self) -> (strict: bool)
        ensures
            strict == self@.strict,
    {
        self.strict
    }

    /// The node this storage belongs to.
    pub fn id(&self) -> (id: u64)
        ensures
            id == self@.id,
    {
        self.id
    }

    /// The accounts.
    pub fn accounts(&self) -> (accounts: &Accounts)
        ensures
            accounts@ == self@.ledger.accounts,
            self.wf() ==> accounts.wf(),
    {
        &self.accounts
    }

    /// The assets.
    pub fn assets(&self) -> (assets: &Assets)
        ensures
            assets@ == self@.ledger.assets,
            self.wf() ==> assets.wf(),
    {
        &self.assets
    }

    /// The chain, oldest block first.
    pub fn get_blockchain_by_ref(&self) -> (chain: &Vec<Block>)
        ensures
            blocks_view(chain@) == self@.chain,
            self.wf() ==> valid_chain(blocks_view(chain@)),
    {
        &self.blockchain
    }

    /// Whether the block carries the hash that the hash rule asks for.
    pub fn validate_hash(block: &Block) -> (valid: bool)
        ensures
            valid == valid_hash(block@),
    {
        let mut hashed = block.clone();
        hashed.hash = Vec::new();
        assert(hashed@ == hashed_block(block@));
        let digest = digest_of_block(&hashed);
        bytes_equal(digest.as_slice(), block.hash.as_slice())
    }

    /// Whether the block is sealed.
    pub fn validate_seal(block: &Block) -> (valid: bool)
        ensures
            valid == sealed(block@),
    {
        if block.transactions.len() > MAX_TRANSACTIONS_IN_BLOCK {
            return false;
        }
        if !Self::validate_hash(block) {
            return false;
        }
        is_hash_valid(&block.hash, DIFFICULTY)
    }

    /// Whether `block` follows `previous_block`.
    pub fn validate_block(block: &Block, previous_block: &Block) -> (valid: bool)
        ensures
            valid == extends(previous_block@, block@),
    {
        let names_previous = match &block.previous_block_hash {
            Some(named) => bytes_equal(named.as_slice(), previous_block.hash.as_slice()),
            None => false,
        };
        if !names_previous {
            return false;
        }
        let in_order = match (
            convert_timestamp_to_day_time(previous_block.timestamp),
            convert_timestamp_to_day_time(block.timestamp),
        ) {
            (Some(before), Some(after)) => after.is_after(&before),
            _ => false,
        };
        if !in_order {
            return false;
        }
        Self::validate_seal(block)
    }

    /// Whether each block of `remote_block_chain` but the first follows the
    /// one before it.
    pub fn validate_chain(remote_block_chain: &Vec<Block>) -> (valid: bool)
        ensures
            valid == linked(blocks_view(remote_block_chain@)),
    {
        let ghost chain = blocks_view(remote_block_chain@);
        let mut i: usize = 1;
        while i < remote_block_chain.len()
            invariant
                1 <= i,
                chain == blocks_view(remote_block_chain@),
                forall|j: int| 0 < j < i && j < chain.len() ==> extends(chain[j - 1], #[trigger] chain[j]),
            decreases remote_block_chain.len() - i,
        {
            if !Self::validate_block(&remote_block_chain[i], &remote_block_chain[i - 1]) {
                assert(!extends(chain[i - 1], chain[i as int]));
                return false;
            }
            i += 1;
        }
        true
    }

    /// Credits the reward for a block.
    fn reward_for_mined_block(&mut self)
        requires
            old(self).wf(),
        ensures
            final(self).wf(),
            final(self)@ == (StorageView {
                id: old(self)@.id,
                strict: old(self)@.strict,
                chain: old(self)@.chain,
                ledger: rewarded(old(self)@.ledger),
            }),
    {
        let coin = NATIVE_COIN.to_owned();
        let held: u32 = match self.assets.get(REWARD_ACCOUNT_ID, &coin) {
            Some(asset) => asset.value(),
            None => 0,
        };
        let credited: u32 = held.saturating_add(BLOCK_REWARD);
        self.assets.insert(REWARD_ACCOUNT_ID, coin, Asset::new_with_value(credited));
    }

    /// Takes `block` as the first block of the chain, if it is a valid one.
    fn try_add_genesis_block(&mut self, block: Block) -> (result: Result<(), LedgerError>)
        requires
            old(self).wf(),
            old(self)@.chain.len() == 0,
        ensures
            final(self).wf(),
            match append_block(old(self)@, block@) {
                Ok(next) => result is Ok && final(self)@ == next,
                Err(error) => result == Err::<(), LedgerError>(error) && final(self)@ == old(self)@,
            },
    {
        if block.previous_block_hash.is_some() {
            return Err(LedgerError::BlockError);
        }
        if block.id > 1 {
            return Err(LedgerError::BlockError);
        }
        if !Self::validate_seal(&block) {
            return Err(LedgerError::BlockError);
        }
        let ghost before = blocks_view(self.blockchain@);
        self.blockchain.push(block);
        assert(blocks_view(self.blockchain@) =~= seq![block@]);
        Ok(())
    }

    /// Whether `block` may stand at the end of the chain, whatever its
    /// commands do.
    pub fn check_block(&self, block: &Block) -> (fitting: bool)
        ensures
            fitting == fits(self@, block@),
    {
        let height = self.blockchain.len();
        if height == 0 {
            return block.previous_block_hash.is_none() && block.id <= 1 && Self::validate_seal(
                block,
            );
        }
        assert(blocks_view(self.blockchain@).last() == self.blockchain@[height - 1]@);
        let tip = &self.blockchain[height - 1];
        if !Self::validate_block(block, tip) {
            return false;
        }
        if self.strict {
            if tip.id == u64::MAX || block.id != tip.id + 1 {
                return false;
            }
        }
        true
    }

    /// Offers `block` to the chain. The block is appended and applied as a
    /// whole or not at all: on an error, which is always `BlockError`, the
    /// storage is as it was.
    pub fn try_add_block(&mut self, block: Block) -> (result: Result<(), LedgerError>)
        requires
            old(self).wf(),
        ensures
            final(self).wf(),
            match append_block(old(self)@, block@) {
                Ok(next) => result is Ok && final(self)@ == next,
                Err(error) => result == Err::<(), LedgerError>(error) && final(self)@ == old(self)@,
            },
    {
        let height = self.blockchain.len();
        if height == 0 {
            return self.try_add_genesis_block(block);
        }
        let ghost chain = blocks_view(self.blockchain@);
        assert(chain.last() == self.blockchain@[height - 1]@);
        if !self.check_block(&block) {
            return Err(LedgerError::BlockError);
        }
        let mut accounts = self.accounts.clone();
        let mut assets = self.assets.clone();
        match execute_transactions(&block.transactions, &mut accounts, &mut assets) {
            Ok(()) => {},
            Err(_) => {
                return Err(LedgerError::BlockError);
            },
        }
        self.accounts = accounts;
        self.assets = assets;
        self.blockchain.push(block);
        assert(blocks_view(self.blockchain@) =~= chain.push(block@));
        self.reward_for_mined_block();
        Ok(())
    }
}

} // verus!
