//! The miner: the search for a proof of work, and the decisions of the two
//! loops that a node runs around it.
//!
//! The miner hashes candidates that carry the nonce under trial and no hash,
//! and hands out the first one whose digest meets the difficulty, with that
//! nonce and that digest. The storage checks a block by the same rule: it
//! clears the hash, hashes, and compares.

use crate::crypto::{
    debug_text, ed25519_signature, generate_key_pair, is_hash_valid, meets_difficulty, sha256,
    paired, sign, transactions_debug_text, KeyPair, PrivateKey, DIFFICULTY, DIGEST_LENGTH,
};
use crate::errors::LedgerError;
use crate::network::{Data, DataView};
use crate::pool::{highest_batch, TransactionPool, BATCH_SIZE};
use crate::state::{
    blocks_view, optional_bytes_view, transactions_view, Block, BlockView, Transaction,
    TransactionView, MAX_TRANSACTIONS_IN_BLOCK,
};
use crate::storage::{
    append_block, digest_of_block, extends, fits, hashed_block, later, valid_genesis,
    valid_hash, Storage, StorageView,
};
use crate::codec::Wire;
use crate::time::chrono_now;
use vstd::multiset::Multiset;
use vstd::prelude::*;

verus! {

/// The candidate that a template gives for a nonce: the template without a
/// hash, carrying that nonce.
pub open spec fn candidate(template: BlockView, nonce: u32) -> BlockView {
    BlockView {
        id: template.id,
        timestamp: template.timestamp,
        nonce,
        signature: template.signature,
        hash: Seq::empty(),
        previous_block_hash: template.previous_block_hash,
        transactions: template.transactions,
    }
}

/// The digest of the candidate for a nonce.
pub open spec fn attempt_digest(template: BlockView, nonce: u32) -> Seq<u8> {
    sha256(candidate(template, nonce).form())
}

/// Whether the candidate for a nonce meets the difficulty.
pub open spec fn solves(template: BlockView, nonce: u32, zero_count: nat) -> bool {
    meets_difficulty(attempt_digest(template, nonce), zero_count)
}

/// Whether no nonce at all gives the template a candidate that meets the
/// difficulty.
pub open spec fn unsolvable(template: BlockView, zero_count: nat) -> bool {
    forall|nonce: u32| !solves(template, nonce, zero_count)
}

/// What makes `block` the block mined from `template`: it is the template
/// with the lowest nonce whose candidate meets the difficulty, and carries
/// the digest of that candidate as its hash.
pub open spec fn mined_from(template: BlockView, block: BlockView, zero_count: nat) -> bool {
    &&& hashed_block(block) == candidate(template, block.nonce)
    &&& block.hash == attempt_digest(template, block.nonce)
    &&& block.hash.len() == DIGEST_LENGTH
    &&& solves(template, block.nonce, zero_count)
    &&& forall|nonce: u32| nonce < block.nonce ==> !solves(template, nonce, zero_count)
}

/// A mined block obeys the hash rule and meets the difficulty it was mined for.
pub proof fn lemma_mined_block_is_sealed(template: BlockView, block: BlockView, zero_count: nat)
    requires
        mined_from(template, block, zero_count),
    ensures
        valid_hash(block),
        meets_difficulty(block.hash, zero_count),
{
}

/// A block mined at the difficulty of the chain from a template that names
/// the hash of a tip, is strictly later than the tip and holds no more
/// transactions than a block may, follows that tip.
pub proof fn lemma_mined_block_follows_tip(template: BlockView, block: BlockView, tip: BlockView)
    requires
        mined_from(template, block, DIFFICULTY as nat),
        template.previous_block_hash == Some(tip.hash),
        later(tip.timestamp, template.timestamp),
        template.transactions.len() <= MAX_TRANSACTIONS_IN_BLOCK,
    ensures
        extends(tip, block),
{
}

/// A block mined at the difficulty of the chain from a template without a
/// predecessor, numbered 0 or 1 and holding no more transactions than a
/// block may, is a valid first block.
pub proof fn lemma_mined_block_starts_chain(template: BlockView, block: BlockView)
    requires
        mined_from(template, block, DIFFICULTY as nat),
        template.previous_block_hash is None,
        template.id <= 1,
        template.transactions.len() <= MAX_TRANSACTIONS_IN_BLOCK,
    ensures
        valid_genesis(block),
{
}

/// Searches the nonces from 0 upwards for the first whose candidate meets
/// the difficulty, and gives the template with that nonce and the digest
/// found; `None` where no nonce does.
pub fn seal_block(template: Block, target_hash_zero_count: usize) -> (result: Option<Block>)
    ensures
        match result {
            Some(block) => mined_from(template@, block@, target_hash_zero_count as nat),
            None => unsolvable(template@, target_hash_zero_count as nat),
        },
{
    let ghost start = template@;
    let mut block = template;
    block.hash = Vec::new();
    block.nonce = 0;
    let mut nonce: u32 = 0;
    loop
        invariant
            start == template@,
            block@ == candidate(start, block.nonce),
            forall|earlier: u32|
                earlier < nonce ==> !solves(start, earlier, target_hash_zero_count as nat),
        decreases u32::MAX - nonce,
    {
        block.nonce = nonce;
        let digest = digest_of_block(&block);
        if is_hash_valid(&digest, target_hash_zero_count) {
            block.hash = digest;
            return Some(block);
        }
        if nonce == u32::MAX {
            assert forall|any: u32| !solves(start, any, target_hash_zero_count as nat) by {
                if any < nonce {
                } else {
                    assert(any == nonce);
                }
            }
            return None;
        }
        nonce += 1;
    }
}

/// The number of the block after the one numbered `previous`: 0 for the
/// first block, one more otherwise; `None` where the numbers run out.
pub open spec fn next_id(previous: Option<u64>) -> Option<u64> {
    match previous {
        Some(id) => if id < u64::MAX {
            Some((id + 1) as u64)
        } else {
            None
        },
        None => Some(0),
    }
}

/// The template of a block: every field but the nonce and the hash.
pub open spec fn template_of(
    id: u64,
    timestamp: i64,
    signature: Seq<u8>,
    previous_block_hash: Option<Seq<u8>>,
    transactions: Seq<TransactionView>,
) -> BlockView {
    BlockView {
        id,
        timestamp,
        nonce: 0,
        signature,
        hash: Seq::empty(),
        previous_block_hash,
        transactions,
    }
}

/// Mines the block that follows the one with `previous_block_id` and
/// `previous_block_hash`, stamped with `timestamp` and signed with
/// `signature`; `None` where the block numbers have run out or no nonce meets
/// the difficulty.
pub fn mine_block_with(
    timestamp: i64,
    signature: Vec<u8>,
    target_hash_zero_count: usize,
    previous_block_hash: Option<Vec<u8>>,
    previous_block_id: Option<u64>,
    transactions: Vec<Transaction>,
) -> (result: Option<Block>)
    ensures
        match next_id(previous_block_id) {
            None => result is None,
            Some(id) => {
                let template = template_of(
                    id,
                    timestamp,
                    signature@,
                    optional_bytes_view(previous_block_hash),
                    transactions_view(transactions@),
                );
                match result {
                    Some(block) => mined_from(template, block@, target_hash_zero_count as nat),
                    None => unsolvable(template, target_hash_zero_count as nat),
                }
            },
        },
{
    let id: u64 = match previous_block_id {
        Some(previous) => {
            if previous == u64::MAX {
                return None;
            }
            previous + 1
        },
        None => 0,
    };
    let template = Block {
        id,
        timestamp,
        nonce: 0,
        signature,
        hash: Vec::new(),
        previous_block_hash,
        transactions,
    };
    assert(template@ == template_of(
        id,
        timestamp,
        signature@,
        optional_bytes_view(previous_block_hash),
        transactions_view(transactions@),
    ));
    seal_block(template, target_hash_zero_count)
}

/// What the miner needs to mine the next block: the tip it extends and the
/// transactions it packs.
#[derive(Debug)]
pub struct MiningJob {
    pub previous_block_hash: Option<Vec<u8>>,
    pub previous_block_id: Option<u64>,
    pub transactions: Vec<Transaction>,
}

/// The number of the last block of a chain, if it has one.
pub open spec fn tip_id(chain: Seq<BlockView>) -> Option<u64> {
    if chain.len() == 0 {
        None
    } else {
        Some(chain.last().id)
    }
}

/// The hash of the last block of a chain, if it has one.
pub open spec fn tip_hash(chain: Seq<BlockView>) -> Option<Seq<u8>> {
    if chain.len() == 0 {
        None
    } else {
        Some(chain.last().hash)
    }
}

/// The miner of a node: its keys, the pool of waiting transactions and the
/// storage it extends.
pub struct Miner {
    id: u64,
    public_key: Vec<u8>,
    private_key: PrivateKey,
    transaction_pool: TransactionPool,
    storage: Storage,
}

/// The miner as contracts see it.
pub struct MinerView {
    pub id: u64,
    pub public_key: Seq<u8>,
    pub private_key: Seq<u8>,
    pub pool: Multiset<TransactionView>,
    pub storage: StorageView,
}

impl View for Miner {
    type V = MinerView;

    closed spec fn view(&self) -> MinerView {
        MinerView {
            id: self.id,
            public_key: self.public_key@,
            private_key: self.private_key@,
            pool: self.transaction_pool@,
            storage: self.storage@,
        }
    }
}

impl Miner {
    /// The pool and the storage are well formed.
    pub closed spec fn wf(&self) -> bool {
        self.transaction_pool.wf() && self.storage.wf()
    }

    /// The private key of the miner.
    pub open spec fn key(&self) -> Seq<u8> {
        self@.private_key
    }

    /// The public key of the miner.
    pub open spec fn public(&self) -> Seq<u8> {
        self@.public_key
    }

    /// A miner for the node `id` with the given keys, an empty pool and an
    /// empty storage.
    pub fn with_key_pair(id: u64, keys: KeyPair) -> (miner: Miner)
        ensures
            miner.wf(),
            miner.key() == keys.private_key@,
            miner.public() == keys.public_key@,
            miner@.id == id,
            miner@.pool == Multiset::<TransactionView>::empty(),
            miner@.storage == Storage::new_view(id),
    {
        Miner {
            id,
            public_key: keys.public_key,
            private_key: keys.private_key,
            transaction_pool: TransactionPool::new(),
            storage: Storage::new(id),
        }
    }

    /// A miner for the node `id` with fresh keys, an empty pool and an empty
    /// storage. There always is one, since keys can always be drawn; the keys
    /// are a key pair as it is laid out in memory, and which keys they are is
    /// up to the random source.
    pub fn new(id: u64) -> (miner: Option<Miner>)
        ensures
            miner is Some,
            miner matches Some(m) ==> {
                &&& m.wf()
                &&& m@.id == id
                &&& m@.pool == Multiset::<TransactionView>::empty()
                &&& m@.storage == Storage::new_view(id)
                &&& paired(m.public(), m.key())
            },
    {
        match generate_key_pair() {
            Some(keys) => Some(Self::with_key_pair(id, keys)),
            None => None,
        }
    }

    /// The node this miner belongs to.
    pub fn id(&self) -> (id: u64)
        ensures
            id == self@.id,
    {
        self.id
    }

    /// The public key of the miner.
    pub fn public_key(&self) -> (key: &Vec<u8>)
        ensures
            key@ == self.public(),
    {
        &self.public_key
    }

    /// The private key of the miner.
    pub fn private_key(&self) -> (key: &PrivateKey)
        ensures
            key@ == self.key(),
    {
        &self.private_key
    }

    /// The storage that the miner extends.
    pub fn storage(&self) -> (storage: &Storage)
        ensures
            storage@ == self@.storage,
            self.wf() ==> storage.wf(),
    {
        &self.storage
    }

    /// The number of transactions that wait in the pool.
    pub fn pool_len(&self) -> (count: usize)
        ensures
            count == self@.pool.len(),
    {
        self.transaction_pool.len()
    }

    /// Puts a transaction into the pool.
    pub fn add_transaction_to_pool(&mut self, transaction: Transaction)
        requires
            old(self).wf(),
        ensures
            final(self).wf(),
            final(self).key() == old(self).key(),
            final(self).public() == old(self).public(),
            final(self)@ == (MinerView {
                id: old(self)@.id,
                public_key: old(self)@.public_key,
                private_key: old(self)@.private_key,
                pool: old(self)@.pool.insert(transaction@),
                storage: old(self)@.storage,
            }),
    {
        self.transaction_pool.add_transaction_to_pool(transaction);
    }

    /// Offers a block to the storage.
    pub fn add_block_to_storage(&mut self, block: Block) -> (result: Result<(), LedgerError>)
        requires
            old(self).wf(),
        ensures
            final(self).wf(),
            final(self).key() == old(self).key(),
            final(self).public() == old(self).public(),
            final(self)@.id == old(self)@.id,
            final(self)@.pool == old(self)@.pool,
            match append_block(old(self)@.storage, block@) {
                Ok(next) => result is Ok && final(self)@.storage == next,
                Err(error) => result == Err::<(), LedgerError>(error) && final(self)@.storage
                    == old(self)@.storage,
            },
    {
        self.storage.try_add_block(block)
    }

    /// One step of the listening loop: a block from a peer is offered to the
    /// storage, a transaction from a client is put into the pool, and any
    /// other value is turned away as a wrong command and leaves the miner as
    /// it was.
    pub fn receive(&mut self, data: Data) -> (result: Result<(), LedgerError>)
        requires
            old(self).wf(),
        ensures
            final(self).wf(),
            final(self).key() == old(self).key(),
            final(self).public() == old(self).public(),
            final(self)@.id == old(self)@.id,
            match data@ {
                DataView::Block(block) => final(self)@.pool == old(self)@.pool && (match append_block(
                    old(self)@.storage,
                    block,
                ) {
                    Ok(next) => result is Ok && final(self)@.storage == next,
                    Err(error) => result == Err::<(), LedgerError>(error) && final(self)@.storage
                        == old(self)@.storage,
                }),
                DataView::Transaction(transaction) => result is Ok && final(self)@.storage == old(self)@.storage && final(self)@.pool == old(self)@.pool.insert(transaction),
                _ => result == Err::<(), LedgerError>(LedgerError::WrongCommandError) && final(self)@ == old(self)@,
            },
    {
        match data {
            Data::Block(block) => self.storage.try_add_block(block),
            Data::Transaction(transaction) => {
                self.transaction_pool.add_transaction_to_pool(transaction);
                Ok(())
            },
            _ => Err(LedgerError::WrongCommandError),
        }
    }

    /// The first steps of a round of the mining loop: reads the tip and
    /// takes the batch of the highest fees out of the pool. Where the pool
    /// holds fewer transactions than a batch, nothing is taken and there is
    /// no job yet.
    pub fn next_job(&mut self) -> (job: Option<MiningJob>)
        requires
            old(self).wf(),
        ensures
            final(self).wf(),
            final(self).key() == old(self).key(),
            final(self).public() == old(self).public(),
            final(self)@.id == old(self)@.id,
            final(self)@.storage == old(self)@.storage,
            match job {
                Some(job) => {
                    &&& old(self)@.pool.len() >= BATCH_SIZE
                    &&& highest_batch(old(self)@.pool, final(self)@.pool, job.transactions@)
                    &&& job.previous_block_id == tip_id(old(self)@.storage.chain)
                    &&& optional_bytes_view(job.previous_block_hash) == tip_hash(
                        old(self)@.storage.chain,
                    )
                },
                None => old(self)@.pool.len() < BATCH_SIZE && final(self)@.pool == old(self)@.pool,
            },
    {
        let transactions = match self.transaction_pool.poll() {
            Some(transactions) => transactions,
            None => return None,
        };
        let chain = self.storage.get_blockchain_by_ref();
        let height = chain.len();
        if height == 0 {
            Some(MiningJob { previous_block_hash: None, previous_block_id: None, transactions })
        } else {
            let tip = &chain[height - 1];
            assert(blocks_view(chain@).last() == tip@);
            Some(
                MiningJob {
                    previous_block_hash: Some(tip.hash.clone()),
                    previous_block_id: Some(tip.id),
                    transactions,
                },
            )
        }
    }

    /// Mines a block: numbers it after `previous_block_id`, stamps it with
    /// the current time, signs its transactions with `private_key`, and
    /// searches for the nonce. There is no block where the key is no key
    /// pair, the block numbers have run out, or no nonce meets the
    /// difficulty at the time the clock gave.
    pub fn mine_block(
        private_key: &PrivateKey,
        target_hash_zero_count: usize,
        previous_block_hash: Option<Vec<u8>>,
        previous_block_id: Option<u64>,
        transactions: Vec<Transaction>,
    ) -> (result: Option<Block>)
        ensures
            next_id(previous_block_id) is None ==> result is None,
            ed25519_signature(debug_text(transactions_view(transactions@)), private_key@) is None
                ==> result is None,
            result is None ==> {
                ||| next_id(previous_block_id) is None
                ||| ed25519_signature(
                    debug_text(transactions_view(transactions@)),
                    private_key@,
                ) is None
                ||| exists|timestamp: i64| #[trigger]
                    unsolvable(
                        template_of(
                            next_id(previous_block_id)->0,
                            timestamp,
                            ed25519_signature(
                                debug_text(transactions_view(transactions@)),
                                private_key@,
                            )->0,
                            optional_bytes_view(previous_block_hash),
                            transactions_view(transactions@),
                        ),
                        target_hash_zero_count as nat,
                    )
            },
            result matches Some(block) ==> {
                &&& next_id(previous_block_id) == Some(block.id)
                &&& ed25519_signature(debug_text(transactions_view(transactions@)), private_key@) == Some(
                    block.signature@,
                )
                &&& block@.previous_block_hash == optional_bytes_view(previous_block_hash)
                &&& block@.transactions == transactions_view(transactions@)
                &&& mined_from(
                    template_of(
                        block.id,
                        block.timestamp,
                        block.signature@,
                        block@.previous_block_hash,
                        block@.transactions,
                    ),
                    block@,
                    target_hash_zero_count as nat,
                )
                &&& valid_hash(block@)
                &&& meets_difficulty(block@.hash, target_hash_zero_count as nat)
            },
    {
        let message = transactions_debug_text(&transactions);
        let signature = match sign(message.as_slice(), private_key) {
            Some(signature) => signature,
            None => return None,
        };
        let timestamp = chrono_now();
        let ghost signed = signature@;
        assert(ed25519_signature(debug_text(transactions_view(transactions@)), private_key@)
            == Some(signed));
        let result = mine_block_with(
            timestamp,
            signature,
            target_hash_zero_count,
            previous_block_hash,
            previous_block_id,
            transactions,
        );
        proof {
            if result is None && next_id(previous_block_id) is Some {
                let template = template_of(
                    next_id(previous_block_id)->0,
                    timestamp,
                    ed25519_signature(
                        debug_text(transactions_view(transactions@)),
                        private_key@,
                    )->0,
                    optional_bytes_view(previous_block_hash),
                    transactions_view(transactions@),
                );
                assert(unsolvable(template, target_hash_zero_count as nat));
            }
        }
        result
    }

    /// The last steps of a round of the mining loop: offers the mined block
    /// to the storage. An accepted block is handed back for the other peers.
    /// A block that does not fit the end of the chain, as when the tip has
    /// moved meanwhile, gives its transactions back to the pool; a block
    /// that fits but holds a failing command is dropped with its
    /// transactions. Either way the error is `BlockError`.
    pub fn finish_job(&mut self, block: Block) -> (result: Result<Data, LedgerError>)
        requires
            old(self).wf(),
        ensures
            final(self).wf(),
            final(self).key() == old(self).key(),
            final(self).public() == old(self).public(),
            final(self)@.id == old(self)@.id,
            match append_block(old(self)@.storage, block@) {
                Ok(next) => {
                    &&& result matches Ok(data)
                    &&& data@ == DataView::Block(block@)
                    &&& final(self)@.storage == next
                    &&& final(self)@.pool == old(self)@.pool
                },
                Err(error) => {
                    &&& result matches Err(found)
                    &&& found == error
                    &&& error == LedgerError::BlockError
                    &&& final(self)@.storage == old(self)@.storage
                    &&& final(self)@.pool == if fits(old(self)@.storage, block@) {
                        old(self)@.pool
                    } else {
                        old(self)@.pool.add(block@.transactions.to_multiset())
                    }
                },
            },
    {
        if !self.storage.check_block(&block) {
            self.transaction_pool.add_all(block.transactions);
            return Err(LedgerError::BlockError);
        }
        let offered = block.clone();
        match self.storage.try_add_block(offered) {
            Ok(()) => Ok(Data::Block(block)),
            Err(error) => Err(error),
        }
    }
}

} // verus!
