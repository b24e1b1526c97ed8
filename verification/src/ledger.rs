//! The state that blocks act on: the accounts, the assets they hold, and
//! what each command does to them.

use crate::errors::LedgerError;
use crate::state::{Account, Asset, Command, CommandView};
use std::collections::HashMap;
use vstd::prelude::*;

verus! {

broadcast use vstd::std_specs::hash::group_hash_axioms;

/// The accounts of the ledger, each under the number it got when it was
/// created: the first account is number 1, the next number 2, and so on.
pub struct Accounts {
    entries: HashMap<u32, Account>,
    count: u32,
}

impl View for Accounts {
    type V = Seq<Seq<char>>;

    /// The public keys of the accounts in the order of their creation:
    /// account number `n` stands at index `n - 1`.
    closed spec fn view(&self) -> Seq<Seq<char>> {
        Seq::new(self.count as nat, |i: int| self.entries@[(i + 1) as u32]@)
    }
}

impl Accounts {
    /// The numbers under which accounts are stored.
    pub closed spec fn ids(&self) -> Set<u32> {
        self.entries@.dom()
    }

    /// The numbers in use are exactly 1 up to the number of accounts.
    pub closed spec fn wf(&self) -> bool {
        forall|id: u32| self.entries@.contains_key(id) <==> 1 <= id <= self.count
    }

    /// Account numbers are a gapless run that starts at 1.
    pub proof fn lemma_ids_contiguous(&self)
        requires
            self.wf(),
        ensures
            forall|id: u32| self.ids().contains(id) <==> 1 <= id <= self@.len(),
    {
    }

    /// No accounts.
    pub fn new() -> (accounts: Accounts)
        ensures
            accounts.wf(),
            accounts@ == Seq::<Seq<char>>::empty(),
    {
        let accounts = Accounts { entries: HashMap::new(), count: 0 };
        assert(accounts@ =~= Seq::<Seq<char>>::empty());
        accounts
    }

    /// The number of accounts.
    pub fn len(&self) -> (count: u32)
        ensures
            count == self@.len(),
    {
        self.count
    }

    /// The account with the number `id`, if there is one.
    pub fn get(&self, id: u32) -> (account: Option<&Account>)
        requires
            self.wf(),
        ensures
            match account {
                Some(found) => 1 <= id <= self@.len() && found@ == self@[id - 1],
                None => !(1 <= id <= self@.len()),
            },
    {
        self.entries.get(&id)
    }

    /// Creates an account for the holder of `public_key` and gives its
    /// number, or gives `None` and changes nothing where every number is taken.
    pub fn create(&mut self, public_key: String) -> (id: Option<u32>)
        requires
            old(self).wf(),
        ensures
            final(self).wf(),
            match id {
                Some(id) => id == old(self)@.len() + 1 && final(self)@ == old(self)@.push(
                    public_key@,
                ),
                None => old(self)@.len() == u32::MAX && final(self)@ == old(self)@,
            },
    {
        if self.count == u32::MAX {
            return None;
        }
        let id: u32 = self.count + 1;
        let ghost before = self@;
        self.entries.insert(id, Account::new(public_key));
        self.count = id;
        assert(self@ =~= before.push(public_key@));
        Some(id)
    }
}

impl Clone for Accounts {
    fn clone(&self) -> (copy: Accounts)
        ensures
            self.wf() ==> copy.wf(),
            copy@ == self@,
    {
        let copy = Accounts { entries: self.entries.clone(), count: self.count };
        assert(copy@ =~= self@);
        copy
    }
}

/// What an asset is filed under: the number of the account that holds it
/// and the name of the asset.
pub type AssetKey = (u32, Seq<char>);

/// One holding: an account, an asset name and the amount held.
struct AssetEntry {
    account_id: u32,
    asset_id: String,
    asset: Asset,
}

impl AssetEntry {
    /// What the holding is filed under.
    spec fn key(self) -> AssetKey {
        (self.account_id, self.asset_id@)
    }

    /// The amount held.
    spec fn value(self) -> u32 {
        self.asset@
    }
}

/// The map that a list of holdings stands for, a later holding replacing an
/// earlier one with the same key.
spec fn entries_map(entries: Seq<AssetEntry>) -> Map<AssetKey, u32>
    decreases entries.len(),
{
    if entries.len() == 0 {
        Map::empty()
    } else {
        entries_map(entries.drop_last()).insert(entries.last().key(), entries.last().value())
    }
}

/// No two holdings of the list have the same key.
spec fn unique_keys(entries: Seq<AssetEntry>) -> bool {
    forall|i: int, j: int|
        0 <= i < j < entries.len() ==> (#[trigger] entries[i]).key() != (#[trigger] entries[j]).key()
}

/// A key is in the map exactly when some holding has it.
proof fn lemma_entries_map_contains(entries: Seq<AssetEntry>, key: AssetKey)
    ensures
        entries_map(entries).contains_key(key) <==> exists|i: int|
            0 <= i < entries.len() && (#[trigger] entries[i]).key() == key,
    decreases entries.len(),
{
    if entries.len() > 0 {
        let init = entries.drop_last();
        lemma_entries_map_contains(init, key);
        if entries_map(entries).contains_key(key) {
            if entries.last().key() == key {
                assert(entries[entries.len() - 1].key() == key);
            } else {
                let i = choose|i: int| 0 <= i < init.len() && (#[trigger] init[i]).key() == key;
                assert(entries[i].key() == key);
            }
        }
        if exists|i: int| 0 <= i < entries.len() && (#[trigger] entries[i]).key() == key {
            let i = choose|i: int| 0 <= i < entries.len() && (#[trigger] entries[i]).key() == key;
            if i < init.len() {
                assert(init[i].key() == key);
            }
        }
    }
}

/// With unique keys, the map gives each holding's amount under its key.
proof fn lemma_entries_map_value(entries: Seq<AssetEntry>, i: int)
    requires
        unique_keys(entries),
        0 <= i < entries.len(),
    ensures
        entries_map(entries).contains_key(entries[i].key()),
        entries_map(entries)[entries[i].key()] == entries[i].value(),
    decreases entries.len(),
{
    let init = entries.drop_last();
    if i < entries.len() - 1 {
        assert(unique_keys(init)) by {
            assert forall|a: int, b: int| 0 <= a < b < init.len() implies (#[trigger] init[a]).key()
                != (#[trigger] init[b]).key() by {
                assert(entries[a].key() != entries[b].key());
            }
        }
        lemma_entries_map_value(init, i);
        assert(entries[i].key() != entries[entries.len() - 1].key());
        assert(init[i] == entries[i]);
    }
}

/// With unique keys, replacing a holding by one with the same key puts the
/// new amount under that key and leaves the keys unique.
proof fn lemma_entries_map_update(entries: Seq<AssetEntry>, i: int, entry: AssetEntry)
    requires
        unique_keys(entries),
        0 <= i < entries.len(),
        entry.key() == entries[i].key(),
    ensures
        unique_keys(entries.update(i, entry)),
        entries_map(entries.update(i, entry)) == entries_map(entries).insert(
            entry.key(),
            entry.value(),
        ),
    decreases entries.len(),
{
    let updated = entries.update(i, entry);
    assert(unique_keys(updated)) by {
        assert forall|a: int, b: int| 0 <= a < b < updated.len() implies (#[trigger] updated[a]).key()
            != (#[trigger] updated[b]).key() by {
            assert(entries[a].key() != entries[b].key());
        }
    }
    let init = entries.drop_last();
    if i == entries.len() - 1 {
        assert(updated.drop_last() =~= init);
        assert(entries_map(updated) =~= entries_map(entries).insert(entry.key(), entry.value()));
    } else {
        assert(unique_keys(init)) by {
            assert forall|a: int, b: int| 0 <= a < b < init.len() implies (#[trigger] init[a]).key()
                != (#[trigger] init[b]).key() by {
                assert(entries[a].key() != entries[b].key());
            }
        }
        lemma_entries_map_update(init, i, entry);
        assert(updated.drop_last() =~= init.update(i, entry));
        assert(updated.last() == entries.last());
        assert(entries[i].key() != entries[entries.len() - 1].key());
        assert(entries_map(updated) =~= entries_map(entries).insert(entry.key(), entry.value()));
    }
}

/// With unique keys, taking a holding out takes its key out of the map and
/// leaves the keys unique.
proof fn lemma_entries_map_remove(entries: Seq<AssetEntry>, i: int)
    requires
        unique_keys(entries),
        0 <= i < entries.len(),
    ensures
        unique_keys(entries.remove(i)),
        entries_map(entries.remove(i)) == entries_map(entries).remove(entries[i].key()),
    decreases entries.len(),
{
    let removed = entries.remove(i);
    assert(unique_keys(removed)) by {
        assert forall|a: int, b: int| 0 <= a < b < removed.len() implies (#[trigger] removed[a]).key()
            != (#[trigger] removed[b]).key() by {
            let a0 = if a < i { a } else { a + 1 };
            let b0 = if b < i { b } else { b + 1 };
            assert(removed[a] == entries[a0]);
            assert(removed[b] == entries[b0]);
            assert(entries[a0].key() != entries[b0].key());
        }
    }
    let init = entries.drop_last();
    assert(unique_keys(init)) by {
        assert forall|a: int, b: int| 0 <= a < b < init.len() implies (#[trigger] init[a]).key()
            != (#[trigger] init[b]).key() by {
            assert(entries[a].key() != entries[b].key());
        }
    }
    if i == entries.len() - 1 {
        assert(removed =~= init);
        lemma_entries_map_contains(init, entries[i].key());
        assert(!entries_map(init).contains_key(entries[i].key())) by {
            if entries_map(init).contains_key(entries[i].key()) {
                let j = choose|j: int|
                    0 <= j < init.len() && (#[trigger] init[j]).key() == entries[i].key();
                assert(entries[j].key() != entries[i].key());
            }
        }
        assert(entries_map(removed) =~= entries_map(entries).remove(entries[i].key()));
    } else {
        lemma_entries_map_remove(init, i);
        assert(removed.drop_last() =~= init.remove(i));
        assert(removed.last() == entries.last());
        assert(entries[i].key() != entries[entries.len() - 1].key());
        assert(entries_map(removed) =~= entries_map(entries).remove(entries[i].key()));
    }
}

/// The amounts held, each filed under an account number and an asset name.
pub struct Assets {
    entries: Vec<AssetEntry>,
}

impl View for Assets {
    type V = Map<AssetKey, u32>;

    /// The amount under each key.
    closed spec fn view(&self) -> Map<AssetKey, u32> {
        entries_map(self.entries@)
    }
}

impl Assets {
    /// Every key is filed once.
    pub closed spec fn wf(&self) -> bool {
        unique_keys(self.entries@)
    }

    /// No holdings.
    pub fn new() -> (assets: Assets)
        ensures
            assets.wf(),
            assets@ == Map::<AssetKey, u32>::empty(),
    {
        Assets { entries: Vec::new() }
    }

    /// Where the holding under the key stands in the list, if it is there.
    fn find(&self, account_id: u32, asset_id: &String) -> (index: Option<usize>)
        ensures
            match index {
                Some(i) => i < self.entries@.len() && self.entries@[i as int].key() == (
                    account_id,
                    asset_id@,
                ),
                None => forall|i: int|
                    0 <= i < self.entries@.len() ==> (#[trigger] self.entries@[i]).key() != (
                        account_id,
                        asset_id@,
                    ),
            },
    {
        let mut i: usize = 0;
        while i < self.entries.len()
            invariant
                i <= self.entries@.len(),
                forall|j: int|
                    0 <= j < i ==> (#[trigger] self.entries@[j]).key() != (account_id, asset_id@),
            decreases self.entries.len() - i,
        {
            let entry = &self.entries[i];
            if entry.account_id == account_id && entry.asset_id == *asset_id {
                return Some(i);
            }
            i += 1;
        }
        None
    }

    /// The holding of account `account_id` in asset `asset_id`, if there is one.
    pub fn get(&self, account_id: u32, asset_id: &String) -> (asset: Option<&Asset>)
        requires
            self.wf(),
        ensures
            match asset {
                Some(found) => self@.contains_key((account_id, asset_id@)) && found@ == self@[(
                    account_id,
                    asset_id@,
                )],
                None => !self@.contains_key((account_id, asset_id@)),
            },
    {
        proof {
            lemma_entries_map_contains(self.entries@, (account_id, asset_id@));
        }
        match self.find(account_id, asset_id) {
            Some(i) => {
                proof {
                    lemma_entries_map_value(self.entries@, i as int);
                }
                Some(&self.entries[i].asset)
            },
            None => None,
        }
    }

    /// Files `asset` under the key, in place of what was filed there.
    pub fn insert(&mut self, account_id: u32, asset_id: String, asset: Asset)
        requires
            old(self).wf(),
        ensures
            final(self).wf(),
            final(self)@ == old(self)@.insert((account_id, asset_id@), asset@),
    {
        let ghost before = self.entries@;
        let found = self.find(account_id, &asset_id);
        let entry = AssetEntry { account_id, asset_id, asset };
        match found {
            Some(i) => {
                proof {
                    lemma_entries_map_update(before, i as int, entry);
                }
                self.entries.set(i, entry);
            },
            None => {
                self.entries.push(entry);
                assert(self.entries@.drop_last() =~= before);
            },
        }
    }

    /// Takes out what is filed under the key, if anything.
    pub fn remove(&mut self, account_id: u32, asset_id: &String)
        requires
            old(self).wf(),
        ensures
            final(self).wf(),
            final(self)@ == old(self)@.remove((account_id, asset_id@)),
    {
        let ghost before = self.entries@;
        proof {
            lemma_entries_map_contains(before, (account_id, asset_id@));
        }
        match self.find(account_id, asset_id) {
            Some(i) => {
                proof {
                    lemma_entries_map_remove(before, i as int);
                }
                self.entries.remove(i);
            },
            None => {
                assert(self@ =~= self@.remove((account_id, asset_id@)));
            },
        }
    }
}

impl Clone for Assets {
    fn clone(&self) -> (copy: Assets)
        ensures
            self.wf() ==> copy.wf(),
            copy@ == self@,
    {
        let mut entries: Vec<AssetEntry> = Vec::new();
        let mut i: usize = 0;
        while i < self.entries.len()
            invariant
                i <= self.entries@.len(),
                entries@.len() == i,
                forall|j: int|
                    0 <= j < i ==> (#[trigger] entries@[j]).key() == self.entries@[j].key()
                        && entries@[j].value() == self.entries@[j].value(),
                entries_map(entries@) == entries_map(self.entries@.take(i as int)),
            decreases self.entries.len() - i,
        {
            let entry = &self.entries[i];
            let ghost grown = entries@;
            entries.push(
                AssetEntry {
                    account_id: entry.account_id,
                    asset_id: entry.asset_id.clone(),
                    asset: entry.asset.clone(),
                },
            );
            assert(entries@.drop_last() =~= grown);
            assert(self.entries@.take(i + 1).drop_last() =~= self.entries@.take(i as int));
            i += 1;
        }
        assert(self.entries@.take(i as int) =~= self.entries@);
        Assets { entries }
    }
}

/// The ledger as commands see it: the public keys of the accounts in the
/// order of their creation, and the amount under each asset key.
pub struct LedgerView {
    pub accounts: Seq<Seq<char>>,
    pub assets: Map<AssetKey, u32>,
}

/// What a command makes of the ledger, or the error with which it fails.
///
/// Creating an account appends it, under the next number. Adding funds files
/// the amount under the key, in place of what was there. A transfer needs
/// the source key to hold at least the amount; it then takes the source
/// holding out and files the amount under the target key.
pub open spec fn apply_command(command: CommandView, ledger: LedgerView) -> Result<
    LedgerView,
    LedgerError,
> {
    match command {
        CommandView::CreateAccount { public_key } => {
            if ledger.accounts.len() < u32::MAX {
                Ok(LedgerView { accounts: ledger.accounts.push(public_key), assets: ledger.assets })
            } else {
                Err(LedgerError::BlockError)
            }
        },
        CommandView::AddFunds { account_id, value, asset_id } => Ok(
            LedgerView {
                accounts: ledger.accounts,
                assets: ledger.assets.insert((account_id, asset_id), value),
            },
        ),
        CommandView::TransferFunds { account_from_id, account_to_id, value, asset_id } => {
            if !ledger.assets.contains_key((account_from_id, asset_id)) {
                Err(LedgerError::NoSuchAsset)
            } else if ledger.assets[(account_from_id, asset_id)] < value {
                Err(LedgerError::InsufficientFunds)
            } else {
                Ok(
                    LedgerView {
                        accounts: ledger.accounts,
                        assets: ledger.assets.remove((account_from_id, asset_id)).insert(
                            (account_to_id, asset_id),
                            value,
                        ),
                    },
                )
            }
        },
    }
}

impl Command {
    /// Applies the command to the accounts and assets. On an error nothing
    /// is changed.
    pub fn execute(&self, accounts: &mut Accounts, assets: &mut Assets) -> (result: Result<
        (),
        LedgerError,
    >)
        requires
            old(accounts).wf(),
            old(assets).wf(),
        ensures
            final(accounts).wf(),
            final(assets).wf(),
            match apply_command(
                self@,
                LedgerView { accounts: old(accounts)@, assets: old(assets)@ },
            ) {
                Ok(next) => result is Ok && final(accounts)@ == next.accounts && final(assets)@
                    == next.assets,
                Err(error) => result == Err::<(), LedgerError>(error) && final(accounts)@ == old(accounts)@ && final(assets)@ == old(assets)@,
            },
    {
        match self {
            Command::CreateAccount { public_key } => {
                match accounts.create(public_key.clone()) {
                    Some(_) => Ok(()),
                    None => Err(LedgerError::BlockError),
                }
            },
            Command::AddFunds { account_id, value, asset_id } => {
                assets.insert(*account_id, asset_id.clone(), Asset::new_with_value(*value));
                Ok(())
            },
            Command::TransferFunds { account_from_id, account_to_id, value, asset_id } => {
                let held: u32 = match assets.get(*account_from_id, asset_id) {
                    Some(asset) => asset.value(),
                    None => return Err(LedgerError::NoSuchAsset),
                };
                if held < *value {
                    return Err(LedgerError::InsufficientFunds);
                }
                assets.remove(*account_from_id, asset_id);
                assets.insert(*account_to_id, asset_id.clone(), Asset::new_with_value(*value));
                Ok(())
            },
        }
    }
}

} // verus!
