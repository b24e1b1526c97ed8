use ledger::errors::LedgerError;
use ledger::ledger::{Accounts, Assets};
use ledger::state::{
    Account, Asset, Command, BLOCK_REWARD, MAX_TRANSACTIONS_IN_BLOCK, NATIVE_COIN,
    REWARD_ACCOUNT_ID,
};

fn create_account(public_key: &str) -> Command {
    Command::CreateAccount { public_key: public_key.to_string() }
}

fn add_funds(account_id: u32, value: u32, asset_id: &str) -> Command {
    Command::AddFunds { account_id, value, asset_id: asset_id.to_string() }
}

fn transfer(from: u32, to: u32, value: u32, asset_id: &str) -> Command {
    Command::TransferFunds {
        account_from_id: from,
        account_to_id: to,
        value,
        asset_id: asset_id.to_string(),
    }
}

fn held(assets: &Assets, account_id: u32, asset_id: &str) -> Option<u32> {
    assets.get(account_id, &asset_id.to_string()).map(|asset| asset.value())
}

#[test]
fn constants_have_their_documented_values() {
    assert_eq!(MAX_TRANSACTIONS_IN_BLOCK, 100);
    assert_eq!(NATIVE_COIN, "NATIVE");
    assert_eq!(REWARD_ACCOUNT_ID, 1);
    assert_eq!(BLOCK_REWARD, 1);
}

#[test]
fn asset_holds_its_value() {
    assert_eq!(Asset::new_with_value(42).value(), 42);
    assert_eq!(Asset::new_with_value(0).clone().value(), 0);
    assert_eq!(Asset::new_with_value(u32::MAX).value(), u32::MAX);
}

#[test]
fn account_holds_its_public_key() {
    let account = Account::new("pk".to_string());
    assert_eq!(account.public_key(), "pk");
    assert_eq!(account.clone().public_key(), "pk");
}

#[test]
fn new_ledger_is_empty() {
    let accounts = Accounts::new();
    let assets = Assets::new();
    assert_eq!(accounts.len(), 0);
    assert!(accounts.get(0).is_none());
    assert!(accounts.get(1).is_none());
    assert_eq!(held(&assets, 1, "NATIVE"), None);
}

#[test]
fn create_account_numbers_accounts_from_one_without_gaps() {
    let mut accounts = Accounts::new();
    let mut assets = Assets::new();
    for i in 1..=10u32 {
        let command = create_account(&format!("pk-{}", i));
        assert_eq!(command.execute(&mut accounts, &mut assets), Ok(()));
        assert_eq!(accounts.len(), i);
    }
    assert!(accounts.get(0).is_none());
    for i in 1..=10u32 {
        assert_eq!(accounts.get(i).unwrap().public_key(), &format!("pk-{}", i));
    }
    assert!(accounts.get(11).is_none());
    assert_eq!(held(&assets, 1, "NATIVE"), None);
}

#[test]
fn accounts_create_gives_the_next_number() {
    let mut accounts = Accounts::new();
    assert_eq!(accounts.create("a".to_string()), Some(1));
    assert_eq!(accounts.create("a".to_string()), Some(2));
    assert_eq!(accounts.create("b".to_string()), Some(3));
    let copy = accounts.clone();
    assert_eq!(copy.len(), 3);
    assert_eq!(copy.get(2).unwrap().public_key(), "a");
    assert_eq!(copy.get(3).unwrap().public_key(), "b");
}

#[test]
fn add_funds_files_the_amount_in_place_of_the_old_one() {
    let mut accounts = Accounts::new();
    let mut assets = Assets::new();
    assert_eq!(add_funds(1, 5, "X").execute(&mut accounts, &mut assets), Ok(()));
    assert_eq!(held(&assets, 1, "X"), Some(5));
    assert_eq!(add_funds(1, 3, "X").execute(&mut accounts, &mut assets), Ok(()));
    assert_eq!(held(&assets, 1, "X"), Some(3));
    assert_eq!(add_funds(1, 9, "Y").execute(&mut accounts, &mut assets), Ok(()));
    assert_eq!(add_funds(2, 7, "X").execute(&mut accounts, &mut assets), Ok(()));
    assert_eq!(held(&assets, 1, "X"), Some(3));
    assert_eq!(held(&assets, 1, "Y"), Some(9));
    assert_eq!(held(&assets, 2, "X"), Some(7));
    assert_eq!(held(&assets, 2, "Y"), None);
    assert_eq!(accounts.len(), 0);
}

#[test]
fn transfer_moves_the_amount_and_takes_the_source_out() {
    let mut accounts = Accounts::new();
    let mut assets = Assets::new();
    add_funds(1, 5, "X").execute(&mut accounts, &mut assets).unwrap();
    add_funds(2, 100, "X").execute(&mut accounts, &mut assets).unwrap();
    assert_eq!(transfer(1, 2, 3, "X").execute(&mut accounts, &mut assets), Ok(()));
    assert_eq!(held(&assets, 1, "X"), None);
    assert_eq!(held(&assets, 2, "X"), Some(3));
}

#[test]
fn transfer_of_exactly_the_held_amount_succeeds() {
    let mut accounts = Accounts::new();
    let mut assets = Assets::new();
    add_funds(1, 5, "X").execute(&mut accounts, &mut assets).unwrap();
    assert_eq!(transfer(1, 2, 5, "X").execute(&mut accounts, &mut assets), Ok(()));
    assert_eq!(held(&assets, 1, "X"), None);
    assert_eq!(held(&assets, 2, "X"), Some(5));
}

#[test]
fn transfer_to_the_same_account_keeps_the_transferred_amount() {
    let mut accounts = Accounts::new();
    let mut assets = Assets::new();
    add_funds(1, 5, "X").execute(&mut accounts, &mut assets).unwrap();
    assert_eq!(transfer(1, 1, 2, "X").execute(&mut accounts, &mut assets), Ok(()));
    assert_eq!(held(&assets, 1, "X"), Some(2));
}

#[test]
fn transfer_of_more_than_held_is_insufficient_funds_and_changes_nothing() {
    let mut accounts = Accounts::new();
    let mut assets = Assets::new();
    add_funds(1, 5, "X").execute(&mut accounts, &mut assets).unwrap();
    assert_eq!(
        transfer(1, 2, 10, "X").execute(&mut accounts, &mut assets),
        Err(LedgerError::InsufficientFunds)
    );
    assert_eq!(held(&assets, 1, "X"), Some(5));
    assert_eq!(held(&assets, 2, "X"), None);
}

#[test]
fn transfer_from_a_missing_key_is_no_such_asset_and_changes_nothing() {
    let mut accounts = Accounts::new();
    let mut assets = Assets::new();
    add_funds(1, 5, "X").execute(&mut accounts, &mut assets).unwrap();
    assert_eq!(
        transfer(2, 1, 1, "X").execute(&mut accounts, &mut assets),
        Err(LedgerError::NoSuchAsset)
    );
    assert_eq!(
        transfer(1, 2, 1, "Y").execute(&mut accounts, &mut assets),
        Err(LedgerError::NoSuchAsset)
    );
    assert_eq!(held(&assets, 1, "X"), Some(5));
    assert_eq!(held(&assets, 2, "X"), None);
}

#[test]
fn assets_insert_get_remove() {
    let mut assets = Assets::new();
    assets.insert(1, "A".to_string(), Asset::new_with_value(1));
    assets.insert(1, "B".to_string(), Asset::new_with_value(2));
    assets.insert(2, "A".to_string(), Asset::new_with_value(3));
    assets.insert(1, "A".to_string(), Asset::new_with_value(4));
    assert_eq!(held(&assets, 1, "A"), Some(4));
    assert_eq!(held(&assets, 1, "B"), Some(2));
    assert_eq!(held(&assets, 2, "A"), Some(3));
    assets.remove(1, &"A".to_string());
    assets.remove(7, &"nothing".to_string());
    assert_eq!(held(&assets, 1, "A"), None);
    assert_eq!(held(&assets, 1, "B"), Some(2));
    assert_eq!(held(&assets, 2, "A"), Some(3));
    let copy = assets.clone();
    assert_eq!(held(&copy, 1, "B"), Some(2));
    assert_eq!(held(&copy, 2, "A"), Some(3));
    assert_eq!(held(&copy, 1, "A"), None);
}
