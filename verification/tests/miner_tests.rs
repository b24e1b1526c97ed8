use ledger::crypto::{
    generate_key_pair, hash, is_hash_valid, sign, KeyPair, PrivateKey, DIFFICULTY, DIGEST_LENGTH,
    PRIVATE_KEY_LENGTH, PUBLIC_KEY_LENGTH,
};
use ledger::errors::LedgerError;
use ledger::miner::{mine_block_with, seal_block, Miner};
use ledger::network::{Data, Peers};
use ledger::state::{Block, Command, Transaction};
use ledger::storage::Storage;
use ledger::time::convert_timestamp_to_day_time;
use ledger::utils::print_bytes;
use ledger::wire::serialize_block;
use ursa::signatures::SignatureScheme;

fn hex(bytes: &[u8]) -> String {
    let mut text = String::new();
    for byte in bytes {
        text.push_str(&format!("{:02x}", byte));
    }
    text
}

fn unhex(text: &str) -> Vec<u8> {
    (0..text.len() / 2).map(|i| u8::from_str_radix(&text[2 * i..2 * i + 2], 16).unwrap()).collect()
}

/// The first test key pair of the Ed25519 standard.
fn standard_keys() -> KeyPair {
    let secret = unhex("9d61b19deffd5a60ba844af492ec2cc44449c5697b326919703bac031cae7f60");
    let public = unhex("d75a980182b10ab7d54bfed3c964073a0ee172f3daa62325af021a68f707511a");
    let mut pair = secret;
    pair.extend_from_slice(&public);
    KeyPair { public_key: public, private_key: PrivateKey::from_bytes(pair) }
}

fn generate_transaction(seed: u32) -> Transaction {
    let commands = match seed % 3 {
        0 => vec![
            Command::CreateAccount { public_key: format!("key-{}", seed) },
            Command::CreateAccount { public_key: format!("key-{}-b", seed) },
        ],
        1 => vec![
            Command::AddFunds { account_id: seed % 100, value: seed % 1000, asset_id: "TEST".to_string() },
            Command::AddFunds { account_id: seed % 7, value: seed, asset_id: "TEST".to_string() },
            Command::AddFunds { account_id: 1, value: 1, asset_id: "TEST".to_string() },
        ],
        _ => vec![
            Command::AddFunds { account_id: 1, value: 1000, asset_id: "TEST2".to_string() },
            Command::TransferFunds {
                account_from_id: 1,
                account_to_id: seed % 100,
                value: seed % 1000,
                asset_id: "TEST2".to_string(),
            },
        ],
    };
    Transaction { fee: 111, commands }
}

fn generate_block(nonce: u32, transactions: Vec<Transaction>) -> Block {
    let keys = generate_key_pair().unwrap();
    let signature = sign(format!("{:?}", &transactions).as_bytes(), &keys.private_key).unwrap();
    let mut block = Block {
        id: 7,
        timestamp: 1_700_000_000,
        nonce,
        signature,
        hash: vec![],
        previous_block_hash: Some(String::from("0004f4544324323323").as_bytes().to_vec()),
        transactions,
    };
    let hash_data = serialize_block(&block);
    let hash = hash(hash_data.as_slice());
    println!("block hash : {}", print_bytes(&hash));
    block.hash = hash;
    block
}

fn show<T: std::fmt::Debug>(value: &T) -> String {
    format!("{:?}", value)
}

#[test]
fn test_hash_function() {
    let digest = hash(&String::from("ABRACADABRA!!!").as_bytes().to_vec());
    println!("{:?}", digest);
    assert_eq!(digest.len(), 32);
}

#[test]
fn sha256_of_known_inputs() {
    assert_eq!(
        hex(&hash(b"abc")),
        "ba7816bf8f01cfea414140de5dae2223b00361a396177a9cb410ff61f20015ad"
    );
    assert_eq!(
        hex(&hash(b"")),
        "e3b0c44298fc1c149afbf4c8996fb92427ae41e4649b934ca495991b7852b855"
    );
    assert_eq!(hash(b"abc").len(), DIGEST_LENGTH);
    assert_eq!(DIGEST_LENGTH, 32);
}

#[test]
fn validate_block_hash() {
    let block = generate_block(
        11134,
        vec![generate_transaction(0), generate_transaction(1), generate_transaction(2)],
    );
    let block_hash1 = hash(block.to_string().as_bytes());
    println!("block hash1 is {}", print_bytes(&block_hash1));
    let block_hash2 = hash(block.to_string().as_bytes());
    println!("block hash2 is {}", print_bytes(&block_hash2));
    assert_eq!(block_hash1, block_hash2);
    assert_eq!(block.nonce, 11134);
}

#[test]
fn leading_zero_bytes_are_counted() {
    assert_eq!(DIFFICULTY, 2);
    assert!(is_hash_valid(&vec![0, 0, 5], 2));
    assert!(is_hash_valid(&vec![0, 0, 0], 2));
    assert!(is_hash_valid(&vec![0, 0], 2));
    assert!(!is_hash_valid(&vec![0, 1, 0], 2));
    assert!(!is_hash_valid(&vec![1, 0, 0], 2));
    assert!(!is_hash_valid(&vec![0], 2));
    assert!(!is_hash_valid(&vec![], 2));
    assert!(is_hash_valid(&vec![], 0));
    assert!(is_hash_valid(&vec![9], 0));
    assert!(is_hash_valid(&vec![0, 9], 1));
    assert!(!is_hash_valid(&vec![0, 0, 0], 4));
    assert!(is_hash_valid(&vec![0, 0, 0], 3));
}

#[test]
fn signature_of_the_standard_test_vector() {
    let keys = standard_keys();
    let signature = sign(b"", &keys.private_key).unwrap();
    assert_eq!(
        hex(&signature),
        "e5564300c360ac729086e2cc806e828a84877f1eb8e5d974d873e065224901555fb8821590a33bacc61e39701cf9b46bd25bf5f0595bbe24655141438e7a100b"
    );
    assert_eq!(sign(b"", &keys.private_key), sign(b"", &keys.private_key.clone()));
    assert_ne!(sign(b"x", &keys.private_key), sign(b"", &keys.private_key));
}

#[test]
fn signing_with_something_that_is_no_key_pair_fails() {
    assert!(sign(b"message", &PrivateKey::from_bytes(vec![])).is_none());
    assert!(sign(b"message", &PrivateKey::from_bytes(vec![1; 63])).is_none());
    assert!(sign(b"message", &PrivateKey::from_bytes(vec![1; 65])).is_none());
}

#[test]
fn fresh_keys_sign_and_verify() {
    let keys = generate_key_pair().unwrap();
    assert_eq!(keys.public_key.len(), 32);
    assert_eq!(keys.private_key.as_bytes().len(), 64);
    let other = generate_key_pair().unwrap();
    assert_ne!(keys.public_key, other.public_key);
    let signature = sign(b"hello", &keys.private_key).unwrap();
    let scheme = ursa::signatures::ed25519::Ed25519Sha512::new();
    let public = ursa::keys::PublicKey(keys.public_key.clone());
    assert!(scheme.verify(b"hello", &signature, &public).unwrap());
    assert!(scheme.verify(b"other", &signature, &public).is_err());
}

#[test]
fn timestamps_become_moments_of_the_calendar() {
    for seconds in [0i64, 1, -1, 1_700_000_000, -62_135_596_800, 253_402_300_799] {
        let moment = convert_timestamp_to_day_time(seconds).unwrap();
        assert_eq!(moment.seconds(), seconds);
    }
    assert!(convert_timestamp_to_day_time(i64::MAX).is_none());
    assert!(convert_timestamp_to_day_time(i64::MIN).is_none());
    let early = convert_timestamp_to_day_time(100).unwrap();
    let late = convert_timestamp_to_day_time(101).unwrap();
    assert!(late.is_after(&early));
    assert!(!early.is_after(&late));
    assert!(!early.is_after(&early));
}

#[test]
fn sealing_finds_the_first_nonce_that_meets_the_difficulty() {
    let block = seal_block(Block::default(), 2).unwrap();
    assert_eq!(block.nonce, 12517);
    assert_eq!(
        hex(&block.hash),
        "000064a65e18dcb38d2ab69a664e817d76c6bde964aac343a875d260d0ecc692"
    );
    assert!(Storage::validate_hash(&block));
    for nonce in 0..block.nonce {
        let candidate = Block { nonce, ..Block::default() };
        assert!(!is_hash_valid(&hash(&serialize_block(&candidate)), 2), "nonce {}", nonce);
    }
    let candidate = Block { nonce: block.nonce, ..Block::default() };
    assert_eq!(hash(&serialize_block(&candidate)), block.hash);
}

#[test]
fn sealing_ignores_the_nonce_and_hash_of_the_template() {
    let template = Block { nonce: 999, hash: vec![1, 2, 3], ..Block::default() };
    let block = seal_block(template, 2).unwrap();
    assert_eq!(block.nonce, 12517);
    assert_eq!(show(&block), show(&seal_block(Block::default(), 2).unwrap()));
}

#[test]
fn sealing_at_difficulty_zero_takes_the_first_nonce() {
    let block = seal_block(Block::default(), 0).unwrap();
    assert_eq!(block.nonce, 0);
    assert_eq!(block.hash, hash(&serialize_block(&Block::default())));
    assert_eq!(block.hash.len(), 32);
}

#[test]
fn sealing_gives_up_when_no_digest_can_meet_the_difficulty() {
    // A digest has 32 bytes, so none starts with 33 zero bytes. The search
    // would take the whole nonce space; the bound is checked on the predicate.
    assert!(!is_hash_valid(&vec![0; 32], 33));
    assert!(is_hash_valid(&vec![0; 32], 32));
}

#[test]
fn mined_block_is_numbered_after_its_predecessor() {
    let first = mine_block_with(5, vec![9], 1, None, None, vec![]).unwrap();
    assert_eq!(first.id, 0);
    assert_eq!(first.timestamp, 5);
    assert_eq!(first.signature, vec![9]);
    assert!(first.previous_block_hash.is_none());
    let second =
        mine_block_with(6, vec![], 1, Some(first.hash.clone()), Some(first.id), vec![]).unwrap();
    assert_eq!(second.id, 1);
    assert_eq!(second.previous_block_hash, Some(first.hash.clone()));
    let far = mine_block_with(6, vec![], 1, None, Some(41), vec![]).unwrap();
    assert_eq!(far.id, 42);
    assert!(mine_block_with(6, vec![], 1, None, Some(u64::MAX), vec![]).is_none());
    assert!(mine_block_with(6, vec![], 1, None, Some(u64::MAX - 1), vec![]).is_some());
}

#[test]
fn miner_mine_block_succeed() {
    let miner = Miner::new(1).unwrap();
    let previous_block_transactions = vec![generate_transaction(0)];
    let previous_block = generate_block(2, previous_block_transactions);
    let current_block_transactions = vec![generate_transaction(1)];
    let private_key = miner.private_key().clone();
    let block = Miner::mine_block(
        &private_key,
        2,
        Some(previous_block.hash.clone()),
        Some(previous_block.id),
        current_block_transactions,
    )
    .unwrap();
    assert!(&block.hash.starts_with(&[0, 0]))
}

#[test]
fn mined_block_carries_the_signature_of_its_transactions() {
    let keys = standard_keys();
    let transactions = vec![generate_transaction(0), generate_transaction(1)];
    let block =
        Miner::mine_block(&keys.private_key, 2, Some(vec![7; 32]), Some(7), transactions.clone())
            .unwrap();
    assert_eq!(block.id, 8);
    assert_eq!(block.previous_block_hash, Some(vec![7; 32]));
    assert_eq!(show(&block.transactions), show(&transactions));
    assert!(block.hash.starts_with(&[0, 0]));
    assert!(Storage::validate_hash(&block));
    assert!(Storage::validate_seal(&block));
    let message = format!("{:?}", &transactions);
    assert_eq!(block.signature, sign(message.as_bytes(), &keys.private_key).unwrap());
    let scheme = ursa::signatures::ed25519::Ed25519Sha512::new();
    let public = ursa::keys::PublicKey(keys.public_key.clone());
    assert!(scheme.verify(message.as_bytes(), &block.signature, &public).unwrap());
    let now = std::time::SystemTime::now()
        .duration_since(std::time::UNIX_EPOCH)
        .unwrap()
        .as_secs() as i64;
    assert!((block.timestamp - now).abs() <= 60);
}

#[test]
fn mining_without_a_key_pair_or_a_next_number_gives_nothing() {
    let keys = standard_keys();
    assert!(Miner::mine_block(&PrivateKey::from_bytes(vec![1, 2, 3]), 1, None, None, vec![]).is_none());
    assert!(Miner::mine_block(&keys.private_key, 1, None, Some(u64::MAX), vec![]).is_none());
    assert!(Miner::mine_block(&keys.private_key, 1, None, None, vec![]).is_some());
}

#[test]
fn new_miner_has_keys_and_nothing_else() {
    let miner = Miner::new(1235).unwrap();
    assert_eq!(miner.id(), 1235);
    assert_eq!(miner.pool_len(), 0);
    assert_eq!(miner.storage().id(), 1235);
    assert!(miner.storage().get_blockchain_by_ref().is_empty());
    assert_eq!(miner.public_key().len(), 32);
    assert_eq!(miner.private_key().as_bytes()[32..], miner.public_key()[..]);
    let keys = standard_keys();
    let miner = Miner::with_key_pair(7, standard_keys());
    assert_eq!(miner.public_key(), &keys.public_key);
    assert_eq!(miner.private_key().as_bytes(), keys.private_key.as_bytes());
}

#[test]
fn miner_receive_transactions_and_start_mine_block_succeed() {
    let mut miner = Miner::new(1).unwrap();
    let previous_block_transactions = vec![generate_transaction(0), generate_transaction(1)];
    let previous_block = generate_block(2, previous_block_transactions);
    if let Err(_) = miner.add_block_to_storage(previous_block) {
        println!("could not add block to storage")
    };
    for seed in 0..10 {
        miner.add_transaction_to_pool(generate_transaction(seed));
    }
    assert_eq!(miner.pool_len(), 10);
    let job = miner.next_job().unwrap();
    assert_eq!(job.transactions.len(), 10);
    assert_eq!(miner.pool_len(), 0);
    let key = miner.private_key().clone();
    let block = Miner::mine_block(
        &key,
        2,
        job.previous_block_hash,
        job.previous_block_id,
        job.transactions,
    )
    .unwrap();
    match miner.finish_job(block.clone()).unwrap() {
        Data::Block(sent) => assert_eq!(show(&sent), show(&block)),
        _ => unreachable!(),
    }
    assert_eq!(miner.storage().get_blockchain_by_ref().len(), 1);
}

#[test]
fn start_blockchain_and_send_transactions() {
    let mut miners = vec![Miner::new(1234).unwrap(), Miner::new(1235).unwrap(), Miner::new(1236).unwrap()];
    for round in 0..3 {
        for seed in 0..10 {
            let transaction = generate_transaction(round * 10 + seed);
            for miner in miners.iter_mut() {
                assert_eq!(miner.receive(Data::Transaction(transaction.clone())), Ok(()));
            }
        }
    }
    for miner in miners.iter() {
        assert_eq!(miner.pool_len(), 30);
    }
}

#[test]
fn miner_waits_for_ten_transactions() {
    let mut miner = Miner::with_key_pair(1, standard_keys());
    for seed in 0..9 {
        miner.add_transaction_to_pool(generate_transaction(seed));
    }
    assert!(miner.next_job().is_none());
    assert_eq!(miner.pool_len(), 9);
    miner.add_transaction_to_pool(generate_transaction(9));
    let job = miner.next_job().unwrap();
    assert!(job.previous_block_hash.is_none());
    assert!(job.previous_block_id.is_none());
    assert_eq!(job.transactions.len(), 10);
    assert!(miner.next_job().is_none());
}

#[test]
fn job_takes_the_highest_fees_and_names_the_tip() {
    let mut miner = Miner::with_key_pair(1, standard_keys());
    let genesis = mine_block_with(1_700_000_000, vec![], 2, None, None, vec![]).unwrap();
    assert_eq!(miner.receive(Data::Block(genesis.clone())), Ok(()));
    for fee in 1..=30u32 {
        let transaction = Transaction { fee, commands: vec![] };
        assert_eq!(miner.receive(Data::Transaction(transaction)), Ok(()));
    }
    let job = miner.next_job().unwrap();
    assert_eq!(job.previous_block_id, Some(genesis.id));
    assert_eq!(job.previous_block_hash, Some(genesis.hash.clone()));
    let fees: Vec<u32> = job.transactions.iter().map(|t| t.fee).collect();
    assert_eq!(fees, vec![30, 29, 28, 27, 26, 25, 24, 23, 22, 21]);
    assert_eq!(miner.pool_len(), 20);
}

#[test]
fn listening_loop_sorts_what_it_receives() {
    let mut miner = Miner::with_key_pair(1, standard_keys());
    assert_eq!(miner.receive(Data::Peer("p".to_string())), Err(LedgerError::WrongCommandError));
    assert_eq!(miner.receive(Data::Peers(Peers::new())), Err(LedgerError::WrongCommandError));
    assert_eq!(miner.receive(Data::Blockchain(vec![])), Err(LedgerError::WrongCommandError));
    assert_eq!(miner.pool_len(), 0);
    assert!(miner.storage().get_blockchain_by_ref().is_empty());
    assert_eq!(miner.receive(Data::Block(Block::default())), Err(LedgerError::BlockError));
    assert!(miner.storage().get_blockchain_by_ref().is_empty());
    let genesis = mine_block_with(1_700_000_000, vec![], 2, None, None, vec![]).unwrap();
    assert_eq!(miner.receive(Data::Block(genesis)), Ok(()));
    assert_eq!(miner.storage().get_blockchain_by_ref().len(), 1);
    assert_eq!(miner.receive(Data::Transaction(generate_transaction(1))), Ok(()));
    assert_eq!(miner.pool_len(), 1);
}

#[test]
fn two_rounds_of_mining_build_a_chain_of_two() {
    let mut miner = Miner::with_key_pair(1, standard_keys());
    for i in 1..=10u32 {
        let command = Command::CreateAccount { public_key: format!("pk-{}", i) };
        miner.add_transaction_to_pool(Transaction { fee: 1, commands: vec![command] });
    }
    let job = miner.next_job().unwrap();
    let first = mine_block_with(
        1_700_000_000,
        vec![],
        DIFFICULTY,
        job.previous_block_hash,
        job.previous_block_id,
        job.transactions,
    )
    .unwrap();
    assert!(miner.finish_job(first.clone()).is_ok());
    assert!(first.id == 0 || first.id == 1);
    assert_eq!(first.transactions.len(), 10);
    assert_eq!(&first.hash[..2], &[0, 0]);
    for i in 11..=20u32 {
        let command = Command::CreateAccount { public_key: format!("pk-{}", i) };
        miner.add_transaction_to_pool(Transaction { fee: 1, commands: vec![command] });
    }
    let job = miner.next_job().unwrap();
    let second = mine_block_with(
        1_700_000_060,
        vec![],
        DIFFICULTY,
        job.previous_block_hash,
        job.previous_block_id,
        job.transactions,
    )
    .unwrap();
    assert!(miner.finish_job(second.clone()).is_ok());
    let chain = miner.storage().get_blockchain_by_ref();
    assert_eq!(chain.len(), 2);
    assert_eq!(chain[1].previous_block_hash.as_ref().unwrap(), &chain[0].hash);
    assert_eq!(chain[1].id, chain[0].id + 1);
    assert_eq!(miner.storage().accounts().len(), 10);
}

#[test]
fn block_mined_on_a_tip_that_moved_gives_its_transactions_back() {
    let mut miner = Miner::with_key_pair(1, standard_keys());
    let genesis = mine_block_with(1_700_000_000, vec![], DIFFICULTY, None, None, vec![]).unwrap();
    miner.add_block_to_storage(genesis.clone()).unwrap();
    for fee in 1..=12u32 {
        miner.add_transaction_to_pool(Transaction { fee, commands: vec![] });
    }
    let job = miner.next_job().unwrap();
    assert_eq!(miner.pool_len(), 2);
    let mined = mine_block_with(
        1_700_000_002,
        vec![],
        DIFFICULTY,
        job.previous_block_hash,
        job.previous_block_id,
        job.transactions,
    )
    .unwrap();
    let from_peer = mine_block_with(
        1_700_000_001,
        vec![],
        DIFFICULTY,
        Some(genesis.hash.clone()),
        Some(genesis.id),
        vec![],
    )
    .unwrap();
    assert_eq!(miner.receive(Data::Block(from_peer)), Ok(()));
    assert_eq!(miner.finish_job(mined).unwrap_err(), LedgerError::BlockError);
    assert_eq!(miner.storage().get_blockchain_by_ref().len(), 2);
    assert_eq!(miner.pool_len(), 12);
    let again = miner.next_job().unwrap();
    let fees: Vec<u32> = again.transactions.iter().map(|t| t.fee).collect();
    assert_eq!(fees, vec![12, 11, 10, 9, 8, 7, 6, 5, 4, 3]);
}

#[test]
fn block_with_a_failing_command_is_dropped_with_its_transactions() {
    let mut miner = Miner::with_key_pair(1, standard_keys());
    let genesis = mine_block_with(1_700_000_000, vec![], DIFFICULTY, None, None, vec![]).unwrap();
    miner.add_block_to_storage(genesis).unwrap();
    for fee in 1..=10u32 {
        let command = Command::TransferFunds {
            account_from_id: 1,
            account_to_id: 2,
            value: fee,
            asset_id: "missing".to_string(),
        };
        miner.add_transaction_to_pool(Transaction { fee, commands: vec![command] });
    }
    let job = miner.next_job().unwrap();
    let mined = mine_block_with(
        1_700_000_001,
        vec![],
        DIFFICULTY,
        job.previous_block_hash,
        job.previous_block_id,
        job.transactions,
    )
    .unwrap();
    assert_eq!(miner.finish_job(mined).unwrap_err(), LedgerError::BlockError);
    assert_eq!(miner.pool_len(), 0);
    assert_eq!(miner.storage().get_blockchain_by_ref().len(), 1);
}

#[test]
fn fresh_keys_are_laid_out_as_a_key_pair() {
    assert_eq!(PUBLIC_KEY_LENGTH, 32);
    assert_eq!(PRIVATE_KEY_LENGTH, 64);
    for _ in 0..20 {
        let keys = generate_key_pair();
        assert!(keys.is_some());
        let keys = keys.unwrap();
        assert_eq!(keys.public_key.len(), PUBLIC_KEY_LENGTH);
        assert_eq!(keys.private_key.as_bytes().len(), PRIVATE_KEY_LENGTH);
        assert_eq!(&keys.private_key.as_bytes()[PUBLIC_KEY_LENGTH..], &keys.public_key[..]);
        assert!(sign(b"any message", &keys.private_key).is_some());
    }
}

#[test]
fn there_is_always_a_new_miner() {
    for id in [0u64, 1, 1234, u64::MAX] {
        let miner = Miner::new(id);
        assert!(miner.is_some());
        let miner = miner.unwrap();
        assert_eq!(miner.id(), id);
        assert_eq!(miner.storage().id(), id);
        assert_eq!(miner.pool_len(), 0);
        assert!(miner.storage().get_blockchain_by_ref().is_empty());
        assert_eq!(miner.public_key().len(), PUBLIC_KEY_LENGTH);
        assert_eq!(miner.private_key().as_bytes().len(), PRIVATE_KEY_LENGTH);
        assert_eq!(&miner.private_key().as_bytes()[PUBLIC_KEY_LENGTH..], &miner.public_key()[..]);
    }
}

#[test]
fn the_calendar_ends_where_its_library_says() {
    let first = chrono::DateTime::<chrono::Utc>::MIN_UTC.timestamp();
    let last = chrono::DateTime::<chrono::Utc>::MAX_UTC.timestamp();
    assert!(first < 0 && 0 < last);
    assert_eq!(convert_timestamp_to_day_time(first).unwrap().seconds(), first);
    assert_eq!(convert_timestamp_to_day_time(last).unwrap().seconds(), last);
    assert!(convert_timestamp_to_day_time(first - 1).is_none());
    assert!(convert_timestamp_to_day_time(last + 1).is_none());
}
