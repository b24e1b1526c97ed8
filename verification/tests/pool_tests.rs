use ledger::pool::{TransactionPool, BATCH_SIZE};
use ledger::state::{Command, Transaction};

fn paying(fee: u32) -> Transaction {
    Transaction { fee, commands: vec![Command::CreateAccount { public_key: format!("pk-{}", fee) }] }
}

fn pool_of(fees: &[u32]) -> TransactionPool {
    let mut pool = TransactionPool::new();
    for fee in fees {
        pool.add_transaction_to_pool(paying(*fee));
    }
    pool
}

fn drain(pool: &mut TransactionPool) -> Vec<u32> {
    let mut fees = Vec::new();
    while let Some(transaction) = pool.pop() {
        fees.push(transaction.fee);
    }
    fees
}

#[test]
fn batch_size_is_ten() {
    assert_eq!(BATCH_SIZE, 10);
}

#[test]
fn new_pool_is_empty() {
    let mut pool = TransactionPool::new();
    assert_eq!(pool.len(), 0);
    assert!(pool.pop().is_none());
    assert!(pool.poll().is_none());
}

#[test]
fn pop_gives_the_highest_fee_first() {
    let mut pool = pool_of(&[3, 1, 4, 1, 5, 9, 2, 6, 5, 3, 5]);
    assert_eq!(pool.len(), 11);
    assert_eq!(drain(&mut pool), vec![9, 6, 5, 5, 5, 4, 3, 3, 2, 1, 1]);
    assert_eq!(pool.len(), 0);
}

#[test]
fn pop_never_gives_less_than_what_stays() {
    let mut state: u32 = 12345;
    let mut fees = Vec::new();
    for _ in 0..500 {
        state = state.wrapping_mul(1_103_515_245).wrapping_add(12345);
        fees.push(state >> 16);
    }
    let mut pool = pool_of(&fees);
    let popped = drain(&mut pool);
    let mut sorted = fees.clone();
    sorted.sort_by(|a, b| b.cmp(a));
    assert_eq!(popped, sorted);
}

#[test]
fn pop_keeps_the_commands_with_the_fee() {
    let mut pool = pool_of(&[2, 8, 5]);
    let top = pool.pop().unwrap();
    assert_eq!(top.fee, 8);
    assert_eq!(format!("{:?}", top.commands), format!("{:?}", paying(8).commands));
}

#[test]
fn pushes_and_pops_interleave() {
    let mut pool = pool_of(&[5, 1]);
    assert_eq!(pool.pop().unwrap().fee, 5);
    pool.add_transaction_to_pool(paying(3));
    pool.add_transaction_to_pool(paying(7));
    assert_eq!(pool.pop().unwrap().fee, 7);
    assert_eq!(pool.pop().unwrap().fee, 3);
    pool.add_transaction_to_pool(paying(0));
    assert_eq!(pool.pop().unwrap().fee, 1);
    assert_eq!(pool.pop().unwrap().fee, 0);
    assert!(pool.pop().is_none());
}

#[test]
fn poll_waits_for_a_full_batch() {
    let mut pool = pool_of(&[1, 2, 3, 4, 5, 6, 7, 8, 9]);
    assert!(pool.poll().is_none());
    assert_eq!(pool.len(), 9);
    pool.add_transaction_to_pool(paying(10));
    let batch = pool.poll().unwrap();
    let fees: Vec<u32> = batch.iter().map(|t| t.fee).collect();
    assert_eq!(fees, vec![10, 9, 8, 7, 6, 5, 4, 3, 2, 1]);
    assert_eq!(pool.len(), 0);
}

#[test]
fn poll_takes_exactly_the_ten_highest_fees() {
    let fees: Vec<u32> = (1..=30).collect();
    let mut pool = pool_of(&fees);
    let first: Vec<u32> = pool.poll().unwrap().iter().map(|t| t.fee).collect();
    assert_eq!(first, vec![30, 29, 28, 27, 26, 25, 24, 23, 22, 21]);
    assert_eq!(pool.len(), 20);
    let second: Vec<u32> = pool.poll().unwrap().iter().map(|t| t.fee).collect();
    assert_eq!(second, vec![20, 19, 18, 17, 16, 15, 14, 13, 12, 11]);
    let third: Vec<u32> = pool.poll().unwrap().iter().map(|t| t.fee).collect();
    assert_eq!(third, vec![10, 9, 8, 7, 6, 5, 4, 3, 2, 1]);
    assert!(pool.poll().is_none());
}

#[test]
fn equal_fees_all_come_out() {
    let mut pool = pool_of(&[4; 25]);
    let batch = pool.poll().unwrap();
    assert_eq!(batch.len(), 10);
    assert!(batch.iter().all(|t| t.fee == 4));
    assert_eq!(pool.len(), 15);
}

#[test]
fn pool_takes_every_transaction() {
    let mut pool = TransactionPool::new();
    for i in 0..20_000u32 {
        pool.add_transaction_to_pool(Transaction { fee: i % 97, commands: vec![] });
        assert_eq!(pool.len(), i as usize + 1);
    }
    assert_eq!(pool.pop().unwrap().fee, 96);
    assert_eq!(pool.len(), 19_999);
}

#[test]
fn add_all_puts_every_transaction_in() {
    let mut pool = pool_of(&[5]);
    pool.add_all(vec![paying(1), paying(9), paying(5)]);
    assert_eq!(pool.len(), 4);
    assert_eq!(drain(&mut pool), vec![9, 5, 5, 1]);
    pool.add_all(vec![]);
    assert_eq!(pool.len(), 0);
}

#[test]
fn transactions_are_ordered_by_fee_alone() {
    let cheap = Transaction { fee: 1, commands: vec![] };
    let dear = paying(2);
    let also_dear = Transaction { fee: 2, commands: vec![] };
    assert!(cheap < dear);
    assert!(dear > cheap);
    assert!(dear == also_dear);
    assert!(dear >= also_dear);
    assert!(cheap != dear);
    assert_eq!(cheap.partial_cmp(&dear), Some(std::cmp::Ordering::Less));
    assert_eq!(dear.partial_cmp(&cheap), Some(std::cmp::Ordering::Greater));
    assert_eq!(dear.partial_cmp(&also_dear), Some(std::cmp::Ordering::Equal));
    let low = Transaction { fee: 0, commands: vec![] };
    let high = Transaction { fee: u32::MAX, commands: vec![] };
    assert!(low < high);
}
