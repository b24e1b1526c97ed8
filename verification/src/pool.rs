//! The transaction pool: a priority queue that hands out the transaction
//! with the highest fee first.
//!
//! The pool keeps its transactions in a binary heap laid out in a vector: the
//! transaction at index `i` has its children at `2i + 1` and `2i + 2`, and no
//! child pays a higher fee than its parent. Adding and taking a transaction
//! each walk one path between the root and a leaf.

use crate::state::{transactions_view, Transaction, TransactionView};
use vstd::multiset::Multiset;
use vstd::prelude::*;

verus! {

/// The number of transactions that the miner takes at once.
pub const BATCH_SIZE: usize = 10;

/// The index of the parent of the heap node at `index`.
spec fn parent(index: int) -> int {
    (index - 1) / 2
}

/// The heap order: no transaction pays a higher fee than its parent.
spec fn heap_ordered(items: Seq<Transaction>) -> bool {
    forall|i: int| 1 <= i < items.len() ==> items[parent(i)].fee >= (#[trigger] items[i]).fee
}

/// The heap order everywhere but between `hole` and its parent.
spec fn ordered_above(items: Seq<Transaction>, hole: int) -> bool {
    forall|i: int|
        1 <= i < items.len() && i != hole ==> items[parent(i)].fee >= (#[trigger] items[i]).fee
}

/// The heap order everywhere but between `hole` and its children.
spec fn ordered_below(items: Seq<Transaction>, hole: int) -> bool {
    forall|i: int|
        1 <= i < items.len() && parent(i) != hole ==> items[parent(i)].fee >= (
        #[trigger] items[i]).fee
}

/// The parent of `hole`, if it has one, pays no less than the children of `hole`.
spec fn bridged(items: Seq<Transaction>, hole: int) -> bool {
    hole > 0 ==> forall|i: int|
        1 <= i < items.len() && parent(i) == hole ==> items[parent(hole)].fee >= (
        #[trigger] items[i]).fee
}

/// The transactions of a sequence as a bag of what they say.
pub open spec fn bag(items: Seq<Transaction>) -> Multiset<TransactionView> {
    transactions_view(items).to_multiset()
}

/// What makes `taken` the batch for the next block: it holds `BATCH_SIZE`
/// transactions that left the pool, highest fee first, and none that stayed
/// pays more than any that left.
pub open spec fn highest_batch(
    before: Multiset<TransactionView>,
    after: Multiset<TransactionView>,
    taken: Seq<Transaction>,
) -> bool {
    &&& taken.len() == BATCH_SIZE
    &&& before == after.add(bag(taken))
    &&& descending(taken)
    &&& covered(after, taken)
}

/// The fees of the sequence never rise.
pub open spec fn descending(taken: Seq<Transaction>) -> bool {
    forall|i: int, j: int| 0 <= i < j < taken.len() ==> taken[i].fee >= taken[j].fee
}

/// No transaction of the bag pays more than any of the sequence.
pub open spec fn covered(waiting: Multiset<TransactionView>, taken: Seq<Transaction>) -> bool {
    forall|other: TransactionView, i: int|
        waiting.contains(other) && 0 <= i < taken.len() ==> other.fee <= taken[i].fee
}

/// An empty sequence adds nothing to a bag, and is a batch in the making.
proof fn lemma_nothing_to_add(waiting: Multiset<TransactionView>, taken: Seq<Transaction>)
    requires
        taken.len() == 0,
    ensures
        waiting.add(bag(taken)) == waiting,
        descending(taken),
        covered(waiting, taken),
{
    broadcast use vstd::seq_lib::group_to_multiset_ensures;
    broadcast use vstd::multiset::group_multiset_axioms;

    assert(transactions_view(taken) =~= Seq::empty());
    assert(bag(taken).len() == 0);
    assert(bag(taken) =~= Multiset::<TransactionView>::empty());
    assert(waiting.add(bag(taken)) =~= waiting);
}

/// A transaction that moves from the end of a sequence into a bag leaves the
/// two together as they were.
proof fn lemma_moved_into_pool(
    waiting: Multiset<TransactionView>,
    remaining: Seq<Transaction>,
    transaction: Transaction,
)
    ensures
        waiting.insert(transaction@).add(bag(remaining)) == waiting.add(
            bag(remaining.push(transaction)),
        ),
{
    broadcast use vstd::seq_lib::group_to_multiset_ensures;
    broadcast use vstd::multiset::group_multiset_axioms;

    assert(transactions_view(remaining.push(transaction)) =~= transactions_view(remaining).push(
        transaction@,
    ));
    assert(bag(remaining.push(transaction)) == bag(remaining).insert(transaction@));
    assert(waiting.insert(transaction@).add(bag(remaining)) =~= waiting.add(
        bag(remaining.push(transaction)),
    ));
}

/// A transaction with the highest fee that moves from a bag to the end of a
/// batch in the making leaves the two together as they were, and the batch
/// in the making.
proof fn lemma_moved_into_batch(
    waiting: Multiset<TransactionView>,
    left: Multiset<TransactionView>,
    so_far: Seq<Transaction>,
    transaction: Transaction,
)
    requires
        waiting.contains(transaction@),
        left == waiting.remove(transaction@),
        forall|other: TransactionView| waiting.contains(other) ==> other.fee <= transaction.fee,
        descending(so_far),
        covered(waiting, so_far),
    ensures
        left.add(bag(so_far.push(transaction))) == waiting.add(bag(so_far)),
        left.len() + 1 == waiting.len(),
        descending(so_far.push(transaction)),
        covered(left, so_far.push(transaction)),
{
    broadcast use vstd::seq_lib::group_to_multiset_ensures;
    broadcast use vstd::multiset::group_multiset_axioms;

    let taken = so_far.push(transaction);
    assert(transactions_view(taken) =~= transactions_view(so_far).push(transaction@));
    assert(bag(taken) == bag(so_far).insert(transaction@));
    assert(left.add(bag(taken)) =~= waiting.add(bag(so_far)));
    assert forall|i: int, j: int| 0 <= i < j < taken.len() implies taken[i].fee
        >= taken[j].fee by {
        if j == so_far.len() {
            assert(taken[i] == so_far[i]);
        } else {
            assert(taken[i] == so_far[i]);
            assert(taken[j] == so_far[j]);
        }
    }
    assert forall|other: TransactionView, i: int|
        left.contains(other) && 0 <= i < taken.len() implies other.fee <= taken[i].fee by {
        assert(waiting.contains(other));
        if i < so_far.len() {
            assert(taken[i] == so_far[i]);
        }
    }
}

/// In a heap the root pays the highest fee.
proof fn lemma_root_pays_most(items: Seq<Transaction>, index: int)
    requires
        heap_ordered(items),
        0 <= index < items.len(),
    ensures
        items[0].fee >= items[index].fee,
    decreases index,
{
    if index > 0 {
        lemma_root_pays_most(items, parent(index));
    }
}

/// Exchanging two transactions leaves the bag as it was.
proof fn lemma_swap_keeps_bag(items: Seq<Transaction>, i: int, j: int)
    requires
        0 <= i < items.len(),
        0 <= j < items.len(),
        i != j,
    ensures
        bag(exchanged(items, i, j)) == bag(items),
{
    broadcast use vstd::seq_lib::group_to_multiset_ensures;
    broadcast use vstd::multiset::group_multiset_axioms;

    let view = transactions_view(items);
    let half = view.update(i, view[j]);
    let swapped = half.update(j, view[i]);
    assert(transactions_view(items.update(i, items[j]).update(j, items[i])) =~= swapped);
    assert(view.contains(view[i]));
    assert(view.contains(view[j]));
    assert(half[j] == view[j]);
    assert(swapped.to_multiset() =~= view.to_multiset());
}

/// Whatever is in the bag of a sequence stands somewhere in the sequence.
proof fn lemma_bag_member(items: Seq<Transaction>, member: TransactionView)
    requires
        bag(items).contains(member),
    ensures
        exists|i: int| 0 <= i < items.len() && (#[trigger] items[i])@ == member,
{
    broadcast use vstd::seq_lib::group_to_multiset_ensures;

    let view = transactions_view(items);
    assert(view.contains(member));
    let i = choose|i: int| 0 <= i < view.len() && view[i] == member;
    assert(items[i]@ == member);
}

/// A bag holds as many transactions as the sequence it was made of.
proof fn lemma_bag_len(items: Seq<Transaction>)
    ensures
        bag(items).len() == items.len(),
{
    broadcast use vstd::seq_lib::group_to_multiset_ensures;

}

/// Taking the root of a heap away, by way of the last place, takes the
/// transaction with the highest fee out of the bag: it was in the bag, it is
/// taken out once, and nothing that was in the bag or stays in it pays more.
proof fn lemma_root_taken(
    before: Seq<Transaction>,
    swapped: Seq<Transaction>,
    left: Seq<Transaction>,
)
    requires
        before.len() > 0,
        heap_ordered(before),
        swapped.len() == before.len(),
        bag(swapped) == bag(before),
        swapped.last() == before[0],
        left == swapped.drop_last(),
    ensures
        bag(before).contains(before[0]@),
        bag(left) == bag(before).remove(before[0]@),
        forall|other: TransactionView| bag(before).contains(other) ==> other.fee <= before[0].fee,
        forall|other: TransactionView| bag(left).contains(other) ==> other.fee <= before[0].fee,
{
    broadcast use vstd::seq_lib::group_to_multiset_ensures;
    broadcast use vstd::multiset::group_multiset_axioms;

    let root = before[0];
    let last = swapped.len() - 1;
    let view = transactions_view(swapped);
    assert(left =~= swapped.remove(last));
    assert(transactions_view(left) =~= view.remove(last));
    assert(view[last] == root@);
    assert(bag(left) == bag(swapped).remove(root@));
    assert(transactions_view(before).contains(root@)) by {
        assert(transactions_view(before)[0] == root@);
    }
    assert forall|other: TransactionView| bag(before).contains(other) implies other.fee
        <= root.fee by {
        lemma_bag_member(before, other);
        let i = choose|i: int| 0 <= i < before.len() && (#[trigger] before[i])@ == other;
        lemma_root_pays_most(before, i);
    }
    assert forall|other: TransactionView| bag(left).contains(other) implies other.fee
        <= root.fee by {
        assert(bag(before).contains(other));
    }
}

/// The sequence with the transactions at two places exchanged.
spec fn exchanged(items: Seq<Transaction>, i: int, j: int) -> Seq<Transaction> {
    items.update(i, items[j]).update(j, items[i])
}

/// A transaction pushed behind a heap leaves the heap order intact above
/// every place but its own, and has no children yet.
proof fn lemma_pushed(before: Seq<Transaction>, transaction: Transaction)
    requires
        heap_ordered(before),
    ensures
        ordered_above(before.push(transaction), before.len() as int),
        bridged(before.push(transaction), before.len() as int),
        bag(before.push(transaction)) == bag(before).insert(transaction@),
        bag(before.push(transaction)).len() == bag(before).len() + 1,
{
    broadcast use vstd::seq_lib::group_to_multiset_ensures;

    let grown = before.push(transaction);
    assert(transactions_view(grown) =~= transactions_view(before).push(transaction@));
    assert forall|i: int| 1 <= i < grown.len() && i != before.len() implies grown[parent(i)].fee
        >= (#[trigger] grown[i]).fee by {
        assert(grown[i] == before[i]);
        assert(grown[parent(i)] == before[parent(i)]);
    }
    assert forall|i: int| 1 <= i < grown.len() && parent(i) == before.len() implies grown[parent(
        before.len() as int,
    )].fee >= (#[trigger] grown[i]).fee by {
        assert(false);
    }
}

/// Where the transaction at the hole pays no more than its parent, or has
/// none, the heap order holds everywhere.
proof fn lemma_sift_up_done(items: Seq<Transaction>, hole: int)
    requires
        0 <= hole < items.len(),
        ordered_above(items, hole),
        hole > 0 ==> items[parent(hole)].fee >= items[hole].fee,
    ensures
        heap_ordered(items),
{
    assert forall|i: int| 1 <= i < items.len() implies items[parent(i)].fee >= (
    #[trigger] items[i]).fee by {
        if i != hole {
        }
    }
}

/// Exchanging the transaction at the hole with a parent that pays less moves
/// the hole up to the place of the parent.
proof fn lemma_sift_up_step(items: Seq<Transaction>, hole: int)
    requires
        0 < hole < items.len(),
        ordered_above(items, hole),
        bridged(items, hole),
        items[parent(hole)].fee < items[hole].fee,
    ensures
        ordered_above(exchanged(items, parent(hole), hole), parent(hole)),
        bridged(exchanged(items, parent(hole), hole), parent(hole)),
{
    let above = parent(hole);
    let sorted = exchanged(items, above, hole);
    assert forall|i: int| 1 <= i < sorted.len() && i != above implies sorted[parent(i)].fee >= (
    #[trigger] sorted[i]).fee by {
        if i == hole {
        } else if parent(i) == hole {
            assert(items[parent(hole)].fee >= items[i].fee);
        } else {
            assert(items[parent(i)].fee >= items[i].fee);
        }
    }
    if above > 0 {
        assert forall|i: int| 1 <= i < sorted.len() && parent(i) == above implies sorted[parent(
            above,
        )].fee >= (#[trigger] sorted[i]).fee by {
            assert(items[parent(above)].fee >= items[above].fee);
            if i != hole {
                assert(items[parent(i)].fee >= items[i].fee);
            }
        }
    }
}

/// Where the hole has no children, or pays no less than the child that
/// pays most, the heap order holds everywhere.
proof fn lemma_sift_down_done(items: Seq<Transaction>, hole: int, child: int)
    requires
        0 <= hole < items.len(),
        ordered_below(items, hole),
        2 * hole + 1 < items.len() ==> {
            &&& child == 2 * hole + 1 || child == 2 * hole + 2
            &&& child < items.len()
            &&& items[hole].fee >= items[child].fee
            &&& items[child].fee >= items[2 * hole + 1].fee
            &&& 2 * hole + 2 < items.len() ==> items[child].fee >= items[2 * hole + 2].fee
        },
    ensures
        heap_ordered(items),
{
    assert forall|i: int| 1 <= i < items.len() implies items[parent(i)].fee >= (
    #[trigger] items[i]).fee by {
        if parent(i) == hole {
            assert(i == 2 * hole + 1 || i == 2 * hole + 2);
        }
    }
}

/// Exchanging the transaction at the hole with the child that pays most,
/// where that child pays more, moves the hole down to the place of the child.
proof fn lemma_sift_down_step(items: Seq<Transaction>, hole: int, child: int)
    requires
        0 <= hole < items.len(),
        child == 2 * hole + 1 || child == 2 * hole + 2,
        child < items.len(),
        ordered_below(items, hole),
        bridged(items, hole),
        items[hole].fee < items[child].fee,
        items[child].fee >= items[2 * hole + 1].fee,
        2 * hole + 2 < items.len() ==> items[child].fee >= items[2 * hole + 2].fee,
    ensures
        ordered_below(exchanged(items, hole, child), child),
        bridged(exchanged(items, hole, child), child),
{
    let sorted = exchanged(items, hole, child);
    assert forall|i: int| 1 <= i < sorted.len() && parent(i) != child implies sorted[parent(i)].fee
        >= (#[trigger] sorted[i]).fee by {
        if i == child {
        } else if parent(i) == hole {
            assert(i == 2 * hole + 1 || i == 2 * hole + 2);
        } else if i == hole {
            assert(items[parent(hole)].fee >= items[child].fee);
        } else {
            assert(items[parent(i)].fee >= items[i].fee);
        }
    }
    assert forall|i: int| 1 <= i < sorted.len() && parent(i) == child implies sorted[parent(
        child,
    )].fee >= (#[trigger] sorted[i]).fee by {
        assert(items[parent(i)].fee >= items[i].fee);
    }
}

/// Exchanges the transactions at two different places.
fn swap_items(items: &mut Vec<Transaction>, i: usize, j: usize)
    requires
        i < old(items)@.len(),
        j < old(items)@.len(),
        i != j,
    ensures
        final(items)@ == exchanged(old(items)@, i as int, j as int),
        bag(final(items)@) == bag(old(items)@),
{
    let ghost before = items@;
    let mut carried = Transaction { fee: 0, commands: Vec::new() };
    items.set_and_swap(i, &mut carried);
    items.set_and_swap(j, &mut carried);
    items.set_and_swap(i, &mut carried);
    proof {
        assert(items@ =~= before.update(i as int, before[j as int]).update(
            j as int,
            before[i as int],
        ));
        lemma_swap_keeps_bag(before, i as int, j as int);
    }
}

/// The transactions that wait to be mined, the one with the highest fee
/// ready to be taken first.
pub struct TransactionPool {
    transactions: Vec<Transaction>,
}

impl View for TransactionPool {
    type V = Multiset<TransactionView>;

    /// The waiting transactions as a bag: how often each one waits, in no order.
    closed spec fn view(&self) -> Multiset<TransactionView> {
        bag(self.transactions@)
    }
}

impl TransactionPool {
    /// The transactions are laid out in heap order.
    pub closed spec fn wf(&self) -> bool {
        heap_ordered(self.transactions@)
    }

    /// An empty pool.
    pub fn new() -> (pool: TransactionPool)
        ensures
            pool.wf(),
            pool@ == Multiset::<TransactionView>::empty(),
    {
        let pool = TransactionPool { transactions: Vec::new() };
        proof {
            broadcast use vstd::seq_lib::group_to_multiset_ensures;
            broadcast use vstd::multiset::group_multiset_axioms;

            assert(transactions_view(pool.transactions@) =~= Seq::empty());
            assert(pool@.len() == 0);
            assert(pool@ =~= Multiset::<TransactionView>::empty());
        }
        pool
    }

    /// The number of waiting transactions.
    pub fn len(&self) -> (count: usize)
        ensures
            count == self@.len(),
    {
        proof {
            broadcast use vstd::seq_lib::group_to_multiset_ensures;

        }
        self.transactions.len()
    }

    /// Adds a transaction to the pool. The pool takes every transaction: it
    /// has no bound of its own.
    pub fn add_transaction_to_pool(&mut self, transaction: Transaction)
        requires
            old(self).wf(),
        ensures
            final(self).wf(),
            final(self)@ == old(self)@.insert(transaction@),
            final(self)@.len() == old(self)@.len() + 1,
    {
        let ghost before = self.transactions@;
        self.transactions.push(transaction);
        let ghost grown = self.transactions@;
        proof {
            lemma_pushed(before, transaction);
        }
        let mut hole: usize = self.transactions.len() - 1;
        while hole > 0
            invariant
                hole < self.transactions@.len(),
                ordered_above(self.transactions@, hole as int),
                bridged(self.transactions@, hole as int),
                bag(self.transactions@) == bag(grown),
            ensures
                heap_ordered(self.transactions@),
                bag(self.transactions@) == bag(grown),
            decreases hole,
        {
            let above: usize = (hole - 1) / 2;
            if self.transactions[above].fee >= self.transactions[hole].fee {
                proof {
                    lemma_sift_up_done(self.transactions@, hole as int);
                }
                break;
            }
            let ghost unsorted = self.transactions@;
            swap_items(&mut self.transactions, above, hole);
            proof {
                lemma_sift_up_step(unsorted, hole as int);
            }
            hole = above;
        }
        proof {
            if hole == 0 {
                lemma_sift_up_done(self.transactions@, 0);
            }
        }
    }

    /// Restores the heap order below `start`, where it may be broken.
    fn sift_down(&mut self, start: usize)
        requires
            start < old(self).transactions@.len(),
            ordered_below(old(self).transactions@, start as int),
            bridged(old(self).transactions@, start as int),
        ensures
            final(self).wf(),
            final(self)@ == old(self)@,
            final(self).transactions@.len() == old(self).transactions@.len(),
    {
        let mut hole: usize = start;
        let count: usize = self.transactions.len();
        loop
            invariant
                hole < count,
                count == self.transactions@.len(),
                ordered_below(self.transactions@, hole as int),
                bridged(self.transactions@, hole as int),
                bag(self.transactions@) == bag(old(self).transactions@),
            ensures
                heap_ordered(self.transactions@),
                count == self.transactions@.len(),
                bag(self.transactions@) == bag(old(self).transactions@),
            decreases count - hole,
        {
            if hole >= count / 2 {
                proof {
                    lemma_sift_down_done(self.transactions@, hole as int, hole as int);
                }
                break;
            }
            let left: usize = 2 * hole + 1;
            let right: usize = left + 1;
            let child: usize = if right < count && self.transactions[right].fee
                > self.transactions[left].fee {
                right
            } else {
                left
            };
            if self.transactions[hole].fee >= self.transactions[child].fee {
                proof {
                    lemma_sift_down_done(self.transactions@, hole as int, child as int);
                }
                break;
            }
            let ghost unsorted = self.transactions@;
            swap_items(&mut self.transactions, hole, child);
            proof {
                lemma_sift_down_step(unsorted, hole as int, child as int);
            }
            hole = child;
        }
    }

    /// Takes the transaction with the highest fee out of the pool, if the
    /// pool holds any. Which of several transactions with the highest fee
    /// leaves is not determined.
    pub fn pop(&mut self) -> (popped: Option<Transaction>)
        requires
            old(self).wf(),
        ensures
            final(self).wf(),
            match popped {
                Some(transaction) => {
                    &&& old(self)@.contains(transaction@)
                    &&& final(self)@ == old(self)@.remove(transaction@)
                    &&& forall|other: TransactionView|
                        old(self)@.contains(other) ==> other.fee <= transaction.fee
                    &&& forall|other: TransactionView|
                        final(self)@.contains(other) ==> other.fee <= transaction.fee
                },
                None => old(self)@.len() == 0 && final(self)@ == old(self)@,
            },
    {
        let ghost before = self.transactions@;
        let count = self.transactions.len();
        if count == 0 {
            proof {
                lemma_bag_len(before);
            }
            return None;
        }
        if count > 1 {
            swap_items(&mut self.transactions, 0, count - 1);
        }
        let ghost swapped = self.transactions@;
        let popped = self.transactions.pop();
        let transaction = popped.unwrap();
        let ghost left = self.transactions@;
        proof {
            assert(left =~= swapped.drop_last());
            lemma_root_taken(before, swapped, left);
        }
        if count > 1 {
            proof {
                assert forall|i: int| 1 <= i < left.len() && parent(i) != 0 implies left[parent(
                    i,
                )].fee >= (#[trigger] left[i]).fee by {
                    assert(left[i] == before[i]);
                    assert(left[parent(i)] == before[parent(i)]);
                }
            }
            self.sift_down(0);
        }
        Some(transaction)
    }

    /// Puts every transaction of `transactions` into the pool.
    pub fn add_all(&mut self, transactions: Vec<Transaction>)
        requires
            old(self).wf(),
        ensures
            final(self).wf(),
            final(self)@ == old(self)@.add(bag(transactions@)),
    {
        let ghost all = transactions@;
        let ghost before = self@;
        let mut remaining = transactions;
        while remaining.len() > 0
            invariant
                self.wf(),
                self@.add(bag(remaining@)) == before.add(bag(all)),
            decreases remaining@.len(),
        {
            let ghost waiting = self@;
            let ghost left = remaining@;
            let transaction = remaining.pop().unwrap();
            self.add_transaction_to_pool(transaction);
            proof {
                assert(left =~= remaining@.push(transaction));
                lemma_moved_into_pool(waiting, remaining@, transaction);
            }
        }
        proof {
            lemma_nothing_to_add(self@, remaining@);
        }
    }

    /// Takes the batch for the next block: the `BATCH_SIZE` transactions with
    /// the highest fees, highest first. Where fewer are waiting, nothing is
    /// taken.
    pub fn poll(&mut self) -> (batch: Option<Vec<Transaction>>)
        requires
            old(self).wf(),
        ensures
            final(self).wf(),
            match batch {
                Some(taken) => old(self)@.len() >= BATCH_SIZE && highest_batch(
                    old(self)@,
                    final(self)@,
                    taken@,
                ),
                None => old(self)@.len() < BATCH_SIZE && final(self)@ == old(self)@,
            },
    {
        if self.len() < BATCH_SIZE {
            return None;
        }
        let mut taken: Vec<Transaction> = Vec::new();
        proof {
            lemma_nothing_to_add(self@, taken@);
        }
        while taken.len() < BATCH_SIZE
            invariant
                self.wf(),
                taken@.len() <= BATCH_SIZE,
                self@.len() + taken@.len() == old(self)@.len(),
                old(self)@.len() >= BATCH_SIZE,
                old(self)@ == self@.add(bag(taken@)),
                descending(taken@),
                covered(self@, taken@),
            decreases BATCH_SIZE - taken@.len(),
        {
            let ghost waiting = self@;
            let ghost so_far = taken@;
            let popped = self.pop();
            let transaction = popped.unwrap();
            taken.push(transaction);
            proof {
                lemma_moved_into_batch(waiting, self@, so_far, transaction);
            }
        }
        Some(taken)
    }
}

} // verus!
