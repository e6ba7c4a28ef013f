//! Theorems about a round of mining: the batches are the top of the pool,
//! a round whose blocks are all accepted moves exactly that top into blocks,
//! and of two siblings that spend the same output at most the first is
//! accepted.

use crate::block::{candidate, mined, BlockView};
use crate::blockchain::{with_block, LedgerView};
use crate::history::{all_created_keys, created_keys, lemma_apply_tx_domain, lemma_apply_txs_domain};
use crate::mempool::{
    distinct_hashes, drain_count, holds_hash, lemma_ordered_fees_fall, lemma_slot, pool_insert,
    pool_insert_all, pool_ordered, requeue_restores_the_pool, slot,
};
use crate::mining::{
    accepted_count, batches, lemma_settle_extends, round_outcome, settle, settle_one, undrained,
    MinedView,
};
use crate::transaction::{TransactionView, TxOutputView};
use crate::utxo::{all_spent_keys, apply_txs, spent_keys};
use crate::validation::block_valid;
use vstd::prelude::*;
use vstd::seq_lib::lemma_multiset_commutative;

verus! {

/// The lists one after the other.
pub open spec fn flatten(groups: Seq<Seq<TransactionView>>) -> Seq<TransactionView>
    decreases groups.len(),
{
    if groups.len() == 0 {
        Seq::empty()
    } else {
        groups[0] + flatten(groups.drop_first())
    }
}

/// The smaller of two numbers.
pub open spec fn smaller(a: int, b: int) -> int {
    if a <= b {
        a
    } else {
        b
    }
}

/// The batches of a round, one after the other and followed by what is
/// left, are the pool as it was; and they hold `count * size` transactions, or
/// the whole pool if that is less.
pub proof fn batches_are_the_top_of_the_pool(pool: Seq<TransactionView>, count: nat, size: usize)
    ensures
        flatten(batches(pool, count, size)) + undrained(pool, count, size) == pool,
        flatten(batches(pool, count, size)).len() == smaller(count * size, pool.len() as int),
    decreases count,
{
    let n = drain_count(pool, size);
    if count == 0 || n == 0 {
        assert(flatten(batches(pool, count, size)) =~= Seq::<TransactionView>::empty());
        assert(flatten(batches(pool, count, size)) + pool =~= pool);
        assert(count * size >= 0) by (nonlinear_arith)
            requires
                count >= 0,
                size >= 0,
        ;
        if count == 0 {
            assert(count * size == 0) by (nonlinear_arith)
                requires
                    count == 0,
            ;
        } else if size == 0 {
            assert(count * size == 0) by (nonlinear_arith)
                requires
                    size == 0,
            ;
        }
    } else {
        let rest = pool.skip(n);
        let later = batches(rest, (count - 1) as nat, size);
        let all = batches(pool, count, size);
        batches_are_the_top_of_the_pool(rest, (count - 1) as nat, size);
        assert(all[0] == pool.take(n));
        assert(all.drop_first() =~= later);
        assert(flatten(all) == pool.take(n) + flatten(later));
        assert(flatten(all) + undrained(pool, count, size) =~= pool.take(n) + (flatten(later)
            + undrained(rest, (count - 1) as nat, size)));
        assert(pool.take(n) + rest =~= pool);
        assert((count - 1) * size + size == count * size) by (nonlinear_arith);
        assert((count - 1) * size >= 0) by (nonlinear_arith)
            requires
                count >= 1,
                size >= 0,
        ;
    }
}

/// In a pool in order of priority the fees never rise along the batches,
/// and no transaction that is left has a higher fee than one in a batch.
pub proof fn batches_hold_the_highest_fees(pool: Seq<TransactionView>, count: nat, size: usize)
    requires
        pool_ordered(pool),
    ensures
        ({
            let taken = flatten(batches(pool, count, size));
            let left = undrained(pool, count, size);
            &&& forall|i: int, j: int|
                0 <= i < j < taken.len() ==> (#[trigger] taken[i]).fee >= (#[trigger] taken[j]).fee
            &&& forall|i: int, k: int|
                0 <= i < taken.len() && 0 <= k < left.len() ==> (#[trigger] taken[i]).fee >= (
                #[trigger] left[k]).fee
        }),
{
    let taken = flatten(batches(pool, count, size));
    let left = undrained(pool, count, size);
    batches_are_the_top_of_the_pool(pool, count, size);
    lemma_ordered_fees_fall(pool);
    assert forall|i: int, j: int| 0 <= i < j < taken.len() implies (#[trigger] taken[i]).fee >= (
    #[trigger] taken[j]).fee by {
        assert((taken + left)[i] == taken[i] && (taken + left)[j] == taken[j]);
        assert(pool[i].fee >= pool[j].fee);
    }
    assert forall|i: int, k: int| 0 <= i < taken.len() && 0 <= k < left.len() implies (
    #[trigger] taken[i]).fee >= (#[trigger] left[k]).fee by {
        assert((taken + left)[i] == taken[i]);
        assert((taken + left)[taken.len() + k] == left[k]);
        assert(pool[i].fee >= pool[taken.len() + k].fee);
    }
}

/// The blocks of the mined results, in order.
pub open spec fn blocks_of(done: Seq<MinedView>) -> Seq<BlockView> {
    Seq::new(done.len(), |i: int| done[i].block)
}

/// The transactions of each block, in order.
pub open spec fn transactions_of(blocks: Seq<BlockView>) -> Seq<Seq<TransactionView>> {
    Seq::new(blocks.len(), |i: int| blocks[i].transactions)
}

/// Where every mined block is accepted, settling appends the blocks in
/// order and leaves the mempool alone.
pub proof fn lemma_settle_all_accepted(l: LedgerView, done: Seq<MinedView>)
    requires
        accepted_count(l, done) == done.len(),
    ensures
        settle(l, done).blocks == l.blocks + blocks_of(done),
        settle(l, done).mempool == l.mempool,
    decreases done.len(),
{
    if done.len() == 0 {
        assert(l.blocks + blocks_of(done) =~= l.blocks);
    } else {
        let earlier = done.drop_last();
        lemma_settle_extends(l, earlier);
        lemma_settle_all_accepted(l, earlier);
        assert(settle(l, done).blocks =~= l.blocks + blocks_of(done)) by {
            assert(blocks_of(done).drop_last() =~= blocks_of(earlier));
            assert(blocks_of(done).last() == done.last().block);
        }
    }
}

/// A round in which every mined block is accepted moves the top of the
/// pool into the blocks: the new blocks hold the batches, in order, so their
/// transactions followed by what waits afterwards are the pool as it was.
/// With the pool in order of priority, the fees never rise along the new
/// blocks, and nothing that still waits has a higher fee than a transaction
/// in one of them.
pub proof fn accepted_round_takes_the_top(
    before: LedgerView,
    count: usize,
    size: usize,
    timestamp: i64,
    done: Seq<MinedView>,
    after: LedgerView,
)
    requires
        round_outcome(before, count, size, timestamp, done, after),
        accepted_count(
            LedgerView { mempool: undrained(before.mempool, count as nat, size), ..before },
            done,
        ) == done.len(),
    ensures
        after.blocks == before.blocks + blocks_of(done),
        transactions_of(blocks_of(done)) == batches(before.mempool, count as nat, size),
        after.mempool == undrained(before.mempool, count as nat, size),
        flatten(transactions_of(blocks_of(done))) + after.mempool == before.mempool,
        flatten(transactions_of(blocks_of(done))).len() == smaller(
            count * size,
            before.mempool.len() as int,
        ),
{
    let drained = LedgerView { mempool: undrained(before.mempool, count as nat, size), ..before };
    let groups = batches(before.mempool, count as nat, size);
    lemma_settle_all_accepted(drained, done);
    assert forall|i: int| 0 <= i < done.len() implies transactions_of(blocks_of(done))[i]
        == groups[i] by {
        let planned = candidate(
            (before.blocks.len() + i) as u64,
            timestamp,
            groups[i],
            before.tips,
        );
        assert(mined(planned, done[i].block, before.difficulty, done[i].outcome));
    }
    assert(transactions_of(blocks_of(done)) =~= groups);
    batches_are_the_top_of_the_pool(before.mempool, count as nat, size);
}

/// A round of one block. The block is mined from the transactions of
/// highest priority, as many as a block takes. If the search succeeds and the
/// block is valid it is accepted and all other transactions wait as before;
/// if not, its transactions go back to their places and the ledger is as it
/// was.
pub proof fn round_of_one_block(
    before: LedgerView,
    size: usize,
    timestamp: i64,
    done: Seq<MinedView>,
    after: LedgerView,
)
    requires
        round_outcome(before, 1, size, timestamp, done, after),
        pool_ordered(before.mempool),
        distinct_hashes(before.mempool),
        before.mempool.len() > 0,
        size > 0,
    ensures
        done.len() == 1,
        done[0].block.transactions == before.mempool.take(drain_count(before.mempool, size)),
        done[0].block.parents == before.tips,
        if done[0].outcome is Ok && block_valid(done[0].block, before.utxo, before.difficulty) {
            after == with_block(
                LedgerView {
                    mempool: before.mempool.skip(drain_count(before.mempool, size)),
                    ..before
                },
                done[0].block,
            )
        } else {
            after == before
        },
{
    let pool = before.mempool;
    let n = drain_count(pool, size);
    let groups = batches(pool, 1, size);
    let none = batches(pool.skip(n), 0, size);
    assert(none =~= Seq::<Seq<TransactionView>>::empty());
    assert(groups =~= seq![pool.take(n)]);
    assert(undrained(pool.skip(n), 0, size) == pool.skip(n));
    assert(undrained(pool, 1, size) == pool.skip(n));
    let drained = LedgerView { mempool: pool.skip(n), ..before };
    let planned = candidate((before.blocks.len() + 0) as u64, timestamp, groups[0], before.tips);
    assert(mined(planned, done[0].block, before.difficulty, done[0].outcome));
    assert(done.drop_last() =~= Seq::<MinedView>::empty());
    assert(settle(drained, done.drop_last()) == drained);
    assert(done.last() == done[0]);
    assert(after == settle_one(drained, done[0]));
    requeue_restores_the_pool(pool, n);
}

/// The transactions of the mined blocks, in order.
pub open spec fn mined_transactions(done: Seq<MinedView>) -> Seq<TransactionView>
    decreases done.len(),
{
    if done.len() == 0 {
        Seq::empty()
    } else {
        mined_transactions(done.drop_last()) + done.last().block.transactions
    }
}

/// The transactions of those mined blocks that are accepted when the
/// blocks are settled, in order.
pub open spec fn moved_into_blocks(l: LedgerView, done: Seq<MinedView>) -> Seq<TransactionView>
    decreases done.len(),
{
    if done.len() == 0 {
        Seq::empty()
    } else {
        let earlier = settle(l, done.drop_last());
        let m = done.last();
        if m.outcome is Ok && block_valid(m.block, earlier.utxo, earlier.difficulty) {
            moved_into_blocks(l, done.drop_last()) + m.block.transactions
        } else {
            moved_into_blocks(l, done.drop_last())
        }
    }
}

/// A transaction whose hash does not wait yet is added to the pool, and
/// nothing else changes in what the pool holds.
pub proof fn lemma_insert_adds_one(pool: Seq<TransactionView>, tx: TransactionView)
    requires
        !holds_hash(pool, tx.hash),
    ensures
        pool_insert(pool, tx).to_multiset() == pool.to_multiset().insert(tx),
        forall|i: int|
            0 <= i < pool_insert(pool, tx).len() ==> #[trigger] pool_insert(pool, tx)[i] == tx
                || pool.contains(pool_insert(pool, tx)[i]),
{
    broadcast use vstd::multiset::group_multiset_axioms;

    lemma_slot(pool, tx);
    let at = slot(pool, tx);
    let head = pool.subrange(0, at);
    let tail = pool.subrange(at, pool.len() as int);
    let after = pool_insert(pool, tx);
    assert(after == head.push(tx) + tail);
    assert(pool =~= head + tail);
    head.to_multiset_ensures();
    lemma_multiset_commutative(head.push(tx), tail);
    lemma_multiset_commutative(head, tail);
    assert(after.to_multiset() =~= pool.to_multiset().insert(tx));
    assert forall|i: int| 0 <= i < after.len() implies #[trigger] after[i] == tx || pool.contains(
        after[i],
    ) by {
        if i < at {
            assert(after[i] == pool[i]);
        } else if i > at {
            assert(after[i] == pool[i - 1]);
        }
    }
}

/// Transactions whose hashes differ from each other and from all that wait
/// are all added to the pool: the pool then holds what it held and them.
pub proof fn lemma_insert_all_adds_all(pool: Seq<TransactionView>, txs: Seq<TransactionView>)
    requires
        forall|i: int| 0 <= i < txs.len() ==> !holds_hash(pool, (#[trigger] txs[i]).hash),
        distinct_hashes(txs),
    ensures
        pool_insert_all(pool, txs).to_multiset() == pool.to_multiset().add(txs.to_multiset()),
    decreases txs.len(),
{
    broadcast use vstd::multiset::group_multiset_axioms;

    if txs.len() == 0 {
        txs.to_multiset_ensures();
        assert forall|v: TransactionView| txs.to_multiset().count(v) == 0 by {
            assert(!txs.contains(v));
        }
        assert(pool.to_multiset().add(txs.to_multiset()) =~= pool.to_multiset());
    } else {
        let first = txs[0];
        let rest = txs.drop_first();
        let grown = pool_insert(pool, first);
        lemma_insert_adds_one(pool, first);
        assert forall|i: int| 0 <= i < rest.len() implies !holds_hash(
            grown,
            (#[trigger] rest[i]).hash,
        ) by {
            assert(rest[i] == txs[i + 1]);
            assert(!holds_hash(pool, txs[i + 1].hash));
            if holds_hash(grown, rest[i].hash) {
                let k = choose|k: int| 0 <= k < grown.len() && (#[trigger] grown[k]).hash
                    == rest[i].hash;
                if grown[k] == first {
                    assert(txs[0].hash != txs[i + 1].hash);
                } else {
                    assert(pool.contains(grown[k]));
                    let j = choose|j: int| 0 <= j < pool.len() && pool[j] == grown[k];
                    assert(pool[j].hash == txs[i + 1].hash);
                }
            }
        }
        assert forall|i: int, j: int|
            0 <= i < rest.len() && 0 <= j < rest.len() && i != j implies (#[trigger] rest[i]).hash
            != (#[trigger] rest[j]).hash by {
            assert(txs[i + 1].hash != txs[j + 1].hash);
        }
        lemma_insert_all_adds_all(grown, rest);
        assert(txs =~= seq![first] + rest);
        lemma_multiset_commutative(seq![first], rest);
        assert(seq![first].to_multiset() =~= vstd::multiset::Multiset::<
            TransactionView,
        >::empty().insert(first)) by {
            Seq::<TransactionView>::empty().to_multiset_ensures();
            assert(seq![first] =~= Seq::<TransactionView>::empty().push(first));
            assert(Seq::<TransactionView>::empty().to_multiset() =~= vstd::multiset::Multiset::<
                TransactionView,
            >::empty());
        }
        assert(pool_insert_all(pool, txs).to_multiset() =~= pool.to_multiset().add(
            txs.to_multiset(),
        ));
    }
}

/// Settling loses no transaction and makes none: where the waiting and the
/// mined transactions all have different hashes, what waits afterwards
/// together with what went into accepted blocks is what waited before
/// together with what was mined.
pub proof fn lemma_settle_keeps_transactions(l: LedgerView, done: Seq<MinedView>)
    requires
        distinct_hashes(l.mempool + mined_transactions(done)),
    ensures
        settle(l, done).mempool.to_multiset().add(moved_into_blocks(l, done).to_multiset())
            == l.mempool.to_multiset().add(mined_transactions(done).to_multiset()),
    decreases done.len(),
{
    broadcast use vstd::multiset::group_multiset_axioms;

    let all = l.mempool + mined_transactions(done);
    if done.len() == 0 {
        assert(settle(l, done).mempool.to_multiset().add(moved_into_blocks(l, done).to_multiset())
            =~= l.mempool.to_multiset().add(mined_transactions(done).to_multiset()));
    } else {
        let earlier = done.drop_last();
        let m = done.last();
        let batch = m.block.transactions;
        let mined_before = mined_transactions(earlier);
        let known = l.mempool + mined_before;
        assert(all =~= known + batch);
        assert forall|i: int, j: int|
            0 <= i < known.len() && 0 <= j < known.len() && i != j implies (#[trigger] known[i]).hash
            != (#[trigger] known[j]).hash by {
            assert(all[i] == known[i] && all[j] == known[j]);
        }
        lemma_settle_keeps_transactions(l, earlier);
        let state = settle(l, earlier);
        let moved_before = moved_into_blocks(l, earlier);
        lemma_multiset_commutative(mined_before, batch);
        lemma_multiset_commutative(moved_before, batch);
        lemma_multiset_commutative(l.mempool, mined_before);
        assert(mined_transactions(done) == mined_before + batch);
        // What the induction gives, count by count.
        assert forall|v: TransactionView|
            state.mempool.to_multiset().count(v) + moved_before.to_multiset().count(v)
                == l.mempool.to_multiset().count(v) + mined_before.to_multiset().count(v) by {
            assert(state.mempool.to_multiset().add(moved_before.to_multiset()).count(v)
                == l.mempool.to_multiset().add(mined_before.to_multiset()).count(v));
        }
        if m.outcome is Ok && block_valid(m.block, state.utxo, state.difficulty) {
            assert(settle(l, done).mempool == state.mempool);
            assert(moved_into_blocks(l, done) == moved_before + batch);
            assert forall|v: TransactionView|
                settle(l, done).mempool.to_multiset().add(
                    moved_into_blocks(l, done).to_multiset(),
                ).count(v) == l.mempool.to_multiset().add(
                    mined_transactions(done).to_multiset(),
                ).count(v) by {
                assert((moved_before + batch).to_multiset().count(v)
                    == moved_before.to_multiset().count(v) + batch.to_multiset().count(v));
                assert((mined_before + batch).to_multiset().count(v)
                    == mined_before.to_multiset().count(v) + batch.to_multiset().count(v));
            }
            assert(settle(l, done).mempool.to_multiset().add(
                moved_into_blocks(l, done).to_multiset(),
            ) =~= l.mempool.to_multiset().add(mined_transactions(done).to_multiset()));
        } else {
            assert forall|i: int| 0 <= i < batch.len() implies !holds_hash(
                state.mempool,
                (#[trigger] batch[i]).hash,
            ) by {
                if holds_hash(state.mempool, batch[i].hash) {
                    let k = choose|k: int|
                        0 <= k < state.mempool.len() && (#[trigger] state.mempool[k]).hash
                            == batch[i].hash;
                    let y = state.mempool[k];
                    state.mempool.to_multiset_ensures();
                    known.to_multiset_ensures();
                    assert(state.mempool.contains(y));
                    assert(state.mempool.to_multiset().count(y) > 0);
                    assert(known.to_multiset().count(y) == l.mempool.to_multiset().count(y)
                        + mined_before.to_multiset().count(y));
                    assert(known.to_multiset().count(y) > 0);
                    assert(known.contains(y));
                    let p = choose|p: int| 0 <= p < known.len() && known[p] == y;
                    assert(all[p] == y);
                    assert(all[known.len() + i] == batch[i]);
                }
            }
            assert forall|i: int, j: int|
                0 <= i < batch.len() && 0 <= j < batch.len() && i != j implies (
            #[trigger] batch[i]).hash != (#[trigger] batch[j]).hash by {
                assert(all[known.len() + i] == batch[i] && all[known.len() + j] == batch[j]);
            }
            lemma_insert_all_adds_all(state.mempool, batch);
            assert(settle(l, done).mempool == pool_insert_all(state.mempool, batch));
            assert(moved_into_blocks(l, done) == moved_before);
            assert forall|v: TransactionView|
                settle(l, done).mempool.to_multiset().add(
                    moved_into_blocks(l, done).to_multiset(),
                ).count(v) == l.mempool.to_multiset().add(
                    mined_transactions(done).to_multiset(),
                ).count(v) by {
                assert(pool_insert_all(state.mempool, batch).to_multiset().count(v)
                    == state.mempool.to_multiset().count(v) + batch.to_multiset().count(v));
                assert((mined_before + batch).to_multiset().count(v)
                    == mined_before.to_multiset().count(v) + batch.to_multiset().count(v));
            }
            assert(settle(l, done).mempool.to_multiset().add(
                moved_into_blocks(l, done).to_multiset(),
            ) =~= l.mempool.to_multiset().add(mined_transactions(done).to_multiset()));
        }
    }
}

/// Lists followed by one more list, one after the other.
pub proof fn lemma_flatten_push(groups: Seq<Seq<TransactionView>>, last: Seq<TransactionView>)
    ensures
        flatten(groups.push(last)) == flatten(groups) + last,
    decreases groups.len(),
{
    let longer = groups.push(last);
    if groups.len() == 0 {
        assert(longer.drop_first() =~= Seq::<Seq<TransactionView>>::empty());
        assert(flatten(longer.drop_first()) =~= Seq::<TransactionView>::empty());
        assert(longer[0] == last);
        assert(flatten(longer) =~= flatten(groups) + last);
    } else {
        lemma_flatten_push(groups.drop_first(), last);
        assert(longer.drop_first() =~= groups.drop_first().push(last));
        assert(longer[0] == groups[0]);
        assert(flatten(longer) == longer[0] + flatten(longer.drop_first()));
        assert(flatten(groups) == groups[0] + flatten(groups.drop_first()));
        assert(flatten(longer) =~= flatten(groups) + last);
    }
}

/// The transactions of the blocks that settling appends are those of the
/// mined blocks that are accepted.
pub proof fn lemma_new_blocks_hold_what_moved(l: LedgerView, done: Seq<MinedView>)
    ensures
        flatten(transactions_of(settle(l, done).blocks.skip(l.blocks.len() as int)))
            == moved_into_blocks(l, done),
    decreases done.len(),
{
    let start = l.blocks.len() as int;
    if done.len() == 0 {
        assert(l.blocks.skip(start) =~= Seq::<BlockView>::empty());
        assert(transactions_of(l.blocks.skip(start)) =~= Seq::<Seq<TransactionView>>::empty());
    } else {
        let earlier = done.drop_last();
        let m = done.last();
        let state = settle(l, earlier);
        lemma_new_blocks_hold_what_moved(l, earlier);
        lemma_settle_extends(l, earlier);
        if m.outcome is Ok && block_valid(m.block, state.utxo, state.difficulty) {
            let added = state.blocks.skip(start);
            assert(settle(l, done).blocks.skip(start) =~= added.push(m.block));
            assert(transactions_of(added.push(m.block)) =~= transactions_of(added).push(
                m.block.transactions,
            ));
            lemma_flatten_push(transactions_of(added), m.block.transactions);
        }
    }
}

/// The transactions of mined blocks are the lists of their blocks, one
/// after the other.
pub proof fn lemma_mined_transactions_flat(done: Seq<MinedView>)
    ensures
        mined_transactions(done) == flatten(transactions_of(blocks_of(done))),
    decreases done.len(),
{
    if done.len() == 0 {
        assert(transactions_of(blocks_of(done)) =~= Seq::<Seq<TransactionView>>::empty());
    } else {
        let earlier = done.drop_last();
        lemma_mined_transactions_flat(earlier);
        assert(transactions_of(blocks_of(done)) =~= transactions_of(blocks_of(earlier)).push(
            done.last().block.transactions,
        ));
        lemma_flatten_push(transactions_of(blocks_of(earlier)), done.last().block.transactions);
    }
}

/// Two lists whose hashes all differ when the first stands before the
/// second have hashes that all differ when it stands behind.
pub proof fn lemma_distinct_turned(first: Seq<TransactionView>, second: Seq<TransactionView>)
    requires
        distinct_hashes(first + second),
    ensures
        distinct_hashes(second + first),
{
    let given = first + second;
    let turned = second + first;
    assert forall|i: int, j: int|
        0 <= i < turned.len() && 0 <= j < turned.len() && i != j implies (#[trigger] turned[i]).hash
        != (#[trigger] turned[j]).hash by {
        let p = if i < second.len() {
            i + first.len()
        } else {
            i - second.len()
        };
        let q = if j < second.len() {
            j + first.len()
        } else {
            j - second.len()
        };
        assert(given[p] == turned[i] && given[q] == turned[j]);
        assert(given[p].hash != given[q].hash);
    }
}

/// A round of mining loses no transaction and makes none. Whatever the
/// searches found and whichever blocks were accepted, the transactions of the
/// new blocks together with those that wait afterwards are the transactions
/// that waited before, each once.
pub proof fn round_keeps_every_transaction(
    before: LedgerView,
    count: usize,
    size: usize,
    timestamp: i64,
    done: Seq<MinedView>,
    after: LedgerView,
)
    requires
        round_outcome(before, count, size, timestamp, done, after),
        distinct_hashes(before.mempool),
    ensures
        flatten(transactions_of(after.blocks.skip(before.blocks.len() as int))).to_multiset().add(
            after.mempool.to_multiset(),
        ) == before.mempool.to_multiset(),
{
    broadcast use vstd::multiset::group_multiset_axioms;

    let pool = before.mempool;
    let left = undrained(pool, count as nat, size);
    let groups = batches(pool, count as nat, size);
    let taken = flatten(groups);
    let drained = LedgerView { mempool: left, ..before };
    batches_are_the_top_of_the_pool(pool, count as nat, size);
    assert forall|i: int| 0 <= i < done.len() implies transactions_of(blocks_of(done))[i]
        == groups[i] by {
        let planned = candidate(
            (before.blocks.len() + i) as u64,
            timestamp,
            groups[i],
            before.tips,
        );
        assert(mined(planned, done[i].block, before.difficulty, done[i].outcome));
    }
    assert(transactions_of(blocks_of(done)) =~= groups);
    lemma_mined_transactions_flat(done);
    assert(mined_transactions(done) == taken);
    lemma_distinct_turned(taken, left);
    lemma_settle_keeps_transactions(drained, done);
    lemma_new_blocks_hold_what_moved(drained, done);
    lemma_multiset_commutative(taken, left);
    assert(pool.to_multiset() =~= taken.to_multiset().add(left.to_multiset()));
    let moved = flatten(transactions_of(after.blocks.skip(before.blocks.len() as int)));
    assert(moved == moved_into_blocks(drained, done));
    assert forall|v: TransactionView|
        moved.to_multiset().add(after.mempool.to_multiset()).count(v)
            == before.mempool.to_multiset().count(v) by {
        assert(after.mempool.to_multiset().add(moved.to_multiset()).count(v)
            == left.to_multiset().add(taken.to_multiset()).count(v));
        assert(pool.to_multiset().count(v) == taken.to_multiset().add(left.to_multiset()).count(
            v,
        ));
    }
    assert(moved.to_multiset().add(after.mempool.to_multiset()) =~= before.mempool.to_multiset());
}

/// An output that a list of transactions creates and does not spend is
/// unspent after them.
pub proof fn lemma_created_stays(
    utxo: Map<Seq<char>, TxOutputView>,
    txs: Seq<TransactionView>,
    key: Seq<char>,
)
    requires
        all_created_keys(txs).contains(key),
        !all_spent_keys(txs).contains(key),
    ensures
        apply_txs(utxo, txs).contains_key(key),
    decreases txs.len(),
{
    if txs.len() > 0 {
        let shorter = txs.drop_last();
        let t = txs.last();
        let spent = all_spent_keys(shorter);
        let created = all_created_keys(shorter);
        lemma_apply_tx_domain(apply_txs(utxo, shorter), t);
        if spent_keys(t).contains(key) {
            let i = choose|i: int| 0 <= i < spent_keys(t).len() && spent_keys(t)[i] == key;
            assert(all_spent_keys(txs)[spent.len() + i] == key);
        }
        if !created_keys(t).contains(key) {
            let i = choose|i: int|
                0 <= i < all_created_keys(txs).len() && all_created_keys(txs)[i] == key;
            if i >= created.len() {
                assert(created_keys(t)[i - created.len()] == key);
            }
            assert(created[i] == key);
            if spent.contains(key) {
                let j = choose|j: int| 0 <= j < spent.len() && spent[j] == key;
                assert(all_spent_keys(txs)[j] == key);
            }
            lemma_created_stays(utxo, shorter, key);
        }
    }
}

/// What an accepted block does to the unspent outputs: an output that it
/// spends and does not create is unspent no more, and an output that it
/// creates and does not spend is unspent.
pub proof fn accepted_block_moves_outputs(l: LedgerView, b: BlockView, key: Seq<char>)
    ensures
        all_spent_keys(b.transactions).contains(key) && !all_created_keys(b.transactions).contains(
            key,
        ) ==> !with_block(l, b).utxo.contains_key(key),
        all_created_keys(b.transactions).contains(key) && !all_spent_keys(b.transactions).contains(
            key,
        ) ==> with_block(l, b).utxo.contains_key(key),
{
    lemma_apply_txs_domain(l.utxo, b.transactions);
    if all_created_keys(b.transactions).contains(key) && !all_spent_keys(b.transactions).contains(
        key,
    ) {
        lemma_created_stays(l.utxo, b.transactions, key);
    }
}

/// Of two siblings that spend the same output at most the first is
/// accepted: once a block that spends an output, and does not create it anew,
/// has been accepted, a block that spends the same output is not valid
/// against the ledger, and settling it changes nothing but the mempool, to
/// which its transactions go back.
pub proof fn sibling_that_spends_the_same_output_is_refused(
    l: LedgerView,
    first: BlockView,
    second: MinedView,
    key: Seq<char>,
)
    requires
        all_spent_keys(first.transactions).contains(key),
        !all_created_keys(first.transactions).contains(key),
        all_spent_keys(second.block.transactions).contains(key),
    ensures
        !block_valid(second.block, with_block(l, first).utxo, l.difficulty),
        settle_one(with_block(l, first), second) == (LedgerView {
            mempool: pool_insert_all(l.mempool, second.block.transactions),
            ..with_block(l, first)
        }),
{
    accepted_block_moves_outputs(l, first, key);
    let keys = all_spent_keys(second.block.transactions);
    let i = choose|i: int| 0 <= i < keys.len() && keys[i] == key;
    assert(!with_block(l, first).utxo.contains_key(keys[i]));
}

} // verus!
