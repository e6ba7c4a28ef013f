//! A round of mining: batches of waiting transactions become sibling blocks
//! on the current tips, the blocks are mined side by side, and each is then
//! accepted or its transactions go back to the mempool.

use crate::block::{
    all_hex, candidate, clone_strings, mined, tx_hashes, unix_now, Block, BlockView, MineError,
};
use crate::blockchain::{with_block, DagBlockchain, LedgerView};
use crate::hexcode::{decode, is_hex};
use crate::history::{ledger_consistent, lemma_accept_keeps_consistent};
use crate::mempool::{drain_count, pool_insert_all};
use crate::transaction::{
    all_verify, lemma_sealed_hash_is_hex, tx_verifies, view_all, Transaction, TransactionView,
};
use crate::validation::block_valid;
use rayon::iter::{IntoParallelIterator, ParallelIterator};
use vstd::prelude::*;

verus! {

/// A block after the search for a nonce, with how the search ended.
#[derive(Debug)]
pub struct Mined {
    pub block: Block,
    pub outcome: Result<(), MineError>,
}

/// A mined block as a mathematical value.
pub struct MinedView {
    pub block: BlockView,
    pub outcome: Result<(), MineError>,
}

impl View for Mined {
    type V = MinedView;

    open spec fn view(&self) -> MinedView {
        MinedView { block: self.block@, outcome: self.outcome }
    }
}

/// The views of the lists of a list of lists.
pub open spec fn group_views(groups: Seq<Vec<Transaction>>) -> Seq<Seq<TransactionView>> {
    Seq::new(groups.len(), |i: int| view_all(groups[i]@))
}

/// The batches that a round takes from a pool: at most `count` of them,
/// each the next `size` entries of highest priority, the last one shorter if
/// the pool runs out, and none that is empty.
pub open spec fn batches(pool: Seq<TransactionView>, count: nat, size: usize) -> Seq<
    Seq<TransactionView>,
>
    decreases count,
{
    if count == 0 || drain_count(pool, size) == 0 {
        Seq::empty()
    } else {
        seq![pool.take(drain_count(pool, size))] + batches(
            pool.skip(drain_count(pool, size)),
            (count - 1) as nat,
            size,
        )
    }
}

/// What is left of the pool when the batches have been taken.
pub open spec fn undrained(pool: Seq<TransactionView>, count: nat, size: usize) -> Seq<
    TransactionView,
>
    decreases count,
{
    if count == 0 || drain_count(pool, size) == 0 {
        pool
    } else {
        undrained(pool.skip(drain_count(pool, size)), (count - 1) as nat, size)
    }
}

/// The ledger after one mined block was settled: a block that was mined
/// with success and is valid against the ledger is accepted; the
/// transactions of any other go back to the mempool.
pub open spec fn settle_one(l: LedgerView, m: MinedView) -> LedgerView {
    if m.outcome is Ok && block_valid(m.block, l.utxo, l.difficulty) {
        with_block(l, m.block)
    } else {
        LedgerView { mempool: pool_insert_all(l.mempool, m.block.transactions), ..l }
    }
}

/// The ledger after mined blocks were settled, in order.
pub open spec fn settle(l: LedgerView, done: Seq<MinedView>) -> LedgerView
    decreases done.len(),
{
    if done.len() == 0 {
        l
    } else {
        settle_one(settle(l, done.drop_last()), done.last())
    }
}

/// How many of the mined blocks are accepted when they are settled.
pub open spec fn accepted_count(l: LedgerView, done: Seq<MinedView>) -> nat
    decreases done.len(),
{
    if done.len() == 0 {
        0
    } else {
        let earlier = settle(l, done.drop_last());
        let one: nat = if done.last().outcome is Ok && block_valid(
            done.last().block,
            earlier.utxo,
            earlier.difficulty,
        ) {
            1
        } else {
            0
        };
        accepted_count(l, done.drop_last()) + one
    }
}

/// What a round of mining with the given timestamp and mining results
/// makes of a ledger: the batches are taken from the mempool; `done` holds,
/// for each batch in order, a block mined from the candidate that has the
/// batch as its transactions, the tips of before as its parents and the
/// next free index; and these are settled in order.
pub open spec fn round_outcome(
    before: LedgerView,
    count: usize,
    size: usize,
    timestamp: i64,
    done: Seq<MinedView>,
    after: LedgerView,
) -> bool {
    let groups = batches(before.mempool, count as nat, size);
    let drained = LedgerView { mempool: undrained(before.mempool, count as nat, size), ..before };
    &&& done.len() == groups.len()
    &&& forall|i: int|
        0 <= i < done.len() ==> mined(
            candidate((before.blocks.len() + i) as u64, timestamp, groups[i], before.tips),
            (#[trigger] done[i]).block,
            before.difficulty,
            done[i].outcome,
        )
    &&& after == settle(drained, done)
}

/// The number of batches of a round that was asked for `count`: `count`,
/// or as many as there are block indices left above `height` if those are
/// fewer.
pub open spec fn round_size(height: nat, count: usize) -> usize {
    if height + count <= u64::MAX {
        count
    } else {
        (u64::MAX - height) as usize
    }
}

/// What `mine_parallel_blocks` makes of a ledger. Where a tip is not hex
/// text no block can be built and nothing changes. Otherwise the round has
/// the outcome above for the time at which it ran and for what the searches
/// found.
pub open spec fn batch_round(before: LedgerView, after: LedgerView, count: usize, size: usize) -> bool {
    if !all_hex(before.tips) {
        after == before
    } else {
        exists|timestamp: i64, done: Seq<MinedView>|
            round_outcome(
                before,
                round_size(before.blocks.len(), count),
                size,
                timestamp,
                done,
                after,
            )
    }
}

/// There are at most `count` batches, and each holds between one and `size`
/// transactions.
pub proof fn lemma_batches_bounds(pool: Seq<TransactionView>, count: nat, size: usize)
    ensures
        batches(pool, count, size).len() <= count,
        forall|i: int|
            0 <= i < batches(pool, count, size).len() ==> 1 <= (#[trigger] batches(
                pool,
                count,
                size,
            )[i]).len() <= size,
    decreases count,
{
    if !(count == 0 || drain_count(pool, size) == 0) {
        let n = drain_count(pool, size);
        lemma_batches_bounds(pool.skip(n), (count - 1) as nat, size);
        let rest = batches(pool.skip(n), (count - 1) as nat, size);
        let all = batches(pool, count, size);
        assert forall|i: int| 0 <= i < all.len() implies 1 <= (#[trigger] all[i]).len() <= size by {
            if i > 0 {
                assert(all[i] == rest[i - 1]);
            }
        }
    }
}

/// Settling keeps the difficulty and the blocks accepted before, and adds
/// as many blocks as are accepted, never more than were mined.
pub proof fn lemma_settle_extends(l: LedgerView, done: Seq<MinedView>)
    ensures
        settle(l, done).difficulty == l.difficulty,
        settle(l, done).blocks.len() == l.blocks.len() + accepted_count(l, done),
        accepted_count(l, done) <= done.len(),
        settle(l, done).blocks.take(l.blocks.len() as int) == l.blocks,
    decreases done.len(),
{
    if done.len() == 0 {
        assert(l.blocks.take(l.blocks.len() as int) =~= l.blocks);
    } else {
        lemma_settle_extends(l, done.drop_last());
        let earlier = settle(l, done.drop_last());
        assert(settle(l, done).blocks.take(l.blocks.len() as int) =~= earlier.blocks.take(
            l.blocks.len() as int,
        ));
    }
}

/// Settling keeps a consistent ledger consistent.
pub proof fn lemma_settle_keeps_consistent(l: LedgerView, done: Seq<MinedView>)
    requires
        ledger_consistent(l),
    ensures
        ledger_consistent(settle(l, done)),
    decreases done.len(),
{
    if done.len() > 0 {
        lemma_settle_keeps_consistent(l, done.drop_last());
        let earlier = settle(l, done.drop_last());
        let m = done.last();
        if m.outcome is Ok && block_valid(m.block, earlier.utxo, earlier.difficulty) {
            lemma_accept_keeps_consistent(earlier, m.block);
        }
    }
}

/// Mines a block and reports how the search ended.
pub fn mine_block(block: Block, difficulty: u32) -> (done: Mined)
    ensures
        mined(block@, done@.block, difficulty, done@.outcome),
{
    let mut block = block;
    let outcome = block.mine(difficulty);
    Mined { block, outcome }
}

/// Mines the blocks side by side on rayon's thread pool
/// (`into_par_iter`, `map`, `collect`), each by `mine_block`.
///
/// Trusted: the result has one entry for each block, in the order of the
/// blocks, and each entry is what `mine_block` returns for that block.
#[verifier::external_body]
fn mine_each(candidates: Vec<Block>, difficulty: u32) -> (done: Vec<Mined>)
    ensures
        done@.len() == candidates@.len(),
        forall|i: int|
            0 <= i < done@.len() ==> mined(
                candidates@[i]@,
                (#[trigger] done@[i])@.block,
                difficulty,
                done@[i]@.outcome,
            ),
{
    candidates.into_par_iter().map(|block| mine_block(block, difficulty)).collect()
}

/// Whether every string is hex text.
fn all_hex_strings(items: &Vec<String>) -> (ok: bool)
    ensures
        ok == all_hex(view_all(items@)),
{
    for i in 0..items.len()
        invariant
            forall|j: int| 0 <= j < i ==> is_hex(#[trigger] view_all(items@)[j]),
    {
        if decode(items[i].as_str()).is_err() {
            assert(!is_hex(view_all(items@)[i as int]));
            return false;
        }
    }
    true
}

/// Builds one candidate block for each batch, all on the same parents and
/// with the same timestamp, with indices that count up from `height`.
fn build_candidates(
    height: u64,
    timestamp: i64,
    tips: &Vec<String>,
    groups: Vec<Vec<Transaction>>,
) -> (blocks: Vec<Block>)
    requires
        all_hex(view_all(tips@)),
        height + groups@.len() <= u64::MAX,
        forall|i: int| 0 <= i < groups@.len() ==> all_verify(#[trigger] group_views(groups@)[i]),
    ensures
        blocks@.len() == groups@.len(),
        forall|i: int|
            0 <= i < blocks@.len() ==> (#[trigger] blocks@[i])@ == candidate(
                (height + i) as u64,
                timestamp,
                group_views(groups@)[i],
                view_all(tips@),
            ),
{
    let ghost all = group_views(groups@);
    let total = groups.len();
    let mut groups = groups;
    let mut blocks: Vec<Block> = Vec::new();
    assert(group_views(groups@.skip(0)) =~= all.skip(0));
    for i in 0..total
        invariant
            total == all.len(),
            height + total <= u64::MAX,
            all_hex(view_all(tips@)),
            forall|k: int| 0 <= k < all.len() ==> all_verify(#[trigger] all[k]),
            groups@.len() == total - i,
            group_views(groups@) == all.skip(i as int),
            blocks@.len() == i,
            forall|k: int|
                0 <= k < i ==> (#[trigger] blocks@[k])@ == candidate(
                    (height + k) as u64,
                    timestamp,
                    all[k],
                    view_all(tips@),
                ),
    {
        let ghost waiting = groups@;
        assert(group_views(waiting)[0] == all[i as int]);
        let txs = groups.remove(0);
        proof {
            assert(groups@ =~= waiting.skip(1));
            assert forall|k: int| 0 <= k < groups@.len() implies group_views(groups@)[k] == all.skip(
                i + 1,
            )[k] by {
                assert(groups@[k] == waiting[k + 1]);
                assert(group_views(waiting)[k + 1] == all.skip(i as int)[k + 1]);
            }
            assert(group_views(groups@) =~= all.skip(i + 1));
            let batch = view_all(txs@);
            assert(batch == all[i as int]);
            assert forall|k: int| 0 <= k < batch.len() implies is_hex(
                #[trigger] tx_hashes(batch)[k],
            ) by {
                assert(tx_verifies(batch[k]));
                lemma_sealed_hash_is_hex(batch[k]);
            }
        }
        let index = height + i as u64;
        // The tips are hex text and the hashes of transactions that verify
        // are, so the block can be hashed.
        match Block::with_timestamp(index, timestamp, txs, clone_strings(tips)) {
            Ok(block) => {
                blocks.push(block);
            },
            Err(_) => {},
        }
    }
    blocks
}

impl DagBlockchain {
    /// Takes up to `count` batches of up to `size` transactions from the
    /// mempool, highest priority first. Empty batches are not made.
    pub fn select_batches(&mut self, count: usize, size: usize) -> (groups: Vec<Vec<Transaction>>)
        requires
            old(self).wf(),
        ensures
            final(self).wf(),
            group_views(groups@) == batches(old(self)@.mempool, count as nat, size),
            final(self)@.mempool == undrained(old(self)@.mempool, count as nat, size),
            final(self)@.blocks == old(self)@.blocks,
            final(self)@.tips == old(self)@.tips,
            final(self)@.difficulty == old(self)@.difficulty,
            final(self)@.utxo == old(self)@.utxo,
            forall|i: int| 0 <= i < groups@.len() ==> all_verify(#[trigger] group_views(groups@)[i]),
    {
        let ghost start = self@.mempool;
        let mut groups: Vec<Vec<Transaction>> = Vec::new();
        let mut left = count;
        let mut more = true;
        assert(group_views(groups@) + batches(start, count as nat, size) =~= batches(
            start,
            count as nat,
            size,
        ));
        while more && left > 0
            invariant
                self.wf(),
                self@.blocks == old(self)@.blocks,
                self@.tips == old(self)@.tips,
                self@.difficulty == old(self)@.difficulty,
                self@.utxo == old(self)@.utxo,
                batches(start, count as nat, size) == group_views(groups@) + batches(
                    self@.mempool,
                    left as nat,
                    size,
                ),
                undrained(start, count as nat, size) == undrained(self@.mempool, left as nat, size),
                !more ==> drain_count(self@.mempool, size) == 0,
                forall|i: int|
                    0 <= i < groups@.len() ==> all_verify(#[trigger] group_views(groups@)[i]),
            decreases left + (if more { 1int } else { 0int }),
        {
            let ghost pool = self@.mempool;
            let ghost made = group_views(groups@);
            let txs = self.mempool.drain_top(size);
            assert(view_all(txs@).len() == txs@.len());
            if txs.len() == 0 {
                more = false;
                assert(drain_count(pool, size) == 0);
                assert(self@.mempool =~= pool);
            } else {
                let ghost batch = view_all(txs@);
                groups.push(txs);
                left = left - 1;
                proof {
                    let n = drain_count(pool, size);
                    assert(n > 0);
                    assert(batch == pool.take(n));
                    assert(self@.mempool == pool.skip(n));
                    assert(batches(pool, (left + 1) as nat, size) == seq![pool.take(n)] + batches(
                        pool.skip(n),
                        left as nat,
                        size,
                    ));
                    assert(undrained(pool, (left + 1) as nat, size) == undrained(
                        pool.skip(n),
                        left as nat,
                        size,
                    ));
                    assert(group_views(groups@) =~= made.push(batch));
                    assert(made.push(batch) + batches(self@.mempool, left as nat, size) =~= made
                        + batches(pool, (left + 1) as nat, size));
                    assert forall|i: int| 0 <= i < groups@.len() implies all_verify(
                        #[trigger] group_views(groups@)[i],
                    ) by {
                        if i < made.len() {
                            assert(group_views(groups@)[i] == made[i]);
                        }
                    }
                }
            }
        }
        proof {
            assert(batches(self@.mempool, left as nat, size) =~= Seq::<
                Seq<TransactionView>,
            >::empty());
            assert(group_views(groups@) + Seq::<Seq<TransactionView>>::empty() =~= group_views(
                groups@,
            ));
        }
        groups
    }

    /// Settles mined blocks in order: a block whose search succeeded and
    /// that is valid against the ledger as it then stands is accepted; the
    /// transactions of any other go back to the mempool. Returns how many
    /// were accepted.
    pub fn settle_mined(&mut self, done: Vec<Mined>) -> (accepted: usize)
        requires
            old(self).wf(),
            forall|i: int|
                0 <= i < done@.len() ==> all_verify((#[trigger] view_all(done@)[i]).block.transactions),
        ensures
            final(self).wf(),
            final(self)@ == settle(old(self)@, view_all(done@)),
            accepted == accepted_count(old(self)@, view_all(done@)),
            ledger_consistent(old(self)@) ==> ledger_consistent(final(self)@),
    {
        proof {
            if ledger_consistent(self@) {
                lemma_settle_keeps_consistent(self@, view_all(done@));
            }
        }
        let ghost all = view_all(done@);
        let ghost start = self@;
        let total = done.len();
        let mut done = done;
        let mut accepted: usize = 0;
        assert(view_all(done@.skip(0)) =~= all.skip(0));
        for i in 0..total
            invariant
                self.wf(),
                total == all.len(),
                forall|k: int| 0 <= k < all.len() ==> all_verify((#[trigger] all[k]).block.transactions),
                done@.len() == total - i,
                view_all(done@) == all.skip(i as int),
                self@ == settle(start, all.take(i as int)),
                accepted == accepted_count(start, all.take(i as int)),
                accepted <= i,
        {
            let ghost waiting = done@;
            assert(view_all(waiting)[0] == all[i as int]);
            let m = done.remove(0);
            proof {
                assert(done@ =~= waiting.skip(1));
                assert forall|k: int| 0 <= k < done@.len() implies view_all(done@)[k] == all.skip(
                    i + 1,
                )[k] by {
                    assert(done@[k] == waiting[k + 1]);
                    assert(view_all(waiting)[k + 1] == all.skip(i as int)[k + 1]);
                }
                assert(view_all(done@) =~= all.skip(i + 1));
                assert(m@ == all[i as int]);
                assert(all.take(i + 1).drop_last() =~= all.take(i as int));
                assert(all.take(i + 1).last() == m@);
            }
            match m.outcome {
                Ok(()) => {
                    match self.accept_block(m.block) {
                        None => {
                            accepted = accepted + 1;
                        },
                        Some(block) => {
                            self.mempool.requeue(&block.transactions);
                        },
                    }
                },
                Err(_) => {
                    self.mempool.requeue(&m.block.transactions);
                },
            }
        }
        assert(all.take(total as int) =~= all);
        accepted
    }

    /// Mines up to `num_blocks` sibling blocks of up to `max_tx_per_block`
    /// waiting transactions each, all on the tips as they are now, and
    /// settles them. Returns how many blocks were accepted; they are the
    /// last that many of `blocks`. No more blocks are built than there are
    /// block indices left.
    pub fn mine_parallel_blocks(&mut self, num_blocks: usize, max_tx_per_block: usize) -> (accepted:
        usize)
        requires
            old(self).wf(),
        ensures
            final(self).wf(),
            batch_round(old(self)@, final(self)@, num_blocks, max_tx_per_block),
            final(self)@.difficulty == old(self)@.difficulty,
            final(self)@.blocks.len() == old(self)@.blocks.len() + accepted,
            final(self)@.blocks.take(old(self)@.blocks.len() as int) == old(self)@.blocks,
            accepted <= num_blocks,
            ledger_consistent(old(self)@) ==> ledger_consistent(final(self)@),
    {
        let ghost before = self@;
        if !all_hex_strings(&self.tips) {
            assert(before.blocks.take(before.blocks.len() as int) =~= before.blocks);
            return 0;
        }
        let height = self.blocks.len() as u64;
        // No more batches than there are block indices left.
        let room = u64::MAX - height;
        let count = if num_blocks as u64 > room {
            room as usize
        } else {
            num_blocks
        };
        assert(count == round_size(before.blocks.len(), num_blocks));
        let timestamp = unix_now();
        let groups = self.select_batches(count, max_tx_per_block);
        let ghost drained = self@;
        proof {
            lemma_batches_bounds(before.mempool, count as nat, max_tx_per_block);
        }
        let candidates = build_candidates(height, timestamp, &self.tips, groups);
        let ghost planned = view_all(candidates@);
        proof {
            assert forall|i: int| 0 <= i < planned.len() implies #[trigger] planned[i] == candidate(
                (before.blocks.len() + i) as u64,
                timestamp,
                batches(before.mempool, count as nat, max_tx_per_block)[i],
                before.tips,
            ) by {
                assert(planned[i] == candidates@[i]@);
            }
        }
        let done = mine_each(candidates, self.difficulty);
        proof {
            assert forall|i: int| 0 <= i < done@.len() implies all_verify(
                (#[trigger] view_all(done@)[i]).block.transactions,
            ) by {
                assert(done@[i]@.block.transactions == planned[i].transactions);
                assert(planned[i].transactions == group_views(groups@)[i]);
            }
        }
        let accepted = self.settle_mined(done);
        proof {
            let results = view_all(done@);
            assert forall|i: int| 0 <= i < results.len() implies mined(
                candidate(
                    (before.blocks.len() + i) as u64,
                    timestamp,
                    batches(before.mempool, count as nat, max_tx_per_block)[i],
                    before.tips,
                ),
                (#[trigger] results[i]).block,
                before.difficulty,
                results[i].outcome,
            ) by {
                assert(results[i] == done@[i]@);
                assert(planned[i] == candidates@[i]@);
            }
            assert(drained == LedgerView {
                mempool: undrained(before.mempool, count as nat, max_tx_per_block),
                ..before
            });
            assert(round_outcome(
                before,
                count,
                max_tx_per_block,
                timestamp,
                results,
                self@,
            ));
            lemma_settle_extends(drained, results);
        }
        accepted
    }
}

} // verus!
