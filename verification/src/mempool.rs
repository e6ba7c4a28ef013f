//! The mempool: transactions that verify and wait for a block, kept in
//! order of priority. A higher fee comes first; among equal fees the hash
//! that is smaller as text comes first, so that the order depends on nothing
//! but the pool's content.

use crate::lexical::{
    lemma_lex_antisymmetric, lemma_lex_connected, lemma_lex_transitive, lex_lt, string_eq,
    string_le,
};
use crate::transaction::{all_verify, tx_verifies, view_all, Transaction, TransactionView};
use vstd::prelude::*;

verus! {

/// A transaction together with the fee by which it is ranked.
#[derive(Debug, PartialEq, Eq)]
pub struct PrioritizedTx {
    pub tx: Transaction,
    pub fee: u64,
}

impl Clone for PrioritizedTx {
    fn clone(&self) -> (copy: Self)
        ensures
            copy.tx@ == self.tx@,
            copy.fee == self.fee,
    {
        PrioritizedTx { tx: self.tx.clone(), fee: self.fee }
    }
}

/// Why the mempool refused a transaction.
#[derive(Clone, Copy, Debug, PartialEq, Eq, Structural)]
pub enum RejectReason {
    /// The transaction does not verify.
    InvalidTransaction,
    /// A transaction with the same hash is already waiting.
    Duplicate,
}

impl RejectReason {
    /// The reason in words.
    pub fn message(&self) -> (text: &'static str)
        ensures
            text@ == match self {
                RejectReason::InvalidTransaction => "Invalid transaction signature or hash"@,
                RejectReason::Duplicate => "Transaction is already in the mempool"@,
            },
    {
        match self {
            RejectReason::InvalidTransaction => "Invalid transaction signature or hash",
            RejectReason::Duplicate => "Transaction is already in the mempool",
        }
    }
}

/// `a` has priority over `b`.
pub open spec fn outranks(a: TransactionView, b: TransactionView) -> bool {
    a.fee > b.fee || (a.fee == b.fee && lex_lt(a.hash, b.hash))
}

/// Every entry has priority over all that follow it.
pub open spec fn pool_ordered(pool: Seq<TransactionView>) -> bool {
    forall|i: int, j: int| 0 <= i < j < pool.len() ==> outranks(#[trigger] pool[i], #[trigger] pool[j])
}

/// No two entries have the same hash.
pub open spec fn distinct_hashes(pool: Seq<TransactionView>) -> bool {
    forall|i: int, j: int|
        0 <= i < pool.len() && 0 <= j < pool.len() && i != j ==> (#[trigger] pool[i]).hash != (
        #[trigger] pool[j]).hash
}

/// Some entry has this hash.
pub open spec fn holds_hash(pool: Seq<TransactionView>, hash: Seq<char>) -> bool {
    exists|i: int| 0 <= i < pool.len() && (#[trigger] pool[i]).hash == hash
}

/// The number of leading entries that have priority over `tx`: the place
/// where `tx` belongs.
pub open spec fn slot(pool: Seq<TransactionView>, tx: TransactionView) -> int
    decreases pool.len(),
{
    if pool.len() == 0 || !outranks(pool[0], tx) {
        0
    } else {
        1 + slot(pool.drop_first(), tx)
    }
}

/// The pool after `tx` was offered to it: unchanged if its hash is already
/// there, else with `tx` in its place.
pub open spec fn pool_insert(pool: Seq<TransactionView>, tx: TransactionView) -> Seq<
    TransactionView,
> {
    if holds_hash(pool, tx.hash) {
        pool
    } else {
        pool.insert(slot(pool, tx), tx)
    }
}

/// The pool after each of `txs` was offered to it, in order.
pub open spec fn pool_insert_all(pool: Seq<TransactionView>, txs: Seq<TransactionView>) -> Seq<
    TransactionView,
>
    decreases txs.len(),
{
    if txs.len() == 0 {
        pool
    } else {
        pool_insert_all(pool_insert(pool, txs[0]), txs.drop_first())
    }
}

/// The number of entries that `drain_top(limit)` takes.
pub open spec fn drain_count(pool: Seq<TransactionView>, limit: usize) -> int {
    if limit <= pool.len() {
        limit as int
    } else {
        pool.len() as int
    }
}

pub proof fn lemma_outranks_transitive(a: TransactionView, b: TransactionView, c: TransactionView)
    requires
        outranks(a, b),
        outranks(b, c),
    ensures
        outranks(a, c),
{
    if a.fee == b.fee && b.fee == c.fee {
        lemma_lex_transitive(a.hash, b.hash, c.hash);
        if a.hash == c.hash {
            lemma_lex_antisymmetric(a.hash, b.hash);
        }
    }
}

/// The place of `tx` lies in the pool, the entries before it have priority
/// over `tx`, and the entry at it, if any, has not.
pub proof fn lemma_slot(pool: Seq<TransactionView>, tx: TransactionView)
    ensures
        0 <= slot(pool, tx) <= pool.len(),
        forall|j: int| 0 <= j < slot(pool, tx) ==> outranks(#[trigger] pool[j], tx),
        slot(pool, tx) < pool.len() ==> !outranks(pool[slot(pool, tx)], tx),
    decreases pool.len(),
{
    if pool.len() > 0 && outranks(pool[0], tx) {
        let rest = pool.drop_first();
        lemma_slot(rest, tx);
        assert forall|j: int| 0 <= j < slot(pool, tx) implies outranks(#[trigger] pool[j], tx) by {
            if j > 0 {
                assert(pool[j] == rest[j - 1]);
            }
        }
        if slot(pool, tx) < pool.len() {
            assert(pool[slot(pool, tx)] == rest[slot(rest, tx)]);
        }
    }
}

/// Offering a transaction to an ordered pool of distinct hashes gives such
/// a pool again.
pub proof fn lemma_insert_keeps_order(pool: Seq<TransactionView>, tx: TransactionView)
    requires
        pool_ordered(pool),
        distinct_hashes(pool),
    ensures
        pool_ordered(pool_insert(pool, tx)),
        distinct_hashes(pool_insert(pool, tx)),
{
    if !holds_hash(pool, tx.hash) {
        let at = slot(pool, tx);
        let after = pool.insert(at, tx);
        lemma_slot(pool, tx);
        assert forall|j: int| at <= j < pool.len() implies outranks(tx, #[trigger] pool[j]) by {
            let here = pool[at];
            assert(here.hash != tx.hash);
            lemma_lex_connected(here.hash, tx.hash);
            assert(outranks(tx, here));
            if j > at {
                assert(outranks(pool[at], pool[j]));
                lemma_outranks_transitive(tx, here, pool[j]);
            }
        }
        assert forall|i: int, j: int| 0 <= i < j < after.len() implies outranks(
            #[trigger] after[i],
            #[trigger] after[j],
        ) by {
            if j < at {
                assert(outranks(pool[i], pool[j]));
            } else if j == at {
                assert(outranks(pool[i], tx));
            } else if i < at {
                assert(outranks(pool[i], pool[j - 1]));
            } else if i == at {
                assert(outranks(tx, pool[j - 1]));
            } else {
                assert(outranks(pool[i - 1], pool[j - 1]));
            }
        }
        assert forall|i: int, j: int|
            0 <= i < after.len() && 0 <= j < after.len() && i != j implies (#[trigger] after[i]).hash
            != (#[trigger] after[j]).hash by {
            let p = if i < at {
                i
            } else {
                i - 1
            };
            let q = if j < at {
                j
            } else {
                j - 1
            };
            if i != at && j != at {
                assert(pool[p].hash != pool[q].hash);
            } else if i == at {
                assert(pool[q].hash != tx.hash);
            } else {
                assert(pool[p].hash != tx.hash);
            }
        }
    }
}

/// In an ordered pool the fees never rise from one entry to the next.
pub proof fn lemma_ordered_fees_fall(pool: Seq<TransactionView>)
    requires
        pool_ordered(pool),
    ensures
        forall|i: int, j: int|
            0 <= i < j < pool.len() ==> (#[trigger] pool[i]).fee >= (#[trigger] pool[j]).fee,
{
    assert forall|i: int, j: int| 0 <= i < j < pool.len() implies (#[trigger] pool[i]).fee >= (
    #[trigger] pool[j]).fee by {
        assert(outranks(pool[i], pool[j]));
    }
}

/// Of two transactions at most one has priority over the other.
pub proof fn lemma_outranks_asymmetric(a: TransactionView, b: TransactionView)
    requires
        outranks(a, b),
    ensures
        !outranks(b, a),
{
    if a.fee == b.fee && lex_lt(b.hash, a.hash) {
        lemma_lex_antisymmetric(a.hash, b.hash);
    }
}

/// The order of a pool depends on nothing but what is in it: two pools in
/// order of priority that hold the same transactions hold them in the same
/// order. So two nodes whose pools hold the same transactions take the same
/// transactions out, in the same order.
pub proof fn pool_order_is_canonical(first: Seq<TransactionView>, second: Seq<TransactionView>)
    requires
        pool_ordered(first),
        pool_ordered(second),
        first.to_multiset() == second.to_multiset(),
    ensures
        first == second,
    decreases first.len(),
{
    broadcast use vstd::multiset::group_multiset_axioms;

    first.to_multiset_ensures();
    second.to_multiset_ensures();
    assert(first.len() == second.len());
    if first.len() == 0 {
        assert(first =~= second);
    } else {
        assert(first.to_multiset().contains(first[0]));
        assert(second.to_multiset().contains(second[0]));
        assert(second.contains(first[0]));
        assert(first.contains(second[0]));
        let i = choose|i: int| 0 <= i < second.len() && second[i] == first[0];
        let j = choose|j: int| 0 <= j < first.len() && first[j] == second[0];
        if i > 0 {
            assert(outranks(second[0], second[i]));
            if j > 0 {
                assert(outranks(first[0], first[j]));
            }
            lemma_outranks_asymmetric(second[0], first[0]);
        }
        assert(first[0] == second[0]);
        assert(first.drop_first() =~= first.remove(0));
        assert(second.drop_first() =~= second.remove(0));
        assert(first.drop_first().to_multiset() =~= first.to_multiset().remove(first[0]));
        assert(second.drop_first().to_multiset() =~= second.to_multiset().remove(second[0]));
        assert forall|a: int, b: int| 0 <= a < b < first.drop_first().len() implies outranks(
            #[trigger] first.drop_first()[a],
            #[trigger] first.drop_first()[b],
        ) by {
            assert(outranks(first[a + 1], first[b + 1]));
        }
        assert forall|a: int, b: int| 0 <= a < b < second.drop_first().len() implies outranks(
            #[trigger] second.drop_first()[a],
            #[trigger] second.drop_first()[b],
        ) by {
            assert(outranks(second[a + 1], second[b + 1]));
        }
        pool_order_is_canonical(first.drop_first(), second.drop_first());
        assert(first =~= seq![first[0]] + first.drop_first());
        assert(second =~= seq![second[0]] + second.drop_first());
    }
}

/// A pool without the entries from `from` up to `to`.
pub open spec fn without_range(pool: Seq<TransactionView>, from: int, to: int) -> Seq<
    TransactionView,
> {
    pool.take(from) + pool.skip(to)
}

/// What is left of an ordered pool of distinct hashes when a range is
/// taken out is such a pool again.
pub proof fn lemma_without_range_ordered(pool: Seq<TransactionView>, from: int, to: int)
    requires
        pool_ordered(pool),
        distinct_hashes(pool),
        0 <= from <= to <= pool.len(),
    ensures
        pool_ordered(without_range(pool, from, to)),
        distinct_hashes(without_range(pool, from, to)),
{
    let rest = without_range(pool, from, to);
    assert forall|i: int, j: int| 0 <= i < j < rest.len() implies outranks(
        #[trigger] rest[i],
        #[trigger] rest[j],
    ) by {
        let p = if i < from {
            i
        } else {
            i - from + to
        };
        let q = if j < from {
            j
        } else {
            j - from + to
        };
        assert(rest[i] == pool[p] && rest[j] == pool[q]);
        assert(outranks(pool[p], pool[q]));
    }
    assert forall|i: int, j: int| 0 <= i < rest.len() && 0 <= j < rest.len() && i != j implies (
    #[trigger] rest[i]).hash != (#[trigger] rest[j]).hash by {
        let p = if i < from {
            i
        } else {
            i - from + to
        };
        let q = if j < from {
            j
        } else {
            j - from + to
        };
        assert(rest[i] == pool[p] && rest[j] == pool[q]);
        assert(pool[p].hash != pool[q].hash);
    }
}

/// An entry that was taken out of an ordered pool of distinct hashes goes
/// back to the place it had.
pub proof fn lemma_insert_restores(pool: Seq<TransactionView>, at: int)
    requires
        pool_ordered(pool),
        distinct_hashes(pool),
        0 <= at < pool.len(),
    ensures
        pool_insert(pool.remove(at), pool[at]) == pool,
{
    let rest = pool.remove(at);
    let tx = pool[at];
    assert forall|i: int| 0 <= i < rest.len() implies (#[trigger] rest[i]).hash != tx.hash by {
        let p = if i < at {
            i
        } else {
            i + 1
        };
        assert(rest[i] == pool[p]);
        assert(pool[p].hash != pool[at].hash);
    }
    assert(!holds_hash(rest, tx.hash));
    lemma_slot(rest, tx);
    let found = slot(rest, tx);
    if found < at {
        assert(rest[found] == pool[found]);
        assert(outranks(pool[found], pool[at]));
    }
    if found > at {
        assert(outranks(rest[at], tx));
        assert(rest[at] == pool[at + 1]);
        assert(outranks(pool[at], pool[at + 1]));
        lemma_outranks_asymmetric(pool[at], pool[at + 1]);
    }
    assert(rest.insert(at, tx) =~= pool);
}

/// What was taken from the top of the pool and is put back restores the
/// pool: nothing is lost and the order is as it was.
pub proof fn requeue_restores_the_pool(pool: Seq<TransactionView>, taken: int)
    requires
        pool_ordered(pool),
        distinct_hashes(pool),
        0 <= taken <= pool.len(),
    ensures
        pool_insert_all(pool.skip(taken), pool.take(taken)) == pool,
{
    assert(without_range(pool, 0, taken) =~= pool.skip(taken));
    assert(pool.take(taken).skip(0) =~= pool.take(taken));
    lemma_requeue_from(pool, 0, taken);
}

/// Putting back the entries from `from` up to `to`, in order, into the pool
/// that lacks them restores the pool.
pub proof fn lemma_requeue_from(pool: Seq<TransactionView>, from: int, to: int)
    requires
        pool_ordered(pool),
        distinct_hashes(pool),
        0 <= from <= to <= pool.len(),
    ensures
        pool_insert_all(without_range(pool, from, to), pool.take(to).skip(from)) == pool,
    decreases to - from,
{
    let waiting = pool.take(to).skip(from);
    if from == to {
        assert(waiting.len() == 0);
        assert(without_range(pool, from, to) =~= pool);
    } else {
        let lacking = without_range(pool, from, to);
        let next = without_range(pool, from + 1, to);
        lemma_without_range_ordered(pool, from + 1, to);
        assert(next.remove(from) =~= lacking);
        assert(next[from] == pool[from]);
        lemma_insert_restores(next, from);
        assert(waiting[0] == pool[from]);
        assert(waiting.drop_first() =~= pool.take(to).skip(from + 1));
        lemma_requeue_from(pool, from + 1, to);
    }
}

/// Whether `a` has priority over `b`.
pub fn has_priority(a: &Transaction, b: &Transaction) -> (yes: bool)
    ensures
        yes == outranks(a@, b@),
{
    if a.fee != b.fee {
        a.fee > b.fee
    } else {
        string_le(a.hash.as_str(), b.hash.as_str()) && !(a.hash == b.hash)
    }
}

/// The waiting transactions, highest priority first.
pub struct Mempool {
    entries: Vec<PrioritizedTx>,
}

impl View for Mempool {
    type V = Seq<TransactionView>;

    closed spec fn view(&self) -> Seq<TransactionView> {
        Seq::new(self.entries@.len(), |i: int| self.entries@[i].tx@)
    }
}

impl Mempool {
    /// The pool is in order of priority, holds no hash twice, holds only
    /// transactions that verify, and ranks each by its own fee.
    pub open spec fn wf(&self) -> bool {
        &&& pool_ordered(self@)
        &&& distinct_hashes(self@)
        &&& all_verify(self@)
        &&& self.ranked_by_own_fee()
    }

    /// Each entry is ranked by the fee of its transaction.
    pub closed spec fn ranked_by_own_fee(&self) -> bool {
        forall|i: int|
            0 <= i < self.entries@.len() ==> (#[trigger] self.entries@[i]).fee
                == self.entries@[i].tx.fee
    }

    /// An empty pool.
    pub fn new() -> (pool: Mempool)
        ensures
            pool@ == Seq::<TransactionView>::empty(),
            pool.wf(),
    {
        let pool = Mempool { entries: Vec::new() };
        assert(pool@ =~= Seq::<TransactionView>::empty());
        pool
    }

    /// The number of waiting transactions.
    pub fn len(&self) -> (n: usize)
        ensures
            n == self@.len(),
    {
        self.entries.len()
    }

    /// Whether nothing waits.
    pub fn is_empty(&self) -> (empty: bool)
        ensures
            empty == (self@.len() == 0),
    {
        self.entries.len() == 0
    }

    /// Whether a transaction with this hash waits.
    pub fn contains_hash(&self, hash: &str) -> (found: bool)
        ensures
            found == holds_hash(self@, hash@),
    {
        for i in 0..self.entries.len()
            invariant
                forall|j: int| 0 <= j < i ==> (#[trigger] self@[j]).hash != hash@,
        {
            if string_eq(self.entries[i].tx.hash.as_str(), hash) {
                assert(self@[i as int].hash == hash@);
                return true;
            }
        }
        false
    }

    /// The waiting transaction at `position`, counted from the highest
    /// priority, with the fee by which it is ranked, which is its own.
    pub fn get(&self, position: usize) -> (entry: Option<&PrioritizedTx>)
        requires
            self.wf(),
        ensures
            entry is Some <==> position < self@.len(),
            entry matches Some(e) ==> e.tx@ == self@[position as int],
            entry matches Some(e) ==> e.fee == e.tx.fee && e.fee == self@[position as int].fee,
    {
        if position < self.entries.len() {
            Some(&self.entries[position])
        } else {
            None
        }
    }

    /// The sum of the fees of the waiting transactions.
    pub fn fee_total(&self) -> (total: u128)
        ensures
            total == fee_sum(self@),
    {
        let mut total: u128 = 0;
        for i in 0..self.entries.len()
            invariant
                total == fee_sum(self@.take(i as int)),
                total <= i * 0xffff_ffff_ffff_ffff,
        {
            let fee = self.entries[i].tx.fee;
            proof {
                assert(self@.take(i + 1).drop_last() =~= self@.take(i as int));
                assert(self@.take(i + 1).last().fee == fee);
                assert(i < 0x1_0000_0000_0000_0000);
                assert((i + 1) * 0xffff_ffff_ffff_ffff < 0x1_0000_0000_0000_0000
                    * 0x1_0000_0000_0000_0000) by (nonlinear_arith)
                    requires
                        i < 0x1_0000_0000_0000_0000,
                ;
                assert((i + 1) * 0xffff_ffff_ffff_ffff == i * 0xffff_ffff_ffff_ffff
                    + 0xffff_ffff_ffff_ffff) by (nonlinear_arith);
            }
            total = total + fee as u128;
        }
        assert(self@.take(self@.len() as int) =~= self@);
        total
    }

    /// Puts a transaction in its place without asking whether it verifies.
    /// A transaction whose hash already waits is dropped.
    fn place(&mut self, tx: Transaction)
        requires
            old(self).wf(),
            tx_verifies(tx@),
        ensures
            final(self).wf(),
            final(self)@ == pool_insert(old(self)@, tx@),
    {
        proof {
            lemma_insert_keeps_order(self@, tx@);
        }
        if self.contains_hash(tx.hash.as_str()) {
            return ;
        }
        let ghost pool = self@;
        let mut at: usize = 0;
        assert(pool.skip(0) =~= pool);
        while at < self.entries.len() && has_priority(&self.entries[at].tx, &tx)
            invariant
                pool == self@,
                at <= self.entries@.len(),
                slot(pool, tx@) == at + slot(pool.skip(at as int), tx@),
            decreases self.entries@.len() - at,
        {
            proof {
                assert(pool.skip(at as int)[0] == pool[at as int]);
                assert(pool.skip(at as int).drop_first() =~= pool.skip(at + 1));
            }
            at = at + 1;
        }
        proof {
            if at < self.entries@.len() {
                assert(pool.skip(at as int)[0] == pool[at as int]);
            }
        }
        let fee = tx.fee;
        self.entries.insert(at, PrioritizedTx { tx, fee });
        assert(self@ =~= pool.insert(at as int, tx@));
        assert forall|i: int| 0 <= i < self@.len() implies tx_verifies(#[trigger] self@[i]) by {
            if i < at {
                assert(self@[i] == pool[i]);
            } else if i > at {
                assert(self@[i] == pool[i - 1]);
            }
        }
    }

    /// Takes in a transaction that verifies and whose hash is not yet in the
    /// pool, and puts it in its place.
    pub fn submit(&mut self, tx: Transaction) -> (outcome: Result<(), RejectReason>)
        requires
            old(self).wf(),
        ensures
            final(self).wf(),
            outcome == submit_outcome(old(self)@, tx@),
            outcome is Ok ==> final(self)@ == pool_insert(old(self)@, tx@),
            outcome is Err ==> final(self)@ == old(self)@,
    {
        if !tx.verify() {
            return Err(RejectReason::InvalidTransaction);
        }
        if self.contains_hash(tx.hash.as_str()) {
            return Err(RejectReason::Duplicate);
        }
        self.place(tx);
        Ok(())
    }

    /// Puts transactions back that were taken out and not used. Each goes to
    /// its place; one whose hash waits again already is dropped.
    pub fn requeue(&mut self, txs: &Vec<Transaction>)
        requires
            old(self).wf(),
            all_verify(view_all(txs@)),
        ensures
            final(self).wf(),
            final(self)@ == pool_insert_all(old(self)@, view_all(txs@)),
    {
        let ghost all = view_all(txs@);
        let ghost start = self@;
        assert(all.skip(0) =~= all);
        for i in 0..txs.len()
            invariant
                self.wf(),
                all == view_all(txs@),
                all_verify(all),
                pool_insert_all(self@, all.skip(i as int)) == pool_insert_all(start, all),
        {
            proof {
                assert(all.skip(i as int)[0] == txs@[i as int]@);
                assert(all.skip(i as int).drop_first() =~= all.skip(i + 1));
                assert(tx_verifies(all[i as int]));
            }
            self.place(txs[i].clone());
        }
    }

    /// Takes out the `limit` transactions of highest priority, or all if
    /// there are fewer, and returns them highest first. The fees of what is
    /// returned never rise from one to the next.
    pub fn drain_top(&mut self, limit: usize) -> (taken: Vec<Transaction>)
        requires
            old(self).wf(),
        ensures
            final(self).wf(),
            taken@.len() == drain_count(old(self)@, limit),
            view_all(taken@) == old(self)@.take(drain_count(old(self)@, limit)),
            final(self)@ == old(self)@.skip(drain_count(old(self)@, limit)),
            all_verify(view_all(taken@)),
            forall|i: int, j: int|
                0 <= i < j < taken@.len() ==> (#[trigger] taken@[i]).fee >= (#[trigger] taken@[j]).fee,
    {
        let ghost pool = self@;
        let ghost stored = self.entries@;
        let count = if limit <= self.entries.len() {
            limit
        } else {
            self.entries.len()
        };
        let mut taken: Vec<Transaction> = Vec::new();
        for i in 0..count
            invariant
                count <= stored.len(),
                pool.len() == stored.len(),
                forall|k: int| 0 <= k < stored.len() ==> pool[k] == (#[trigger] stored[k]).tx@,
                self.entries@ == stored.skip(i as int),
                taken@.len() == i,
                forall|k: int| 0 <= k < i ==> (#[trigger] taken@[k])@ == pool[k],
                forall|k: int| 0 <= k < i ==> (#[trigger] taken@[k]).fee == pool[k].fee,
        {
            let entry = self.entries.remove(0);
            assert(entry == stored[i as int]);
            assert(self.entries@ =~= stored.skip(i + 1));
            taken.push(entry.tx);
        }
        proof {
            assert(self@ =~= pool.skip(count as int));
            assert(view_all(taken@) =~= pool.take(count as int));
            lemma_ordered_fees_fall(pool);
            assert forall|i: int, j: int| 0 <= i < j < self@.len() implies outranks(
                #[trigger] self@[i],
                #[trigger] self@[j],
            ) by {
                assert(outranks(pool[i + count], pool[j + count]));
            }
            assert forall|i: int, j: int|
                0 <= i < self@.len() && 0 <= j < self@.len() && i != j implies (
            #[trigger] self@[i]).hash != (#[trigger] self@[j]).hash by {
                assert(pool[i + count].hash != pool[j + count].hash);
            }
            assert forall|k: int| 0 <= k < self.entries@.len() implies (
            #[trigger] self.entries@[k]).fee == self.entries@[k].tx.fee by {
                assert(self.entries@[k] == stored[k + count]);
            }
            assert forall|k: int| 0 <= k < self@.len() implies tx_verifies(#[trigger] self@[k]) by {
                assert(self@[k] == pool[k + count]);
            }
            assert forall|k: int| 0 <= k < count implies tx_verifies(
                #[trigger] view_all(taken@)[k],
            ) by {
                assert(view_all(taken@)[k] == pool[k]);
            }
            assert forall|i: int, j: int| 0 <= i < j < taken@.len() implies (
            #[trigger] taken@[i]).fee >= (#[trigger] taken@[j]).fee by {
                assert(pool[i].fee >= pool[j].fee);
            }
        }
        taken
    }
}

/// The sum of the fees of a sequence of transactions.
pub open spec fn fee_sum(pool: Seq<TransactionView>) -> int
    decreases pool.len(),
{
    if pool.len() == 0 {
        0
    } else {
        fee_sum(pool.drop_last()) + pool.last().fee
    }
}

/// Which outcome `submit` has on a pool and a transaction.
pub open spec fn submit_outcome(pool: Seq<TransactionView>, tx: TransactionView) -> Result<
    (),
    RejectReason,
> {
    if !tx_verifies(tx) {
        Err(RejectReason::InvalidTransaction)
    } else if holds_hash(pool, tx.hash) {
        Err(RejectReason::Duplicate)
    } else {
        Ok(())
    }
}

} // verus!
