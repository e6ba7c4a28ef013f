//! What holds of the unspent outputs over a history of accepted blocks: no
//! output is spent twice.

use crate::block::BlockView;
use crate::blockchain::{with_block, LedgerView};
use crate::transaction::{TransactionView, TxOutputView};
use crate::utxo::{
    all_spent_keys, apply_tx, apply_txs, insert_outputs, remove_keys, spent_keys, utxo_key,
};
use crate::validation::{block_valid, keys_claimable};
use vstd::prelude::*;

verus! {

/// The keys of the first `count` outputs of the transaction with hash
/// `tx_hash`.
pub open spec fn output_keys(tx_hash: Seq<char>, count: nat) -> Seq<Seq<char>> {
    Seq::new(count, |i: int| utxo_key(tx_hash, i as usize))
}

/// The keys of the outputs that a transaction creates, in their order.
pub open spec fn created_keys(t: TransactionView) -> Seq<Seq<char>> {
    output_keys(t.hash, t.outputs.len())
}

/// The keys that a list of transactions creates, in order.
pub open spec fn all_created_keys(txs: Seq<TransactionView>) -> Seq<Seq<char>>
    decreases txs.len(),
{
    if txs.len() == 0 {
        Seq::empty()
    } else {
        all_created_keys(txs.drop_last()) + created_keys(txs.last())
    }
}

/// The unspent outputs after the blocks were applied, in order.
pub open spec fn chain_utxo(
    utxo: Map<Seq<char>, TxOutputView>,
    blocks: Seq<BlockView>,
) -> Map<Seq<char>, TxOutputView>
    decreases blocks.len(),
{
    if blocks.len() == 0 {
        utxo
    } else {
        apply_txs(chain_utxo(utxo, blocks.drop_last()), blocks.last().transactions)
    }
}

/// Each block is valid against the unspent outputs that the blocks before
/// it leave.
pub open spec fn chain_valid(
    utxo: Map<Seq<char>, TxOutputView>,
    blocks: Seq<BlockView>,
    difficulty: u32,
) -> bool
    decreases blocks.len(),
{
    if blocks.len() == 0 {
        true
    } else {
        &&& chain_valid(utxo, blocks.drop_last(), difficulty)
        &&& block_valid(blocks.last(), chain_utxo(utxo, blocks.drop_last()), difficulty)
    }
}

/// The keys that the transactions of the blocks spend, in order.
pub open spec fn chain_spent(blocks: Seq<BlockView>) -> Seq<Seq<char>>
    decreases blocks.len(),
{
    if blocks.len() == 0 {
        Seq::empty()
    } else {
        chain_spent(blocks.drop_last()) + all_spent_keys(blocks.last().transactions)
    }
}

/// No block creates an output under a key that this block or an earlier
/// one spends.
pub open spec fn never_recreated(blocks: Seq<BlockView>) -> bool {
    forall|j: int, key: Seq<char>|
        0 <= j < blocks.len() && all_created_keys(
            (#[trigger] blocks[j]).transactions,
        ).contains(key) ==> !(#[trigger] chain_spent(blocks.take(j + 1)).contains(key))
}

/// The ledger's blocks are a history that starts from nothing, each block
/// valid against what the blocks before it leave, and the ledger's unspent
/// outputs are what that history leaves. A ledger that was started with a
/// first block and has since taken in blocks by validating them is so.
pub open spec fn ledger_consistent(l: LedgerView) -> bool {
    &&& chain_valid(Map::empty(), l.blocks, l.difficulty)
    &&& l.utxo == chain_utxo(Map::empty(), l.blocks)
}

/// Accepting a block that is valid against the ledger keeps the ledger
/// consistent.
pub proof fn lemma_accept_keeps_consistent(l: LedgerView, b: BlockView)
    requires
        ledger_consistent(l),
        block_valid(b, l.utxo, l.difficulty),
    ensures
        ledger_consistent(with_block(l, b)),
{
    let after = with_block(l, b);
    assert(after.blocks.drop_last() =~= l.blocks);
    assert(after.blocks.last() == b);
}

/// Removing keys leaves exactly the other entries, as they were.
pub proof fn lemma_remove_keys(utxo: Map<Seq<char>, TxOutputView>, keys: Seq<Seq<char>>)
    ensures
        forall|k: Seq<char>|
            #[trigger] remove_keys(utxo, keys).contains_key(k) <==> utxo.contains_key(k)
                && !keys.contains(k),
        forall|k: Seq<char>|
            #[trigger] remove_keys(utxo, keys).contains_key(k) ==> remove_keys(utxo, keys)[k]
                == utxo[k],
    decreases keys.len(),
{
    if keys.len() > 0 {
        let shorter = keys.drop_last();
        lemma_remove_keys(utxo, shorter);
        let inner = remove_keys(utxo, shorter);
        assert(remove_keys(utxo, keys) == inner.remove(keys.last()));
        assert forall|k: Seq<char>| #[trigger]
            remove_keys(utxo, keys).contains_key(k) implies remove_keys(utxo, keys)[k]
            == utxo[k] by {
            assert(inner.contains_key(k));
        }
        assert forall|k: Seq<char>|
            #[trigger] remove_keys(utxo, keys).contains_key(k) <==> utxo.contains_key(k)
                && !keys.contains(k) by {
            assert(inner.contains_key(k) <==> utxo.contains_key(k) && !shorter.contains(k));
            if keys.contains(k) {
                let i = choose|i: int| 0 <= i < keys.len() && keys[i] == k;
                if i < shorter.len() {
                    assert(shorter[i] == k);
                }
            }
            if shorter.contains(k) {
                let i = choose|i: int| 0 <= i < shorter.len() && shorter[i] == k;
                assert(keys[i] == k);
            }
            assert(keys[keys.len() - 1] == keys.last());
        }
    }
}

/// Recording outputs adds exactly the created keys.
pub proof fn lemma_insert_outputs(
    utxo: Map<Seq<char>, TxOutputView>,
    tx_hash: Seq<char>,
    outputs: Seq<TxOutputView>,
)
    ensures
        forall|k: Seq<char>|
            #[trigger] insert_outputs(utxo, tx_hash, outputs).contains_key(k)
                <==> utxo.contains_key(k) || output_keys(tx_hash, outputs.len()).contains(k),
    decreases outputs.len(),
{
    if outputs.len() > 0 {
        let shorter = outputs.drop_last();
        lemma_insert_outputs(utxo, tx_hash, shorter);
        let keys = output_keys(tx_hash, outputs.len());
        let fewer = output_keys(tx_hash, shorter.len());
        let last_key = utxo_key(tx_hash, (outputs.len() - 1) as usize);
        assert(keys[outputs.len() - 1] == last_key);
        let inner = insert_outputs(utxo, tx_hash, shorter);
        assert(insert_outputs(utxo, tx_hash, outputs) == inner.insert(last_key, outputs.last()));
        assert forall|k: Seq<char>|
            #[trigger] insert_outputs(utxo, tx_hash, outputs).contains_key(k)
                <==> utxo.contains_key(k) || keys.contains(k) by {
            assert(inner.contains_key(k) <==> utxo.contains_key(k) || fewer.contains(k));
            if fewer.contains(k) {
                let i = choose|i: int| 0 <= i < fewer.len() && fewer[i] == k;
                assert(keys[i] == k);
            }
            if keys.contains(k) {
                let i = choose|i: int| 0 <= i < keys.len() && keys[i] == k;
                if i < fewer.len() {
                    assert(fewer[i] == k);
                }
            }
        }
    }
}

/// After a transaction an output is unspent exactly if the transaction
/// created it, or it was unspent before and the transaction did not spend
/// it.
pub proof fn lemma_apply_tx_domain(utxo: Map<Seq<char>, TxOutputView>, t: TransactionView)
    ensures
        forall|k: Seq<char>|
            #[trigger] apply_tx(utxo, t).contains_key(k) <==> created_keys(t).contains(k) || (
            utxo.contains_key(k) && !spent_keys(t).contains(k)),
{
    lemma_remove_keys(utxo, spent_keys(t));
    lemma_insert_outputs(remove_keys(utxo, spent_keys(t)), t.hash, t.outputs);
}

/// After a list of transactions an output is unspent only if one of them
/// created it, or it was unspent before and none of them spent it.
pub proof fn lemma_apply_txs_domain(utxo: Map<Seq<char>, TxOutputView>, txs: Seq<TransactionView>)
    ensures
        forall|k: Seq<char>|
            #[trigger] apply_txs(utxo, txs).contains_key(k) ==> all_created_keys(txs).contains(k)
                || (utxo.contains_key(k) && !all_spent_keys(txs).contains(k)),
    decreases txs.len(),
{
    if txs.len() > 0 {
        let shorter = txs.drop_last();
        let t = txs.last();
        lemma_apply_txs_domain(utxo, shorter);
        lemma_apply_tx_domain(apply_txs(utxo, shorter), t);
        assert forall|k: Seq<char>| #[trigger]
            apply_txs(utxo, txs).contains_key(k) implies all_created_keys(txs).contains(k) || (
        utxo.contains_key(k) && !all_spent_keys(txs).contains(k)) by {
            let created = all_created_keys(shorter);
            let spent = all_spent_keys(shorter);
            if created_keys(t).contains(k) {
                let i = choose|i: int| 0 <= i < created_keys(t).len() && created_keys(t)[i] == k;
                assert(all_created_keys(txs)[created.len() + i] == k);
            } else {
                assert(apply_txs(utxo, shorter).contains_key(k));
                if created.contains(k) {
                    let i = choose|i: int| 0 <= i < created.len() && created[i] == k;
                    assert(all_created_keys(txs)[i] == k);
                } else {
                    if all_spent_keys(txs).contains(k) {
                        let i = choose|i: int|
                            0 <= i < all_spent_keys(txs).len() && all_spent_keys(txs)[i] == k;
                        if i < spent.len() {
                            assert(spent[i] == k);
                        } else {
                            assert(spent_keys(t)[i - spent.len()] == k);
                        }
                    }
                }
            }
        }
    }
}

/// No double spend. In a history of blocks, each valid against the unspent
/// outputs that the blocks before it leave, in which no output is created
/// again under a key that was spent, no key is spent by two inputs; and the
/// spent outputs are unspent no more.
pub proof fn no_output_is_spent_twice(
    utxo: Map<Seq<char>, TxOutputView>,
    blocks: Seq<BlockView>,
    difficulty: u32,
)
    requires
        chain_valid(utxo, blocks, difficulty),
        never_recreated(blocks),
    ensures
        chain_spent(blocks).no_duplicates(),
        forall|i: int|
            0 <= i < chain_spent(blocks).len() ==> !chain_utxo(utxo, blocks).contains_key(
                #[trigger] chain_spent(blocks)[i],
            ),
    decreases blocks.len(),
{
    if blocks.len() > 0 {
        let earlier = blocks.drop_last();
        let b = blocks.last();
        let before = chain_utxo(utxo, earlier);
        let after = chain_utxo(utxo, blocks);
        let old_spent = chain_spent(earlier);
        let now_spent = all_spent_keys(b.transactions);
        let spent = chain_spent(blocks);
        assert forall|j: int, key: Seq<char>|
            0 <= j < earlier.len() && all_created_keys(
                (#[trigger] earlier[j]).transactions,
            ).contains(key) implies !(#[trigger] chain_spent(earlier.take(j + 1)).contains(key)) by {
            assert(earlier[j] == blocks[j]);
            assert(earlier.take(j + 1) =~= blocks.take(j + 1));
        }
        no_output_is_spent_twice(utxo, earlier, difficulty);
        assert(keys_claimable(now_spent, before, Set::empty()));
        assert forall|i: int, j: int| 0 <= i < spent.len() && 0 <= j < spent.len() && i != j implies spent[i]
            != spent[j] by {
            if i < old_spent.len() && j < old_spent.len() {
                assert(old_spent[i] != old_spent[j]);
            } else if i >= old_spent.len() && j >= old_spent.len() {
                assert(now_spent[i - old_spent.len()] != now_spent[j - old_spent.len()]);
            } else if i < old_spent.len() {
                assert(!before.contains_key(old_spent[i]));
                assert(before.contains_key(now_spent[j - old_spent.len()]));
            } else {
                assert(!before.contains_key(old_spent[j]));
                assert(before.contains_key(now_spent[i - old_spent.len()]));
            }
        }
        lemma_apply_txs_domain(before, b.transactions);
        assert(blocks.take(blocks.len() as int) =~= blocks);
        assert forall|i: int| 0 <= i < spent.len() implies !after.contains_key(#[trigger] spent[i]) by {
            let k = spent[i];
            assert(spent.contains(k));
            assert(blocks[blocks.len() - 1] == b);
            assert(chain_spent(blocks.take(blocks.len() - 1 + 1)) == spent);
            if all_created_keys(b.transactions).contains(k) {
                assert(!chain_spent(blocks.take(blocks.len() - 1 + 1)).contains(k));
            }
            if i < old_spent.len() {
                assert(!before.contains_key(old_spent[i]));
            } else {
                assert(now_spent[i - old_spent.len()] == k);
                assert(now_spent.contains(k));
            }
        }
    }
}

/// No double spend, of a ledger: in a consistent ledger in which no output
/// was created again under a key that was spent, no key was spent by two
/// inputs, and no spent output is among the unspent ones.
pub proof fn ledger_spends_each_output_once(l: LedgerView)
    requires
        ledger_consistent(l),
        never_recreated(l.blocks),
    ensures
        chain_spent(l.blocks).no_duplicates(),
        forall|i: int|
            0 <= i < chain_spent(l.blocks).len() ==> !l.utxo.contains_key(
                #[trigger] chain_spent(l.blocks)[i],
            ),
{
    no_output_is_spent_twice(Map::empty(), l.blocks, l.difficulty);
}

} // verus!
