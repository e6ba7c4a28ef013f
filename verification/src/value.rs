//! Conservation of value: over a history of accepted blocks in which every
//! transaction that spends creates as much as it spends, and no output is
//! recorded over another, the unspent outputs are worth what was minted.

use crate::block::BlockView;
use crate::blockchain::LedgerView;
use crate::history::{
    chain_utxo, chain_valid, ledger_consistent, lemma_apply_tx_domain, lemma_insert_outputs,
    lemma_remove_keys, output_keys,
};
use crate::transaction::{TransactionView, TxOutputView};
use crate::utxo::{
    all_spent_keys, apply_tx, apply_txs, decimal, digit_char, insert_outputs, remove_keys,
    spent_keys, utxo_key,
};
use crate::validation::{keys_claimable, lemma_claimable_concat};
use vstd::prelude::*;

verus! {

/// The sum of the amounts of the unspent outputs.
pub open spec fn total_value(utxo: Map<Seq<char>, TxOutputView>) -> nat
    decreases utxo.dom().len(),
    when utxo.dom().finite()
    via total_value_decreases
{
    if utxo.dom().len() == 0 {
        0
    } else {
        let k = utxo.dom().choose();
        utxo[k].amount as nat + total_value(utxo.remove(k))
    }
}

#[via_fn]
proof fn total_value_decreases(utxo: Map<Seq<char>, TxOutputView>) {
    if utxo.dom().len() != 0 {
        let k = utxo.dom().choose();
        assert(utxo.dom().contains(k));
        assert(utxo.remove(k).dom() =~= utxo.dom().remove(k));
    }
}

/// The sum of the amounts of a list of outputs.
pub open spec fn outputs_value(outputs: Seq<TxOutputView>) -> nat
    decreases outputs.len(),
{
    if outputs.len() == 0 {
        0
    } else {
        outputs_value(outputs.drop_last()) + outputs.last().amount as nat
    }
}

/// The sum of the amounts that the map holds under the given keys.
pub open spec fn keyed_value(utxo: Map<Seq<char>, TxOutputView>, keys: Seq<Seq<char>>) -> nat
    decreases keys.len(),
{
    if keys.len() == 0 {
        0
    } else {
        keyed_value(utxo, keys.drop_last()) + utxo[keys.last()].amount as nat
    }
}

/// What a list of transactions mints: the outputs of those without inputs.
pub open spec fn minted_value(txs: Seq<TransactionView>) -> nat
    decreases txs.len(),
{
    if txs.len() == 0 {
        0
    } else {
        minted_value(txs.drop_last()) + if txs.last().inputs.len() == 0 {
            outputs_value(txs.last().outputs)
        } else {
            0
        }
    }
}

/// What the blocks mint.
pub open spec fn chain_minted(blocks: Seq<BlockView>) -> nat
    decreases blocks.len(),
{
    if blocks.len() == 0 {
        0
    } else {
        chain_minted(blocks.drop_last()) + minted_value(blocks.last().transactions)
    }
}

/// A transaction keeps the books against the unspent outputs `state`: it
/// records no output over one that stays unspent, and, if it spends
/// anything, it creates exactly as much as it spends.
pub open spec fn tx_keeps_books(state: Map<Seq<char>, TxOutputView>, t: TransactionView) -> bool {
    &&& t.outputs.len() <= usize::MAX
    &&& forall|i: int|
        0 <= i < t.outputs.len() ==> !remove_keys(state, spent_keys(t)).contains_key(
            #[trigger] utxo_key(t.hash, i as usize),
        )
    &&& t.inputs.len() > 0 ==> outputs_value(t.outputs) == keyed_value(state, spent_keys(t))
}

/// Each transaction keeps the books against the unspent outputs that the
/// transactions before it leave.
pub open spec fn txs_keep_books(utxo: Map<Seq<char>, TxOutputView>, txs: Seq<TransactionView>) -> bool
    decreases txs.len(),
{
    if txs.len() == 0 {
        true
    } else {
        &&& txs_keep_books(utxo, txs.drop_last())
        &&& tx_keeps_books(apply_txs(utxo, txs.drop_last()), txs.last())
    }
}

/// Each block's transactions keep the books against the unspent outputs
/// that the blocks before it leave.
pub open spec fn chain_keeps_books(utxo: Map<Seq<char>, TxOutputView>, blocks: Seq<BlockView>) -> bool
    decreases blocks.len(),
{
    if blocks.len() == 0 {
        true
    } else {
        &&& chain_keeps_books(utxo, blocks.drop_last())
        &&& txs_keep_books(chain_utxo(utxo, blocks.drop_last()), blocks.last().transactions)
    }
}

/// The total is the amount under any one key plus the total of the rest.
pub proof fn lemma_total_split(utxo: Map<Seq<char>, TxOutputView>, key: Seq<char>)
    requires
        utxo.dom().finite(),
        utxo.contains_key(key),
    ensures
        total_value(utxo) == utxo[key].amount + total_value(utxo.remove(key)),
    decreases utxo.dom().len(),
{
    let chosen = utxo.dom().choose();
    assert(utxo.dom().len() != 0);
    if chosen != key {
        assert(utxo.remove(chosen).dom() =~= utxo.dom().remove(chosen));
        assert(utxo.remove(key).dom() =~= utxo.dom().remove(key));
        lemma_total_split(utxo.remove(chosen), key);
        lemma_total_split(utxo.remove(key), chosen);
        assert(utxo.remove(chosen).remove(key) =~= utxo.remove(key).remove(chosen));
    }
}

/// Recording an output under a key that is free adds its amount.
pub proof fn lemma_total_insert(
    utxo: Map<Seq<char>, TxOutputView>,
    key: Seq<char>,
    output: TxOutputView,
)
    requires
        utxo.dom().finite(),
        !utxo.contains_key(key),
    ensures
        total_value(utxo.insert(key, output)) == total_value(utxo) + output.amount,
{
    lemma_total_split(utxo.insert(key, output), key);
    assert(utxo.insert(key, output).remove(key) =~= utxo);
}

/// A number in decimal has at least one digit.
pub proof fn lemma_decimal_len(n: nat)
    ensures
        decimal(n).len() >= 1,
        n >= 10 ==> decimal(n).len() >= 2,
    decreases n,
{
    if n >= 10 {
        lemma_decimal_len(n / 10);
    }
}

/// Different numbers are different in decimal.
pub proof fn lemma_decimal_injective(a: nat, b: nat)
    requires
        decimal(a) == decimal(b),
    ensures
        a == b,
    decreases a,
{
    lemma_decimal_len(a);
    lemma_decimal_len(b);
    if a < 10 && b < 10 {
        assert(decimal(a)[0] == digit_char(a as int));
        assert(decimal(b)[0] == digit_char(b as int));
    } else if a >= 10 && b >= 10 {
        let x = decimal(a / 10);
        let y = decimal(b / 10);
        assert(decimal(a).last() == digit_char((a % 10) as int));
        assert(decimal(b).last() == digit_char((b % 10) as int));
        assert(decimal(a).drop_last() =~= x);
        assert(decimal(b).drop_last() =~= y);
        lemma_decimal_injective(a / 10, b / 10);
    }
}

/// Different outputs of one transaction have different keys.
pub proof fn lemma_key_injective(tx_hash: Seq<char>, i: usize, j: usize)
    requires
        utxo_key(tx_hash, i) == utxo_key(tx_hash, j),
    ensures
        i == j,
{
    let head = tx_hash + seq![':'];
    let a = decimal(i as nat);
    let b = decimal(j as nat);
    assert((head + a).subrange(head.len() as int, (head + a).len() as int) =~= a);
    assert((head + b).subrange(head.len() as int, (head + b).len() as int) =~= b);
    lemma_decimal_injective(i as nat, j as nat);
}

/// Removing keys that are unspent, each once, takes away what they hold.
pub proof fn lemma_remove_total(utxo: Map<Seq<char>, TxOutputView>, keys: Seq<Seq<char>>)
    requires
        utxo.dom().finite(),
        keys_claimable(keys, utxo, Set::empty()),
    ensures
        remove_keys(utxo, keys).dom().finite(),
        total_value(remove_keys(utxo, keys)) + keyed_value(utxo, keys) == total_value(utxo),
    decreases keys.len(),
{
    if keys.len() > 0 {
        let shorter = keys.drop_last();
        let k = keys.last();
        assert forall|i: int| 0 <= i < shorter.len() implies utxo.contains_key(#[trigger] shorter[i])
            && !Set::<Seq<char>>::empty().contains(shorter[i]) by {
            assert(shorter[i] == keys[i]);
        }
        assert forall|i: int, j: int|
            0 <= i < shorter.len() && 0 <= j < shorter.len() && i != j implies shorter[i]
            != shorter[j] by {
            assert(shorter[i] == keys[i] && shorter[j] == keys[j]);
        }
        lemma_remove_total(utxo, shorter);
        lemma_remove_keys(utxo, shorter);
        let inner = remove_keys(utxo, shorter);
        assert(utxo.contains_key(keys[keys.len() - 1]));
        if shorter.contains(k) {
            let i = choose|i: int| 0 <= i < shorter.len() && shorter[i] == k;
            assert(keys[i] == keys[keys.len() - 1]);
        }
        assert(inner.contains_key(k));
        lemma_total_split(inner, k);
    }
}

/// Recording outputs under keys that are free adds what they hold.
pub proof fn lemma_insert_total(
    utxo: Map<Seq<char>, TxOutputView>,
    tx_hash: Seq<char>,
    outputs: Seq<TxOutputView>,
)
    requires
        utxo.dom().finite(),
        outputs.len() <= usize::MAX,
        forall|i: int|
            0 <= i < outputs.len() ==> !utxo.contains_key(#[trigger] utxo_key(tx_hash, i as usize)),
    ensures
        insert_outputs(utxo, tx_hash, outputs).dom().finite(),
        total_value(insert_outputs(utxo, tx_hash, outputs)) == total_value(utxo) + outputs_value(
            outputs,
        ),
    decreases outputs.len(),
{
    if outputs.len() > 0 {
        let shorter = outputs.drop_last();
        let at = (outputs.len() - 1) as usize;
        let k = utxo_key(tx_hash, at);
        lemma_insert_total(utxo, tx_hash, shorter);
        lemma_insert_outputs(utxo, tx_hash, shorter);
        let inner = insert_outputs(utxo, tx_hash, shorter);
        let fewer = output_keys(tx_hash, shorter.len());
        assert(!utxo.contains_key(utxo_key(tx_hash, (outputs.len() - 1) as usize)));
        if fewer.contains(k) {
            let i = choose|i: int| 0 <= i < fewer.len() && fewer[i] == k;
            lemma_key_injective(tx_hash, i as usize, at);
        }
        assert(!inner.contains_key(k));
        lemma_total_insert(inner, k, outputs.last());
    }
}

/// A transaction that spends unspent outputs, each once, and keeps the
/// books changes the total by what it mints.
pub proof fn lemma_tx_conserves(state: Map<Seq<char>, TxOutputView>, t: TransactionView)
    requires
        state.dom().finite(),
        keys_claimable(spent_keys(t), state, Set::empty()),
        tx_keeps_books(state, t),
    ensures
        apply_tx(state, t).dom().finite(),
        total_value(apply_tx(state, t)) == total_value(state) + minted_value(seq![t]),
{
    lemma_remove_total(state, spent_keys(t));
    lemma_insert_total(remove_keys(state, spent_keys(t)), t.hash, t.outputs);
    assert(seq![t].drop_last() =~= Seq::<TransactionView>::empty());
    assert(minted_value(seq![t].drop_last()) == 0);
    assert(seq![t].last() == t);
    if t.inputs.len() == 0 {
        assert(spent_keys(t) =~= Seq::<Seq<char>>::empty());
    }
}

/// An output that was unspent and that none of the transactions spends is
/// unspent after them.
pub proof fn lemma_untouched_stays(
    utxo: Map<Seq<char>, TxOutputView>,
    txs: Seq<TransactionView>,
    key: Seq<char>,
)
    requires
        utxo.contains_key(key),
        !all_spent_keys(txs).contains(key),
    ensures
        apply_txs(utxo, txs).contains_key(key),
    decreases txs.len(),
{
    if txs.len() > 0 {
        let shorter = txs.drop_last();
        let t = txs.last();
        let spent = all_spent_keys(shorter);
        if spent.contains(key) {
            let i = choose|i: int| 0 <= i < spent.len() && spent[i] == key;
            assert(all_spent_keys(txs)[i] == key);
        }
        if spent_keys(t).contains(key) {
            let i = choose|i: int| 0 <= i < spent_keys(t).len() && spent_keys(t)[i] == key;
            assert(all_spent_keys(txs)[spent.len() + i] == key);
        }
        lemma_untouched_stays(utxo, shorter, key);
        lemma_apply_tx_domain(apply_txs(utxo, shorter), t);
    }
}

/// The transactions of a block whose inputs name unspent outputs, each
/// once, and that keep the books change the total by what they mint.
pub proof fn lemma_block_conserves(utxo: Map<Seq<char>, TxOutputView>, txs: Seq<TransactionView>)
    requires
        utxo.dom().finite(),
        keys_claimable(all_spent_keys(txs), utxo, Set::empty()),
        txs_keep_books(utxo, txs),
    ensures
        apply_txs(utxo, txs).dom().finite(),
        total_value(apply_txs(utxo, txs)) == total_value(utxo) + minted_value(txs),
    decreases txs.len(),
{
    if txs.len() > 0 {
        let shorter = txs.drop_last();
        let t = txs.last();
        let spent = all_spent_keys(shorter);
        let state = apply_txs(utxo, shorter);
        lemma_claimable_concat(spent, spent_keys(t), utxo, Set::empty());
        lemma_block_conserves(utxo, shorter);
        assert forall|i: int| 0 <= i < spent_keys(t).len() implies state.contains_key(
            #[trigger] spent_keys(t)[i],
        ) && !Set::<Seq<char>>::empty().contains(spent_keys(t)[i]) by {
            let k = spent_keys(t)[i];
            assert(!Set::<Seq<char>>::empty().union(spent.to_set()).contains(k));
            assert(!spent.to_set().contains(k));
            lemma_untouched_stays(utxo, shorter, k);
        }
        lemma_tx_conserves(state, t);
        assert(seq![t].drop_last() =~= Seq::<TransactionView>::empty());
        assert(minted_value(seq![t].drop_last()) == 0);
        assert(seq![t].last() == t);
    }
}

/// Conservation of value. In a history of blocks, each valid against the
/// unspent outputs that the blocks before it leave, whose transactions keep
/// the books, the unspent outputs are worth what they were worth at the start
/// plus what the blocks minted. Fees do not enter: they are neither burnt nor
/// paid out.
pub proof fn value_is_conserved(
    utxo: Map<Seq<char>, TxOutputView>,
    blocks: Seq<BlockView>,
    difficulty: u32,
)
    requires
        utxo.dom().finite(),
        chain_valid(utxo, blocks, difficulty),
        chain_keeps_books(utxo, blocks),
    ensures
        chain_utxo(utxo, blocks).dom().finite(),
        total_value(chain_utxo(utxo, blocks)) == total_value(utxo) + chain_minted(blocks),
    decreases blocks.len(),
{
    if blocks.len() > 0 {
        value_is_conserved(utxo, blocks.drop_last(), difficulty);
        lemma_block_conserves(chain_utxo(utxo, blocks.drop_last()), blocks.last().transactions);
    }
}

/// Conservation of value, of a ledger: the unspent outputs of a consistent
/// ledger whose transactions keep the books are worth what its blocks minted.
pub proof fn ledger_is_worth_what_was_minted(l: LedgerView)
    requires
        ledger_consistent(l),
        chain_keeps_books(Map::empty(), l.blocks),
    ensures
        total_value(l.utxo) == chain_minted(l.blocks),
{
    let start = Map::<Seq<char>, TxOutputView>::empty();
    assert(start.dom() =~= Set::<Seq<char>>::empty());
    value_is_conserved(start, l.blocks, l.difficulty);
}

} // verus!
