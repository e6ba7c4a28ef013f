//! The set of unspent outputs: a map from the key of an output,
//! `"{hash of its transaction}:{its index}"`, to the output.

use crate::transaction::{view_all, Transaction, TransactionView, TxOutput, TxOutputView};
use vstd::hash_map::StringHashMap;
use vstd::prelude::*;

verus! {

/// The character of a decimal digit.
pub open spec fn digit_char(d: int) -> char {
    ((d + 48) as u8) as char
}

/// A number in decimal, without sign or leading zeros.
pub open spec fn decimal(n: nat) -> Seq<char>
    decreases n,
{
    if n < 10 {
        seq![digit_char(n as int)]
    } else {
        decimal(n / 10).push(digit_char((n % 10) as int))
    }
}

/// The key of the output at `index` of the transaction with hash `tx_hash`.
pub open spec fn utxo_key(tx_hash: Seq<char>, index: usize) -> Seq<char> {
    tx_hash + seq![':'] + decimal(index as nat)
}

/// The keys of the outputs that a transaction spends, in the order of its
/// inputs.
pub open spec fn spent_keys(t: TransactionView) -> Seq<Seq<char>> {
    Seq::new(
        t.inputs.len(),
        |i: int| utxo_key(t.inputs[i].prev_tx_hash, t.inputs[i].output_index),
    )
}

/// The keys that a list of transactions spends, in order.
pub open spec fn all_spent_keys(txs: Seq<TransactionView>) -> Seq<Seq<char>>
    decreases txs.len(),
{
    if txs.len() == 0 {
        Seq::empty()
    } else {
        all_spent_keys(txs.drop_last()) + spent_keys(txs.last())
    }
}

/// The map without the given keys.
pub open spec fn remove_keys(
    utxo: Map<Seq<char>, TxOutputView>,
    keys: Seq<Seq<char>>,
) -> Map<Seq<char>, TxOutputView>
    decreases keys.len(),
{
    if keys.len() == 0 {
        utxo
    } else {
        remove_keys(utxo, keys.drop_last()).remove(keys.last())
    }
}

/// The map with each output recorded under the transaction's hash and the
/// output's index, the first output first.
pub open spec fn insert_outputs(
    utxo: Map<Seq<char>, TxOutputView>,
    tx_hash: Seq<char>,
    outputs: Seq<TxOutputView>,
) -> Map<Seq<char>, TxOutputView>
    decreases outputs.len(),
{
    if outputs.len() == 0 {
        utxo
    } else {
        insert_outputs(utxo, tx_hash, outputs.drop_last()).insert(
            utxo_key(tx_hash, (outputs.len() - 1) as usize),
            outputs.last(),
        )
    }
}

/// The map after a transaction was applied: what it spends is removed, then
/// what it creates is recorded.
pub open spec fn apply_tx(
    utxo: Map<Seq<char>, TxOutputView>,
    t: TransactionView,
) -> Map<Seq<char>, TxOutputView> {
    insert_outputs(remove_keys(utxo, spent_keys(t)), t.hash, t.outputs)
}

/// The map after a list of transactions was applied, in order.
pub open spec fn apply_txs(
    utxo: Map<Seq<char>, TxOutputView>,
    txs: Seq<TransactionView>,
) -> Map<Seq<char>, TxOutputView>
    decreases txs.len(),
{
    if txs.len() == 0 {
        utxo
    } else {
        apply_tx(apply_txs(utxo, txs.drop_last()), txs.last())
    }
}

/// Calls `to_string` of std on a number. Trusted: the result is the number
/// in decimal, without sign or leading zeros.
#[verifier::external_body]
pub(crate) fn decimal_text(n: u64) -> (text: String)
    ensures
        text@ == decimal(n as nat),
{
    n.to_string()
}

/// The key of the output at `index` of the transaction with hash `tx_hash`.
pub fn output_key(tx_hash: &str, index: usize) -> (key: String)
    ensures
        key@ == utxo_key(tx_hash@, index),
{
    let mut key = tx_hash.to_owned();
    key.append(":");
    key.append(decimal_text(index as u64).as_str());
    proof {
        reveal_strlit(":");
        assert(":"@ =~= seq![':']);
        assert(key@ =~= utxo_key(tx_hash@, index));
    }
    key
}

/// The unspent outputs by key.
pub struct UtxoSet {
    entries: StringHashMap<TxOutput>,
}

impl View for UtxoSet {
    type V = Map<Seq<char>, TxOutputView>;

    closed spec fn view(&self) -> Map<Seq<char>, TxOutputView> {
        self.entries@.map_values(|o: TxOutput| o@)
    }
}

impl UtxoSet {
    /// There are finitely many unspent outputs.
    #[verifier::type_invariant]
    spec fn finitely_many(self) -> bool {
        self.entries@.dom().finite()
    }

    /// The empty set.
    pub fn new() -> (set: UtxoSet)
        ensures
            set@ == Map::<Seq<char>, TxOutputView>::empty(),
            set@.dom().finite(),
    {
        let entries = StringHashMap::new();
        assert(entries@.dom() =~= Set::<Seq<char>>::empty());
        let set = UtxoSet { entries };
        assert(set@ =~= Map::<Seq<char>, TxOutputView>::empty());
        set
    }

    /// The number of unspent outputs.
    pub fn len(&self) -> (n: usize)
        ensures
            n == self@.len(),
            self@.dom().finite(),
    {
        proof {
            use_type_invariant(self);
        }
        assert(self@.dom() =~= self.entries@.dom());
        self.entries.len()
    }

    /// Whether an output with this key is unspent.
    pub fn contains_key(&self, key: &str) -> (found: bool)
        ensures
            found == self@.contains_key(key@),
    {
        self.entries.contains_key(key)
    }

    /// The unspent output with this key.
    pub fn get(&self, key: &str) -> (output: Option<&TxOutput>)
        ensures
            output is Some <==> self@.contains_key(key@),
            output matches Some(o) ==> o@ == self@[key@],
    {
        self.entries.get(key)
    }

    /// Records an output under a key, in place of what was there.
    pub fn insert(&mut self, key: String, output: TxOutput)
        ensures
            final(self)@ == old(self)@.insert(key@, output@),
            final(self)@.dom().finite(),
    {
        proof {
            use_type_invariant(&*self);
        }
        // The map is taken out, changed and put back, so that the set is a
        // finite one at every step.
        let mut entries = StringHashMap::new();
        assert(entries@.dom() =~= Set::<Seq<char>>::empty());
        core::mem::swap(&mut self.entries, &mut entries);
        entries.insert(key, output);
        core::mem::swap(&mut self.entries, &mut entries);
        assert(self@ =~= old(self)@.insert(key@, output@));
        assert(self@.dom() =~= self.entries@.dom());
    }

    /// Removes the output with this key, if there is one.
    pub fn remove(&mut self, key: &str)
        ensures
            final(self)@ == old(self)@.remove(key@),
            final(self)@.dom().finite(),
    {
        proof {
            use_type_invariant(&*self);
        }
        let mut entries = StringHashMap::new();
        assert(entries@.dom() =~= Set::<Seq<char>>::empty());
        core::mem::swap(&mut self.entries, &mut entries);
        entries.remove(key);
        core::mem::swap(&mut self.entries, &mut entries);
        assert(self@ =~= old(self)@.remove(key@));
        assert(self@.dom() =~= self.entries@.dom());
    }

    /// Applies a transaction: removes every output it spends, then records
    /// every output it creates.
    pub fn apply_transaction(&mut self, tx: &Transaction)
        ensures
            final(self)@ == apply_tx(old(self)@, tx@),
            final(self)@.dom().finite(),
    {
        proof {
            use_type_invariant(&*self);
            assert(self@.dom() =~= self.entries@.dom());
        }
        let ghost start = self@;
        let ghost keys = spent_keys(tx@);
        for i in 0..tx.inputs.len()
            invariant
                keys == spent_keys(tx@),
                self@ == remove_keys(start, keys.take(i as int)),
                self@.dom().finite(),
        {
            let input = &tx.inputs[i];
            let key = output_key(input.prev_tx_hash.as_str(), input.output_index);
            proof {
                assert(tx@.inputs[i as int] == input@);
                assert(keys.take(i + 1).drop_last() =~= keys.take(i as int));
                assert(keys.take(i + 1).last() == key@);
            }
            self.remove(key.as_str());
        }
        assert(keys.take(tx.inputs@.len() as int) =~= keys);
        let ghost middle = self@;
        let ghost outputs = tx@.outputs;
        for i in 0..tx.outputs.len()
            invariant
                outputs == tx@.outputs,
                self@ == insert_outputs(middle, tx@.hash, outputs.take(i as int)),
                self@.dom().finite(),
        {
            let key = output_key(tx.hash.as_str(), i);
            let output = tx.outputs[i].clone();
            proof {
                assert(outputs.take(i + 1).drop_last() =~= outputs.take(i as int));
                assert(outputs.take(i + 1).last() == output@);
            }
            self.insert(key, output);
        }
        assert(outputs.take(tx.outputs@.len() as int) =~= outputs);
    }

    /// Applies a list of transactions, in order.
    pub fn apply_transactions(&mut self, txs: &Vec<Transaction>)
        ensures
            final(self)@ == apply_txs(old(self)@, view_all(txs@)),
            final(self)@.dom().finite(),
    {
        proof {
            use_type_invariant(&*self);
            assert(self@.dom() =~= self.entries@.dom());
        }
        let ghost start = self@;
        let ghost all = view_all(txs@);
        for i in 0..txs.len()
            invariant
                all == view_all(txs@),
                self@ == apply_txs(start, all.take(i as int)),
                self@.dom().finite(),
        {
            proof {
                assert(all.take(i + 1).drop_last() =~= all.take(i as int));
                assert(all.take(i + 1).last() == txs@[i as int]@);
            }
            self.apply_transaction(&txs[i]);
        }
        assert(all.take(txs@.len() as int) =~= all);
    }
}

} // verus!
