//! Validation of a block against a view of the unspent outputs.

use crate::block::{block_sealed, has_leading_zeros, meets_difficulty, Block, BlockView};
use crate::transaction::{
    all_verify, tx_verifies, view_all, Transaction, TransactionView, TxOutputView,
};
use crate::utxo::{all_spent_keys, output_key, spent_keys, UtxoSet};
use vstd::hash_set::StringHashSet;
use vstd::prelude::*;

verus! {

/// Every key is unspent, none was claimed before, and none occurs twice.
pub open spec fn keys_claimable(
    keys: Seq<Seq<char>>,
    utxo: Map<Seq<char>, TxOutputView>,
    claimed: Set<Seq<char>>,
) -> bool {
    &&& forall|i: int|
        0 <= i < keys.len() ==> utxo.contains_key(#[trigger] keys[i]) && !claimed.contains(keys[i])
    &&& keys.no_duplicates()
}

/// When a block is valid against the unspent outputs `utxo`: its hash meets
/// the difficulty and is the hash of its content, each of its transactions
/// verifies, each input names an unspent output, and no output is named by
/// two inputs of the block.
pub open spec fn block_valid(
    b: BlockView,
    utxo: Map<Seq<char>, TxOutputView>,
    difficulty: u32,
) -> bool {
    &&& has_leading_zeros(b.hash, difficulty as nat)
    &&& block_sealed(b)
    &&& all_verify(b.transactions)
    &&& keys_claimable(all_spent_keys(b.transactions), utxo, Set::empty())
}

/// A sequence of keys followed by another is claimable exactly when the
/// first is, and the second is once the first has been claimed.
pub proof fn lemma_claimable_concat(
    first: Seq<Seq<char>>,
    second: Seq<Seq<char>>,
    utxo: Map<Seq<char>, TxOutputView>,
    claimed: Set<Seq<char>>,
)
    ensures
        keys_claimable(first + second, utxo, claimed) <==> keys_claimable(first, utxo, claimed)
            && keys_claimable(second, utxo, claimed.union(first.to_set())),
{
    let both = first + second;
    let later = claimed.union(first.to_set());
    if keys_claimable(both, utxo, claimed) {
        assert forall|i: int| 0 <= i < first.len() implies utxo.contains_key(#[trigger] first[i])
            && !claimed.contains(first[i]) by {
            assert(both[i] == first[i]);
        }
        assert forall|i: int, j: int| 0 <= i < first.len() && 0 <= j < first.len() && i != j implies first[i]
            != first[j] by {
            assert(both[i] == first[i] && both[j] == first[j]);
        }
        assert forall|i: int| 0 <= i < second.len() implies utxo.contains_key(#[trigger] second[i])
            && !later.contains(second[i]) by {
            assert(both[first.len() + i] == second[i]);
            if first.to_set().contains(second[i]) {
                let k = choose|k: int| 0 <= k < first.len() && first[k] == second[i];
                assert(both[k] == first[k]);
            }
        }
        assert forall|i: int, j: int|
            0 <= i < second.len() && 0 <= j < second.len() && i != j implies second[i]
            != second[j] by {
            assert(both[first.len() + i] == second[i] && both[first.len() + j] == second[j]);
        }
    }
    if keys_claimable(first, utxo, claimed) && keys_claimable(second, utxo, later) {
        assert forall|i: int| 0 <= i < both.len() implies utxo.contains_key(#[trigger] both[i])
            && !claimed.contains(both[i]) by {
            if i < first.len() {
                assert(both[i] == first[i]);
            } else {
                assert(both[i] == second[i - first.len()]);
            }
        }
        assert forall|i: int, j: int| 0 <= i < both.len() && 0 <= j < both.len() && i != j implies both[i]
            != both[j] by {
            if i < first.len() && j < first.len() {
                assert(first[i] != first[j]);
            } else if i >= first.len() && j >= first.len() {
                assert(second[i - first.len()] != second[j - first.len()]);
            } else if i < first.len() {
                assert(first.to_set().contains(first[i]));
                assert(!later.contains(second[j - first.len()]));
            } else {
                assert(first.to_set().contains(first[j]));
                assert(!later.contains(second[i - first.len()]));
            }
        }
    }
}

/// The keys spent by a list are those spent by its first `n` transactions
/// followed by those spent by the rest.
pub proof fn lemma_spent_keys_split(txs: Seq<TransactionView>, n: int)
    requires
        0 <= n <= txs.len(),
    ensures
        all_spent_keys(txs) == all_spent_keys(txs.take(n)) + all_spent_keys(txs.skip(n)),
    decreases txs.len(),
{
    if n == txs.len() {
        assert(txs.take(n) =~= txs);
        assert(all_spent_keys(txs.skip(n)) =~= Seq::<Seq<char>>::empty());
        assert(all_spent_keys(txs) =~= all_spent_keys(txs) + Seq::<Seq<char>>::empty());
    } else {
        let shorter = txs.drop_last();
        lemma_spent_keys_split(shorter, n);
        assert(shorter.take(n) =~= txs.take(n));
        assert(shorter.skip(n) =~= txs.skip(n).drop_last());
        assert(txs.skip(n).last() == txs.last());
        assert(all_spent_keys(txs) =~= all_spent_keys(txs.take(n)) + all_spent_keys(txs.skip(n)));
    }
}

/// Checks the inputs of one transaction against the unspent outputs and
/// the keys that earlier transactions of the block have claimed, and claims
/// them.
fn claim_inputs(tx: &Transaction, utxo: &UtxoSet, seen: &mut StringHashSet) -> (ok: bool)
    ensures
        ok == keys_claimable(spent_keys(tx@), utxo@, old(seen)@),
        ok ==> final(seen)@ == old(seen)@.union(spent_keys(tx@).to_set()),
{
    let ghost keys = spent_keys(tx@);
    let ghost start = seen@;
    let mut ok = true;
    let mut i: usize = 0;
    assert(start.union(keys.take(0).to_set()) =~= start);
    while ok && i < tx.inputs.len()
        invariant
            i <= tx.inputs@.len(),
            keys == spent_keys(tx@),
            ok ==> seen@ == start.union(keys.take(i as int).to_set()),
            ok ==> keys_claimable(keys.take(i as int), utxo@, start),
            !ok ==> !keys_claimable(keys, utxo@, start),
        decreases tx.inputs@.len() - i + (if ok { 1int } else { 0int }),
    {
        let input = &tx.inputs[i];
        let key = output_key(input.prev_tx_hash.as_str(), input.output_index);
        proof {
            assert(tx@.inputs[i as int] == input@);
            assert(key@ == keys[i as int]);
        }
        if !utxo.contains_key(key.as_str()) || seen.contains(key.as_str()) {
            proof {
                if utxo@.contains_key(key@) && !start.contains(key@) {
                    let j = choose|j: int| 0 <= j < i && keys.take(i as int)[j] == key@;
                    assert(keys[j] == keys[i as int]);
                }
            }
            ok = false;
        } else {
            let ghost before = seen@;
            seen.insert(key);
            proof {
                let longer = keys.take(i + 1);
                assert(seen@ =~= start.union(longer.to_set())) by {
                    assert forall|k: Seq<char>| longer.to_set().contains(k) implies before.insert(
                        keys[i as int],
                    ).contains(k) by {
                        let j = choose|j: int| 0 <= j < longer.len() && longer[j] == k;
                        if j < i {
                            assert(keys.take(i as int)[j] == k);
                        }
                    }
                    assert forall|k: Seq<char>|
                        keys.take(i as int).to_set().contains(k) implies longer.to_set().contains(
                        k,
                    ) by {
                        let j = choose|j: int| 0 <= j < i && keys.take(i as int)[j] == k;
                        assert(longer[j] == k);
                    }
                    assert(longer[i as int] == keys[i as int]);
                }
                assert forall|a: int, b: int|
                    0 <= a < longer.len() && 0 <= b < longer.len() && a != b implies longer[a]
                    != longer[b] by {
                    if a < i && b < i {
                        assert(keys.take(i as int)[a] != keys.take(i as int)[b]);
                    } else if a < i {
                        assert(keys.take(i as int).to_set().contains(keys.take(i as int)[a]));
                    } else {
                        assert(keys.take(i as int).to_set().contains(keys.take(i as int)[b]));
                    }
                }
                assert forall|a: int| 0 <= a < longer.len() implies utxo@.contains_key(
                    #[trigger] longer[a],
                ) && !start.contains(longer[a]) by {
                    if a < i {
                        assert(keys.take(i as int)[a] == longer[a]);
                    }
                }
            }
            i = i + 1;
        }
    }
    proof {
        if ok {
            assert(keys.take(i as int) =~= keys);
        }
    }
    ok
}

/// Whether `block` is valid against the unspent outputs `utxo` at the given
/// difficulty. Nothing is changed.
pub fn validate(block: &Block, utxo: &UtxoSet, difficulty: u32) -> (ok: bool)
    ensures
        ok == block_valid(block@, utxo@, difficulty),
{
    if !meets_difficulty(block.hash.as_str(), difficulty) {
        return false;
    }
    match block.calculate_hash() {
        Ok(hash) => {
            if !(block.hash == hash) {
                return false;
            }
        },
        Err(_) => {
            return false;
        },
    }
    let ghost txs = block@.transactions;
    let mut seen = StringHashSet::new();
    let mut ok = true;
    let mut i: usize = 0;
    assert(all_spent_keys(txs.take(0)) =~= Seq::<Seq<char>>::empty());
    assert(all_spent_keys(txs.take(0)).to_set() =~= Set::<Seq<char>>::empty());
    while ok && i < block.transactions.len()
        invariant
            i <= block.transactions@.len(),
            txs == view_all(block.transactions@),
            ok ==> seen@ == all_spent_keys(txs.take(i as int)).to_set(),
            ok ==> all_verify(txs.take(i as int)),
            ok ==> keys_claimable(all_spent_keys(txs.take(i as int)), utxo@, Set::empty()),
            !ok ==> !(all_verify(txs) && keys_claimable(all_spent_keys(txs), utxo@, Set::empty())),
        decreases block.transactions@.len() - i + (if ok { 1int } else { 0int }),
    {
        let tx = &block.transactions[i];
        let ghost done = all_spent_keys(txs.take(i as int));
        let ghost next = all_spent_keys(txs.take(i + 1));
        proof {
            assert(txs[i as int] == tx@);
            assert(txs.take(i + 1).drop_last() =~= txs.take(i as int));
            assert(txs.take(i + 1).last() == tx@);
            assert(next == done + spent_keys(tx@));
            lemma_claimable_concat(done, spent_keys(tx@), utxo@, Set::empty());
            assert(Set::<Seq<char>>::empty().union(done.to_set()) =~= done.to_set());
            lemma_spent_keys_split(txs, i + 1);
            lemma_claimable_concat(next, all_spent_keys(txs.skip(i + 1)), utxo@, Set::empty());
        }
        if !tx.verify() {
            ok = false;
        } else if !claim_inputs(tx, utxo, &mut seen) {
            ok = false;
        } else {
            proof {
                assert(seen@ =~= next.to_set()) by {
                    assert forall|k: Seq<char>| next.to_set().contains(k) implies done.to_set().union(
                        spent_keys(tx@).to_set(),
                    ).contains(k) by {
                        let j = choose|j: int| 0 <= j < next.len() && next[j] == k;
                        if j < done.len() {
                            assert(done[j] == k);
                        } else {
                            assert(spent_keys(tx@)[j - done.len()] == k);
                        }
                    }
                    assert forall|k: Seq<char>| done.to_set().contains(k) implies next.to_set().contains(
                        k,
                    ) by {
                        let j = choose|j: int| 0 <= j < done.len() && done[j] == k;
                        assert(next[j] == k);
                    }
                    assert forall|k: Seq<char>|
                        spent_keys(tx@).to_set().contains(k) implies next.to_set().contains(k) by {
                        let j = choose|j: int|
                            0 <= j < spent_keys(tx@).len() && spent_keys(tx@)[j] == k;
                        assert(next[done.len() + j] == k);
                    }
                }
                assert forall|j: int| 0 <= j < i + 1 implies tx_verifies(
                    #[trigger] txs.take(i + 1)[j],
                ) by {
                    if j < i {
                        assert(txs.take(i as int)[j] == txs.take(i + 1)[j]);
                    }
                }
            }
            i = i + 1;
        }
    }
    proof {
        if ok {
            assert(txs.take(i as int) =~= txs);
        }
    }
    ok
}

} // verus!
