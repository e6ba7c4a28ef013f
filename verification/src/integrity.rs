//! What the hashes protect: a block's hash does not depend on the order in
//! which its parents are listed but does depend on the order of its
//! transactions, and a transaction whose content was changed no longer
//! matches its hash.
//!
//! SHA-256 maps infinitely many byte strings to 32 bytes, so two different
//! contents can have the same digest. The statements below therefore show
//! that the hashed bytes differ, and conclude that the hashes differ wherever
//! the digests of those bytes do.

use crate::block::{
    block_hash, block_hashable, block_header, block_tail, concat_decoded,
    lemma_all_hex_of_permutation, tx_hashes, BlockView,
};
use crate::digest::{le_bytes, sha256};
use crate::hexcode::{hex_decode, lemma_encode_injective};
use crate::lexical::{ascending, lemma_ascending_of_permutation};
use crate::transaction::{
    inputs_encoding, lemma_sealed_hash_is_hex, outputs_encoding, tx_encoding, tx_sealed,
    tx_verifies, TransactionView, TxInputView, TxOutputView,
};
use vstd::bytes::{lemma_auto_spec_u64_to_from_le_bytes, spec_u64_from_le_bytes};
use vstd::prelude::*;

verus! {

/// What is appended to equal beginnings is equal if the wholes are.
pub proof fn lemma_cancel_left(head: Seq<u8>, a: Seq<u8>, b: Seq<u8>)
    requires
        head + a == head + b,
    ensures
        a == b,
{
    assert((head + a).subrange(head.len() as int, (head + a).len() as int) =~= a);
    assert((head + b).subrange(head.len() as int, (head + b).len() as int) =~= b);
}

/// What stands before ends of equal length is equal, and so are the ends,
/// if the wholes are.
pub proof fn lemma_cancel_right(a: Seq<u8>, b: Seq<u8>, x: Seq<u8>, y: Seq<u8>)
    requires
        a + x == b + y,
        x.len() == y.len(),
    ensures
        a == b,
        x == y,
{
    assert((a + x).len() == (b + y).len());
    assert((a + x).subrange(0, a.len() as int) =~= a);
    assert((b + y).subrange(0, b.len() as int) =~= b);
    assert((a + x).subrange(a.len() as int, (a + x).len() as int) =~= x);
    assert((b + y).subrange(b.len() as int, (b + y).len() as int) =~= y);
}

/// Different numbers have different little-endian bytes.
pub proof fn lemma_le_bytes_injective(a: u64, b: u64)
    requires
        le_bytes(a) == le_bytes(b),
    ensures
        a == b,
{
    lemma_auto_spec_u64_to_from_le_bytes();
    assert(spec_u64_from_le_bytes(le_bytes(a)) == a);
    assert(spec_u64_from_le_bytes(le_bytes(b)) == b);
}

/// The little-endian bytes of a number are eight.
pub proof fn lemma_le_bytes_len(a: u64)
    ensures
        le_bytes(a).len() == 8,
{
    lemma_auto_spec_u64_to_from_le_bytes();
}

/// Blocks that differ only in the order in which their parents are listed
/// have the same hash, and are hashable together or not at all.
pub proof fn parent_order_does_not_enter_hash(a: BlockView, b: BlockView)
    requires
        a.index == b.index,
        a.timestamp == b.timestamp,
        a.nonce == b.nonce,
        a.transactions == b.transactions,
        a.parents.to_multiset() == b.parents.to_multiset(),
    ensures
        block_hash(a) == block_hash(b),
        block_hashable(a) == block_hashable(b),
{
    lemma_ascending_of_permutation(a.parents, b.parents);
    lemma_all_hex_of_permutation(a.parents, b.parents);
}

/// The decoded bytes of strings that each stand for 32 bytes determine the
/// strings' bytes one by one.
pub proof fn lemma_concat_of_digests(first: Seq<Seq<char>>, second: Seq<Seq<char>>)
    requires
        first.len() == second.len(),
        forall|i: int| 0 <= i < first.len() ==> hex_decode(#[trigger] first[i]).len() == 32,
        forall|i: int| 0 <= i < second.len() ==> hex_decode(#[trigger] second[i]).len() == 32,
        concat_decoded(first) == concat_decoded(second),
    ensures
        forall|i: int| 0 <= i < first.len() ==> hex_decode(#[trigger] first[i]) == hex_decode(second[i]),
    decreases first.len(),
{
    if first.len() > 0 {
        let a = first.drop_last();
        let b = second.drop_last();
        lemma_cancel_right(
            concat_decoded(a),
            concat_decoded(b),
            hex_decode(first.last()),
            hex_decode(second.last()),
        );
        assert forall|i: int| 0 <= i < a.len() implies hex_decode(#[trigger] a[i]).len() == 32 by {
            assert(a[i] == first[i]);
        }
        assert forall|i: int| 0 <= i < b.len() implies hex_decode(#[trigger] b[i]).len() == 32 by {
            assert(b[i] == second[i]);
        }
        lemma_concat_of_digests(a, b);
        assert forall|i: int| 0 <= i < first.len() implies hex_decode(#[trigger] first[i])
            == hex_decode(second[i]) by {
            if i < a.len() {
                assert(a[i] == first[i] && b[i] == second[i]);
            }
        }
    }
}

/// Blocks that hold the same number of sealed transactions, with hashes of
/// 64 digits, but not the same transaction hashes in the same order, and
/// agree in all else, are hashed from different bytes; so their hashes differ
/// unless SHA-256 maps those two byte strings to one digest.
pub proof fn transaction_order_enters_hash(a: BlockView, b: BlockView)
    requires
        a.index == b.index,
        a.timestamp == b.timestamp,
        a.nonce == b.nonce,
        a.parents == b.parents,
        a.transactions.len() == b.transactions.len(),
        forall|i: int|
            0 <= i < a.transactions.len() ==> tx_sealed(#[trigger] a.transactions[i])
                && a.transactions[i].hash.len() == 64,
        forall|i: int|
            0 <= i < b.transactions.len() ==> tx_sealed(#[trigger] b.transactions[i])
                && b.transactions[i].hash.len() == 64,
        tx_hashes(a.transactions) != tx_hashes(b.transactions),
    ensures
        block_header(a.index, a.timestamp, a.nonce) + block_tail(a) != block_header(
            b.index,
            b.timestamp,
            b.nonce,
        ) + block_tail(b),
        sha256(block_header(a.index, a.timestamp, a.nonce) + block_tail(a)) != sha256(
            block_header(b.index, b.timestamp, b.nonce) + block_tail(b),
        ) ==> block_hash(a) != block_hash(b),
{
    let ha = tx_hashes(a.transactions);
    let hb = tx_hashes(b.transactions);
    let head = block_header(a.index, a.timestamp, a.nonce);
    let parents = concat_decoded(ascending(a.parents));
    assert forall|i: int| 0 <= i < ha.len() implies hex_decode(#[trigger] ha[i]).len() == 32 by {
        assert(tx_sealed(a.transactions[i]));
    }
    assert forall|i: int| 0 <= i < hb.len() implies hex_decode(#[trigger] hb[i]).len() == 32 by {
        assert(tx_sealed(b.transactions[i]));
    }
    if head + block_tail(a) == head + block_tail(b) {
        lemma_cancel_left(head, block_tail(a), block_tail(b));
        lemma_cancel_left(parents, concat_decoded(ha), concat_decoded(hb));
        lemma_concat_of_digests(ha, hb);
        assert forall|i: int| 0 <= i < ha.len() implies ha[i] == hb[i] by {
            let ta = a.transactions[i];
            let tb = b.transactions[i];
            lemma_sealed_hash_is_hex(ta);
            lemma_sealed_hash_is_hex(tb);
            assert(hex_decode(ha[i]) == hex_decode(hb[i]));
        }
        assert(ha =~= hb);
    }
    if block_hash(a) == block_hash(b) {
        lemma_encode_injective(sha256(head + block_tail(a)), sha256(head + block_tail(b)));
    }
}

/// A transaction that carries the hash of a sealed one verifies only if its
/// own bytes have the same digest.
pub proof fn stale_hash_is_rejected(sealed: TransactionView, changed: TransactionView)
    requires
        tx_sealed(sealed),
        changed.hash == sealed.hash,
        sha256(tx_encoding(changed)) != sha256(tx_encoding(sealed)),
    ensures
        !tx_verifies(changed),
{
    if tx_verifies(changed) {
        lemma_encode_injective(sha256(tx_encoding(changed)), sha256(tx_encoding(sealed)));
    }
}

/// The bytes of one output.
pub open spec fn output_bytes(o: TxOutputView) -> Seq<u8> {
    hex_decode(o.to_address) + le_bytes(o.amount)
}

/// The bytes of one input.
pub open spec fn input_bytes(i: TxInputView) -> Seq<u8> {
    hex_decode(i.prev_tx_hash) + le_bytes(i.output_index as u64)
}

/// Outputs that differ in one place and have the same bytes as a whole
/// have the same bytes in that place.
pub proof fn lemma_changed_output(outputs: Seq<TxOutputView>, k: int, o: TxOutputView)
    requires
        0 <= k < outputs.len(),
        outputs_encoding(outputs.update(k, o)) == outputs_encoding(outputs),
    ensures
        output_bytes(o) == output_bytes(outputs[k]),
    decreases outputs.len(),
{
    let changed = outputs.update(k, o);
    let a = outputs.drop_last();
    let last = outputs.last();
    assert(outputs_encoding(outputs) =~= outputs_encoding(a) + output_bytes(last));
    if k == outputs.len() - 1 {
        assert(changed.drop_last() =~= a);
        assert(outputs_encoding(changed) =~= outputs_encoding(a) + output_bytes(o));
        lemma_cancel_left(outputs_encoding(a), output_bytes(o), output_bytes(last));
    } else {
        assert(changed.drop_last() =~= a.update(k, o));
        assert(changed.last() == last);
        assert(outputs_encoding(changed) =~= outputs_encoding(a.update(k, o)) + output_bytes(last));
        lemma_cancel_right(
            outputs_encoding(a.update(k, o)),
            outputs_encoding(a),
            output_bytes(last),
            output_bytes(last),
        );
        lemma_changed_output(a, k, o);
    }
}

/// Inputs that differ in one place and have the same bytes as a whole have
/// the same bytes in that place.
pub proof fn lemma_changed_input(inputs: Seq<TxInputView>, k: int, i: TxInputView)
    requires
        0 <= k < inputs.len(),
        inputs_encoding(inputs.update(k, i)) == inputs_encoding(inputs),
    ensures
        input_bytes(i) == input_bytes(inputs[k]),
    decreases inputs.len(),
{
    let changed = inputs.update(k, i);
    let a = inputs.drop_last();
    let last = inputs.last();
    assert(inputs_encoding(inputs) =~= inputs_encoding(a) + input_bytes(last));
    if k == inputs.len() - 1 {
        assert(changed.drop_last() =~= a);
        assert(inputs_encoding(changed) =~= inputs_encoding(a) + input_bytes(i));
        lemma_cancel_left(inputs_encoding(a), input_bytes(i), input_bytes(last));
    } else {
        assert(changed.drop_last() =~= a.update(k, i));
        assert(changed.last() == last);
        assert(inputs_encoding(changed) =~= inputs_encoding(a.update(k, i)) + input_bytes(last));
        lemma_cancel_right(
            inputs_encoding(a.update(k, i)),
            inputs_encoding(a),
            input_bytes(last),
            input_bytes(last),
        );
        lemma_changed_input(a, k, i);
    }
}

/// Transactions that agree in fee and sender key and have the same bytes
/// have inputs with the same bytes and outputs with the same bytes, if their
/// outputs take the same number of bytes.
pub proof fn lemma_parts_of_encoding(a: TransactionView, b: TransactionView)
    requires
        tx_encoding(a) == tx_encoding(b),
        a.fee == b.fee,
        a.sender_public_key == b.sender_public_key,
        outputs_encoding(a.outputs).len() == outputs_encoding(b.outputs).len(),
    ensures
        inputs_encoding(a.inputs) == inputs_encoding(b.inputs),
        outputs_encoding(a.outputs) == outputs_encoding(b.outputs),
{
    let key = hex_decode(a.sender_public_key);
    let fee = le_bytes(a.fee);
    lemma_cancel_right(
        inputs_encoding(a.inputs) + outputs_encoding(a.outputs) + fee,
        inputs_encoding(b.inputs) + outputs_encoding(b.outputs) + fee,
        key,
        key,
    );
    lemma_cancel_right(
        inputs_encoding(a.inputs) + outputs_encoding(a.outputs),
        inputs_encoding(b.inputs) + outputs_encoding(b.outputs),
        fee,
        fee,
    );
    lemma_cancel_right(
        inputs_encoding(a.inputs),
        inputs_encoding(b.inputs),
        outputs_encoding(a.outputs),
        outputs_encoding(b.outputs),
    );
}

/// The bytes of a list of outputs are as many as the bytes of its outputs
/// together.
pub proof fn lemma_outputs_len(outputs: Seq<TxOutputView>, k: int, o: TxOutputView)
    requires
        0 <= k < outputs.len(),
        output_bytes(o).len() == output_bytes(outputs[k]).len(),
    ensures
        outputs_encoding(outputs.update(k, o)).len() == outputs_encoding(outputs).len(),
    decreases outputs.len(),
{
    let changed = outputs.update(k, o);
    let a = outputs.drop_last();
    assert(outputs_encoding(outputs) =~= outputs_encoding(a) + output_bytes(outputs.last()));
    if k == outputs.len() - 1 {
        assert(changed.drop_last() =~= a);
        assert(outputs_encoding(changed) =~= outputs_encoding(a) + output_bytes(o));
    } else {
        assert(changed.drop_last() =~= a.update(k, o));
        assert(changed.last() == outputs.last());
        assert(outputs_encoding(changed) =~= outputs_encoding(a.update(k, o)) + output_bytes(
            outputs.last(),
        ));
        lemma_outputs_len(a, k, o);
    }
}

/// After the amount of an output of a sealed transaction was changed the
/// transaction is hashed from other bytes, and no longer verifies unless
/// SHA-256 maps both byte strings to one digest.
pub proof fn changed_amount_is_detected(t: TransactionView, k: int, amount: u64)
    requires
        tx_sealed(t),
        0 <= k < t.outputs.len(),
        amount != t.outputs[k].amount,
    ensures
        ({
            let forged = TransactionView {
                outputs: t.outputs.update(
                    k,
                    TxOutputView { to_address: t.outputs[k].to_address, amount },
                ),
                ..t
            };
            &&& tx_encoding(forged) != tx_encoding(t)
            &&& sha256(tx_encoding(forged)) != sha256(tx_encoding(t)) ==> !tx_verifies(forged)
        }),
{
    let o = TxOutputView { to_address: t.outputs[k].to_address, amount };
    let forged = TransactionView { outputs: t.outputs.update(k, o), ..t };
    lemma_le_bytes_len(amount);
    lemma_le_bytes_len(t.outputs[k].amount);
    lemma_outputs_len(t.outputs, k, o);
    if tx_encoding(forged) == tx_encoding(t) {
        lemma_parts_of_encoding(forged, t);
        lemma_changed_output(t.outputs, k, o);
        lemma_cancel_left(
            hex_decode(o.to_address),
            le_bytes(amount),
            le_bytes(t.outputs[k].amount),
        );
        lemma_le_bytes_injective(amount, t.outputs[k].amount);
    }
    if sha256(tx_encoding(forged)) != sha256(tx_encoding(t)) {
        stale_hash_is_rejected(t, forged);
    }
}

/// After an input of a sealed transaction was made to name another output
/// -- another index, or a transaction hash that stands for other bytes -- the
/// transaction is hashed from other bytes, and no longer verifies unless
/// SHA-256 maps both byte strings to one digest.
pub proof fn changed_input_reference_is_detected(
    t: TransactionView,
    k: int,
    prev_tx_hash: Seq<char>,
    output_index: usize,
)
    requires
        tx_sealed(t),
        0 <= k < t.inputs.len(),
        hex_decode(prev_tx_hash) != hex_decode(t.inputs[k].prev_tx_hash) || output_index
            != t.inputs[k].output_index,
    ensures
        ({
            let forged = TransactionView {
                inputs: t.inputs.update(
                    k,
                    TxInputView { prev_tx_hash, output_index, signature: t.inputs[k].signature },
                ),
                ..t
            };
            &&& tx_encoding(forged) != tx_encoding(t)
            &&& sha256(tx_encoding(forged)) != sha256(tx_encoding(t)) ==> !tx_verifies(forged)
        }),
{
    let i = TxInputView { prev_tx_hash, output_index, signature: t.inputs[k].signature };
    let forged = TransactionView { inputs: t.inputs.update(k, i), ..t };
    lemma_le_bytes_len(output_index as u64);
    lemma_le_bytes_len(t.inputs[k].output_index as u64);
    if tx_encoding(forged) == tx_encoding(t) {
        lemma_parts_of_encoding(forged, t);
        lemma_changed_input(t.inputs, k, i);
        lemma_cancel_right(
            hex_decode(prev_tx_hash),
            hex_decode(t.inputs[k].prev_tx_hash),
            le_bytes(output_index as u64),
            le_bytes(t.inputs[k].output_index as u64),
        );
        lemma_le_bytes_injective(output_index as u64, t.inputs[k].output_index as u64);
    }
    if sha256(tx_encoding(forged)) != sha256(tx_encoding(t)) {
        stale_hash_is_rejected(t, forged);
    }
}

/// After the sender key of a sealed transaction was replaced by one that
/// stands for other bytes the transaction is hashed from other bytes, and no
/// longer verifies unless SHA-256 maps both byte strings to one digest.
pub proof fn changed_sender_key_is_detected(t: TransactionView, sender_public_key: Seq<char>)
    requires
        tx_sealed(t),
        hex_decode(sender_public_key) != hex_decode(t.sender_public_key),
    ensures
        ({
            let forged = TransactionView { sender_public_key, ..t };
            &&& tx_encoding(forged) != tx_encoding(t)
            &&& sha256(tx_encoding(forged)) != sha256(tx_encoding(t)) ==> !tx_verifies(forged)
        }),
{
    let forged = TransactionView { sender_public_key, ..t };
    if tx_encoding(forged) == tx_encoding(t) {
        lemma_cancel_left(
            inputs_encoding(t.inputs) + outputs_encoding(t.outputs) + le_bytes(t.fee),
            hex_decode(sender_public_key),
            hex_decode(t.sender_public_key),
        );
    }
    if sha256(tx_encoding(forged)) != sha256(tx_encoding(t)) {
        stale_hash_is_rejected(t, forged);
    }
}

} // verus!
