//! Transactions: a signed, hash-addressed transfer of value that names the
//! earlier outputs it spends.

use crate::digest::{le_bytes, push_le, sha256, sha256_digest};
use crate::hexcode::{
    decode, encode_hex, hex_decode, hex_encode, is_hex, lemma_encode_decode,
};
use crate::signature::{
    derive_public_key, ecdsa_accepts, ecdsa_signature, generate_keys, public_key_of,
    secret_key_accepted, sign_digest, verify_digest,
};
use vstd::prelude::*;

verus! {

/// A reference to one earlier output, with the proof that spending it is
/// authorised.
#[derive(Debug, PartialEq, Eq)]
pub struct TxInput {
    pub prev_tx_hash: String,
    pub output_index: usize,
    pub signature: Vec<u8>,
}

/// A grant of `amount` to an address.
#[derive(Debug, PartialEq, Eq)]
pub struct TxOutput {
    pub to_address: String,
    pub amount: u64,
}

/// A transfer: the outputs it spends, the outputs it creates, a fee, the
/// sender's public key in hex, and the hash that identifies it.
#[derive(Debug, PartialEq, Eq)]
pub struct Transaction {
    pub inputs: Vec<TxInput>,
    pub outputs: Vec<TxOutput>,
    pub fee: u64,
    pub sender_public_key: String,
    pub hash: String,
}

/// An input as a mathematical value.
pub struct TxInputView {
    pub prev_tx_hash: Seq<char>,
    pub output_index: usize,
    pub signature: Seq<u8>,
}

/// An output as a mathematical value.
pub struct TxOutputView {
    pub to_address: Seq<char>,
    pub amount: u64,
}

/// A transaction as a mathematical value: what the contracts speak of.
pub struct TransactionView {
    pub inputs: Seq<TxInputView>,
    pub outputs: Seq<TxOutputView>,
    pub fee: u64,
    pub sender_public_key: Seq<char>,
    pub hash: Seq<char>,
}

impl View for TxInput {
    type V = TxInputView;

    open spec fn view(&self) -> TxInputView {
        TxInputView {
            prev_tx_hash: self.prev_tx_hash@,
            output_index: self.output_index,
            signature: self.signature@,
        }
    }
}

impl View for TxOutput {
    type V = TxOutputView;

    open spec fn view(&self) -> TxOutputView {
        TxOutputView { to_address: self.to_address@, amount: self.amount }
    }
}

/// The views of the items of a sequence, in order.
pub open spec fn view_all<T: View>(items: Seq<T>) -> Seq<T::V> {
    Seq::new(items.len(), |i: int| items[i]@)
}

impl View for Transaction {
    type V = TransactionView;

    open spec fn view(&self) -> TransactionView {
        TransactionView {
            inputs: view_all(self.inputs@),
            outputs: view_all(self.outputs@),
            fee: self.fee,
            sender_public_key: self.sender_public_key@,
            hash: self.hash@,
        }
    }
}

impl Clone for TxInput {
    fn clone(&self) -> (copy: Self)
        ensures
            copy@ == self@,
    {
        let signature = self.signature.clone();
        assert(signature@ =~= self.signature@);
        TxInput {
            prev_tx_hash: self.prev_tx_hash.clone(),
            output_index: self.output_index,
            signature,
        }
    }
}

impl Clone for TxOutput {
    fn clone(&self) -> (copy: Self)
        ensures
            copy@ == self@,
    {
        TxOutput { to_address: self.to_address.clone(), amount: self.amount }
    }
}

impl Clone for Transaction {
    fn clone(&self) -> (copy: Self)
        ensures
            copy@ == self@,
    {
        let mut inputs: Vec<TxInput> = Vec::new();
        for i in 0..self.inputs.len()
            invariant
                inputs@.len() == i,
                forall|j: int| 0 <= j < i ==> (#[trigger] inputs@[j])@ == self.inputs@[j]@,
        {
            inputs.push(self.inputs[i].clone());
        }
        let mut outputs: Vec<TxOutput> = Vec::new();
        for i in 0..self.outputs.len()
            invariant
                outputs@.len() == i,
                forall|j: int| 0 <= j < i ==> (#[trigger] outputs@[j])@ == self.outputs@[j]@,
        {
            outputs.push(self.outputs[i].clone());
        }
        assert(view_all(inputs@) =~= view_all(self.inputs@));
        assert(view_all(outputs@) =~= view_all(self.outputs@));
        Transaction {
            inputs,
            outputs,
            fee: self.fee,
            sender_public_key: self.sender_public_key.clone(),
            hash: self.hash.clone(),
        }
    }
}

/// Why a value could not be put into bytes for hashing.
#[derive(Clone, Copy, Debug, PartialEq, Eq, Structural)]
pub enum EncodingError {
    /// A field that must hold hex text holds something else.
    NotHex,
}

/// Why a transaction could not be signed.
#[derive(Clone, Copy, Debug, PartialEq, Eq, Structural)]
pub enum SignError {
    /// The stored hash is not the hex text of 32 bytes.
    InvalidMessage,
    /// The bytes given are not a secret key of the curve.
    InvalidSecretKey,
}

/// Every input names its earlier transaction in hex.
pub open spec fn inputs_hashable(inputs: Seq<TxInputView>) -> bool {
    forall|i: int| 0 <= i < inputs.len() ==> is_hex((#[trigger] inputs[i]).prev_tx_hash)
}

/// Every output names its address in hex.
pub open spec fn outputs_hashable(outputs: Seq<TxOutputView>) -> bool {
    forall|i: int| 0 <= i < outputs.len() ==> is_hex((#[trigger] outputs[i]).to_address)
}

/// The bytes of the inputs: for each, in order, the decoded hash of the
/// earlier transaction and the eight little-endian bytes of the output index.
pub open spec fn inputs_encoding(inputs: Seq<TxInputView>) -> Seq<u8>
    decreases inputs.len(),
{
    if inputs.len() == 0 {
        Seq::empty()
    } else {
        inputs_encoding(inputs.drop_last()) + hex_decode(inputs.last().prev_tx_hash) + le_bytes(
            inputs.last().output_index as u64,
        )
    }
}

/// The bytes of the outputs: for each, in order, the decoded address and the
/// eight little-endian bytes of the amount.
pub open spec fn outputs_encoding(outputs: Seq<TxOutputView>) -> Seq<u8>
    decreases outputs.len(),
{
    if outputs.len() == 0 {
        Seq::empty()
    } else {
        outputs_encoding(outputs.drop_last()) + hex_decode(outputs.last().to_address) + le_bytes(
            outputs.last().amount,
        )
    }
}

/// Whether a transaction can be put into bytes: its hex fields are hex.
pub open spec fn tx_hashable(t: TransactionView) -> bool {
    &&& inputs_hashable(t.inputs)
    &&& outputs_hashable(t.outputs)
    &&& is_hex(t.sender_public_key)
}

/// The canonical bytes of a transaction: inputs, outputs, fee, sender key.
/// Signatures are left out, since the hash of these bytes is what is signed.
pub open spec fn tx_encoding(t: TransactionView) -> Seq<u8> {
    inputs_encoding(t.inputs) + outputs_encoding(t.outputs) + le_bytes(t.fee) + hex_decode(
        t.sender_public_key,
    )
}

/// The hash of a transaction: the hex text of the SHA-256 of its bytes.
pub open spec fn tx_hash(t: TransactionView) -> Seq<char> {
    hex_encode(sha256(tx_encoding(t)))
}

/// The stored hash is the hash of the content.
pub open spec fn tx_sealed(t: TransactionView) -> bool {
    tx_hashable(t) && t.hash == tx_hash(t)
}

/// What `verify` decides: the hash matches the content, and every input
/// carries a signature over the hash that the sender's key accepts.
pub open spec fn tx_verifies(t: TransactionView) -> bool {
    &&& tx_sealed(t)
    &&& forall|i: int|
        0 <= i < t.inputs.len() ==> ecdsa_accepts(
            hex_decode(t.hash),
            (#[trigger] t.inputs[i]).signature,
            hex_decode(t.sender_public_key),
        )
}

/// Every transaction verifies.
pub open spec fn all_verify(txs: Seq<TransactionView>) -> bool {
    forall|i: int| 0 <= i < txs.len() ==> tx_verifies(#[trigger] txs[i])
}

/// A sealed transaction has a hash that is hex text.
pub proof fn lemma_sealed_hash_is_hex(t: TransactionView)
    requires
        tx_sealed(t),
    ensures
        is_hex(t.hash),
        hex_decode(t.hash) == sha256(tx_encoding(t)),
{
    lemma_encode_decode(sha256(tx_encoding(t)));
}

/// The inputs with every signature replaced by `signature`.
pub open spec fn with_signature(inputs: Seq<TxInputView>, signature: Seq<u8>) -> Seq<TxInputView> {
    Seq::new(
        inputs.len(),
        |i: int|
            TxInputView {
                prev_tx_hash: inputs[i].prev_tx_hash,
                output_index: inputs[i].output_index,
                signature,
            },
    )
}

/// Replacing signatures does not change the bytes that are hashed.
pub proof fn lemma_signature_not_hashed(inputs: Seq<TxInputView>, signature: Seq<u8>)
    ensures
        inputs_encoding(with_signature(inputs, signature)) == inputs_encoding(inputs),
        inputs_hashable(with_signature(inputs, signature)) == inputs_hashable(inputs),
    decreases inputs.len(),
{
    let signed = with_signature(inputs, signature);
    if inputs.len() > 0 {
        lemma_signature_not_hashed(inputs.drop_last(), signature);
        assert(signed.drop_last() =~= with_signature(inputs.drop_last(), signature));
    }
    if inputs_hashable(inputs) {
        assert forall|i: int| 0 <= i < signed.len() implies is_hex(
            (#[trigger] signed[i]).prev_tx_hash,
        ) by {
            assert(is_hex(inputs[i].prev_tx_hash));
        }
    }
    if inputs_hashable(signed) {
        assert forall|i: int| 0 <= i < inputs.len() implies is_hex(
            (#[trigger] inputs[i]).prev_tx_hash,
        ) by {
            assert(is_hex(signed[i].prev_tx_hash));
        }
    }
}

fn encode_inputs(inputs: &Vec<TxInput>, out: &mut Vec<u8>) -> (outcome: Result<(), EncodingError>)
    ensures
        outcome is Ok <==> inputs_hashable(view_all(inputs@)),
        outcome is Ok ==> final(out)@ == old(out)@ + inputs_encoding(view_all(inputs@)),
{
    let ghost all = view_all(inputs@);
    let ghost start = out@;
    for i in 0..inputs.len()
        invariant
            all == view_all(inputs@),
            inputs_hashable(all.take(i as int)),
            out@ == start + inputs_encoding(all.take(i as int)),
    {
        let input = &inputs[i];
        assert(all[i as int] == input@);
        match decode(input.prev_tx_hash.as_str()) {
            Ok(mut bytes) => {
                out.append(&mut bytes);
                push_le(out, input.output_index as u64);
            },
            Err(_) => {
                return Err(EncodingError::NotHex);
            },
        }
        proof {
            let next = all.take(i + 1);
            assert(next.drop_last() =~= all.take(i as int));
            assert(next.last() == all[i as int]);
            assert(out@ =~= start + inputs_encoding(next));
            assert forall|j: int| 0 <= j < next.len() implies is_hex(
                (#[trigger] next[j]).prev_tx_hash,
            ) by {
                if j < i {
                    assert(all.take(i as int)[j] == next[j]);
                }
            }
        }
    }
    assert(all.take(inputs@.len() as int) =~= all);
    Ok(())
}

fn encode_outputs(outputs: &Vec<TxOutput>, out: &mut Vec<u8>) -> (outcome: Result<
    (),
    EncodingError,
>)
    ensures
        outcome is Ok <==> outputs_hashable(view_all(outputs@)),
        outcome is Ok ==> final(out)@ == old(out)@ + outputs_encoding(view_all(outputs@)),
{
    let ghost all = view_all(outputs@);
    let ghost start = out@;
    for i in 0..outputs.len()
        invariant
            all == view_all(outputs@),
            outputs_hashable(all.take(i as int)),
            out@ == start + outputs_encoding(all.take(i as int)),
    {
        let output = &outputs[i];
        assert(all[i as int] == output@);
        match decode(output.to_address.as_str()) {
            Ok(mut bytes) => {
                out.append(&mut bytes);
                push_le(out, output.amount);
            },
            Err(_) => {
                return Err(EncodingError::NotHex);
            },
        }
        proof {
            let next = all.take(i + 1);
            assert(next.drop_last() =~= all.take(i as int));
            assert(next.last() == all[i as int]);
            assert(out@ =~= start + outputs_encoding(next));
            assert forall|j: int| 0 <= j < next.len() implies is_hex(
                (#[trigger] next[j]).to_address,
            ) by {
                if j < i {
                    assert(all.take(i as int)[j] == next[j]);
                }
            }
        }
    }
    assert(all.take(outputs@.len() as int) =~= all);
    Ok(())
}

impl Transaction {
    /// Builds a transaction and seals it with its hash. Fails when a field
    /// that is hashed as bytes is not hex text.
    pub fn new(
        inputs: Vec<TxInput>,
        outputs: Vec<TxOutput>,
        fee: u64,
        sender_public_key: String,
    ) -> (made: Result<Transaction, EncodingError>)
        ensures
            made is Ok <==> inputs_hashable(view_all(inputs@)) && outputs_hashable(
                view_all(outputs@),
            ) && is_hex(sender_public_key@),
            made matches Ok(t) ==> {
                &&& t@.inputs == view_all(inputs@)
                &&& t@.outputs == view_all(outputs@)
                &&& t@.fee == fee
                &&& t@.sender_public_key == sender_public_key@
                &&& tx_sealed(t@)
                &&& t@.hash.len() == 64
            },
    {
        let mut tx = Transaction { inputs, outputs, fee, sender_public_key, hash: String::new() };
        let ghost unsealed = tx@;
        match tx.calculate_hash() {
            Ok(hash) => {
                tx.hash = hash;
                assert(tx_encoding(tx@) == tx_encoding(unsealed));
                Ok(tx)
            },
            Err(e) => Err(e),
        }
    }

    /// The canonical bytes of the transaction.
    pub fn encoding(&self) -> (outcome: Result<Vec<u8>, EncodingError>)
        ensures
            outcome is Ok <==> tx_hashable(self@),
            outcome matches Ok(bytes) ==> bytes@ == tx_encoding(self@),
    {
        let mut out: Vec<u8> = Vec::new();
        match encode_inputs(&self.inputs, &mut out) {
            Ok(()) => {},
            Err(e) => {
                return Err(e);
            },
        }
        match encode_outputs(&self.outputs, &mut out) {
            Ok(()) => {},
            Err(e) => {
                return Err(e);
            },
        }
        push_le(&mut out, self.fee);
        match decode(self.sender_public_key.as_str()) {
            Ok(mut key) => {
                out.append(&mut key);
                assert(out@ =~= tx_encoding(self@));
                Ok(out)
            },
            Err(_) => Err(EncodingError::NotHex),
        }
    }

    /// The hash of the content, whatever the stored hash says.
    pub fn calculate_hash(&self) -> (outcome: Result<String, EncodingError>)
        ensures
            outcome is Ok <==> tx_hashable(self@),
            outcome matches Ok(hash) ==> hash@ == tx_hash(self@) && hash@.len() == 64,
    {
        match self.encoding() {
            Ok(bytes) => {
                let digest = sha256_digest(bytes.as_slice());
                Ok(encode_hex(digest.as_slice()))
            },
            Err(e) => Err(e),
        }
    }

    /// Puts `signature` into every input and leaves the rest as it is.
    pub fn attach_signature(&mut self, signature: &Vec<u8>)
        ensures
            final(self)@.inputs == with_signature(old(self)@.inputs, signature@),
            final(self)@.outputs == old(self)@.outputs,
            final(self)@.fee == old(self)@.fee,
            final(self)@.sender_public_key == old(self)@.sender_public_key,
            final(self)@.hash == old(self)@.hash,
    {
        let mut signed: Vec<TxInput> = Vec::new();
        let ghost before = self@.inputs;
        for i in 0..self.inputs.len()
            invariant
                before == view_all(self.inputs@),
                signed@.len() == i,
                forall|j: int|
                    0 <= j < i ==> (#[trigger] signed@[j])@ == with_signature(
                        before,
                        signature@,
                    )[j],
        {
            let input = &self.inputs[i];
            let copy = signature.clone();
            assert(copy@ =~= signature@);
            assert(before[i as int] == input@);
            signed.push(
                TxInput {
                    prev_tx_hash: input.prev_tx_hash.clone(),
                    output_index: input.output_index,
                    signature: copy,
                },
            );
        }
        assert(view_all(signed@) =~= with_signature(before, signature@));
        self.inputs = signed;
    }

    /// Signs the stored hash with a secret key and puts the one signature
    /// into every input.
    ///
    /// Fails with `InvalidMessage` when the stored hash is not the hex text of
    /// 32 bytes, and with `InvalidSecretKey` when the key is not accepted; the
    /// transaction is then left as it was. When the stored hash is the hash of
    /// the content and the sender key is the public key of `secret_key`, the
    /// signed transaction verifies.
    pub fn sign(&mut self, secret_key: &[u8]) -> (outcome: Result<(), SignError>)
        ensures
            outcome == sign_outcome(old(self)@, secret_key@),
            outcome is Ok ==> final(self)@ == signed(old(self)@, secret_key@),
            outcome is Err ==> final(self)@ == old(self)@,
            outcome is Ok && tx_sealed(old(self)@) && hex_decode(old(self)@.sender_public_key)
                == public_key_of(secret_key@) ==> tx_verifies(final(self)@),
    {
        let digest = match decode(self.hash.as_str()) {
            Ok(bytes) => bytes,
            Err(_) => {
                return Err(SignError::InvalidMessage);
            },
        };
        if digest.len() != 32 {
            return Err(SignError::InvalidMessage);
        }
        match sign_digest(digest.as_slice(), secret_key) {
            Ok(signature) => {
                let ghost before = self@;
                self.attach_signature(&signature);
                proof {
                    assert(self@ == signed(before, secret_key@));
                    if tx_sealed(before) && hex_decode(before.sender_public_key) == public_key_of(
                        secret_key@,
                    ) {
                        lemma_signature_not_hashed(before.inputs, signature@);
                        assert(tx_encoding(self@) == tx_encoding(before));
                    }
                }
                Ok(())
            },
            Err(_) => Err(SignError::InvalidSecretKey),
        }
    }

    /// Whether the stored hash is the hash of the content and, where there
    /// are inputs, every input's signature over that hash is accepted under
    /// the sender's key. Malformed fields make the answer `false`.
    pub fn verify(&self) -> (ok: bool)
        ensures
            ok == tx_verifies(self@),
    {
        let computed = match self.calculate_hash() {
            Ok(hash) => hash,
            Err(_) => {
                return false;
            },
        };
        if !(self.hash == computed) {
            return false;
        }
        proof {
            lemma_encode_decode(sha256(tx_encoding(self@)));
        }
        if self.inputs.len() == 0 {
            return true;
        }
        let key = match decode(self.sender_public_key.as_str()) {
            Ok(bytes) => bytes,
            Err(_) => {
                return false;
            },
        };
        let digest = match decode(self.hash.as_str()) {
            Ok(bytes) => bytes,
            Err(_) => {
                return false;
            },
        };
        for i in 0..self.inputs.len()
            invariant
                tx_sealed(self@),
                key@ == hex_decode(self@.sender_public_key),
                digest@ == hex_decode(self@.hash),
                forall|j: int|
                    0 <= j < i ==> ecdsa_accepts(
                        hex_decode(self@.hash),
                        (#[trigger] self@.inputs[j]).signature,
                        hex_decode(self@.sender_public_key),
                    ),
        {
            let input = &self.inputs[i];
            assert(self@.inputs[i as int] == input@);
            if !verify_digest(digest.as_slice(), input.signature.as_slice(), key.as_slice()) {
                return false;
            }
        }
        true
    }
}

/// Which outcome `sign` has on a transaction and a secret key.
pub open spec fn sign_outcome(t: TransactionView, secret: Seq<u8>) -> Result<(), SignError> {
    if !(is_hex(t.hash) && hex_decode(t.hash).len() == 32) {
        Err(SignError::InvalidMessage)
    } else if !secret_key_accepted(secret) {
        Err(SignError::InvalidSecretKey)
    } else {
        Ok(())
    }
}

/// The transaction with every input signed over the stored hash.
pub open spec fn signed(t: TransactionView, secret: Seq<u8>) -> TransactionView {
    TransactionView {
        inputs: with_signature(t.inputs, ecdsa_signature(hex_decode(t.hash), secret)),
        outputs: t.outputs,
        fee: t.fee,
        sender_public_key: t.sender_public_key,
        hash: t.hash,
    }
}

/// The compressed public key, in hex, that belongs to a secret key given
/// as bytes, or `None` when the bytes are no secret key of the curve. A
/// transaction with this sender key that is signed with the secret key
/// verifies.
pub fn public_key_hex(secret_key: &[u8]) -> (key: Option<String>)
    ensures
        key is Some <==> secret_key_accepted(secret_key@),
        key matches Some(text) ==> {
            &&& text@ == hex_encode(public_key_of(secret_key@))
            &&& is_hex(text@)
            &&& text@.len() == 66
            &&& hex_decode(text@) == public_key_of(secret_key@)
        },
{
    match derive_public_key(secret_key) {
        Ok(bytes) => Some(encode_hex(bytes.as_slice())),
        Err(_) => None,
    }
}

/// A fresh key pair in hex: the secret key (64 digits) and the compressed
/// public key (66 digits) that belongs to it. Which pair is not determined.
pub fn create_key_pair() -> (pair: (String, String))
    ensures
        is_hex(pair.0@) && pair.0@.len() == 64,
        is_hex(pair.1@) && pair.1@.len() == 66,
        secret_key_accepted(hex_decode(pair.0@)),
        hex_decode(pair.1@) == public_key_of(hex_decode(pair.0@)),
{
    let (secret, public) = generate_keys();
    (encode_hex(secret.as_slice()), encode_hex(public.as_slice()))
}

} // verus!
