//! The ledger: the accepted blocks, the tips of the DAG, the unspent
//! outputs and the mempool, and the one path by which a block is accepted.
//!
//! The ledger is an owned value. Whoever changes it holds it exclusively, so
//! a block is validated against exactly the state it is then applied to.

use crate::block::{
    block_hash_at, block_sealed, candidate, has_leading_zeros, mined, tx_hashes, unix_now, Block,
    BlockView,
};
use crate::hexcode::{encode_hex, hex_encode, is_hex};
use crate::history::{ledger_consistent, lemma_accept_keeps_consistent};
use crate::lexical::string_eq;
use crate::mempool::{pool_insert, submit_outcome, Mempool, RejectReason};
use crate::transaction::{
    lemma_sealed_hash_is_hex, tx_hash, tx_verifies, view_all, Transaction, TransactionView,
    TxInput, TxInputView, TxOutput, TxOutputView,
};
use crate::utxo::{
    all_spent_keys, apply_txs, insert_outputs, remove_keys, spent_keys, utxo_key, UtxoSet,
};
use crate::validation::{block_valid, validate};
use vstd::prelude::*;

verus! {

/// The state of a node.
pub struct DagBlockchain {
    /// The accepted blocks, in the order in which they were accepted.
    pub blocks: Vec<Block>,
    /// The hashes of the accepted blocks that no accepted block names as a
    /// parent.
    pub tips: Vec<String>,
    /// The number of leading zeros that a block's hash must have.
    pub difficulty: u32,
    /// The transactions that wait for a block.
    pub mempool: Mempool,
    /// The unspent outputs.
    pub utxo_set: UtxoSet,
}

/// The state of a node as a mathematical value.
pub struct LedgerView {
    pub blocks: Seq<BlockView>,
    pub tips: Seq<Seq<char>>,
    pub difficulty: u32,
    pub mempool: Seq<TransactionView>,
    pub utxo: Map<Seq<char>, TxOutputView>,
}

impl View for DagBlockchain {
    type V = LedgerView;

    open spec fn view(&self) -> LedgerView {
        LedgerView {
            blocks: view_all(self.blocks@),
            tips: view_all(self.tips@),
            difficulty: self.difficulty,
            mempool: self.mempool@,
            utxo: self.utxo_set@,
        }
    }
}

/// Why the ledger refused a block that came from outside.
#[derive(Clone, Copy, Debug, PartialEq, Eq, Structural)]
pub enum BlockRejection {
    /// A block with this hash has been accepted before.
    AlreadyKnown,
    /// The block is not valid against the current unspent outputs.
    Invalid,
}

/// The tips that are not among `parents`, in their order.
pub open spec fn without_parents(tips: Seq<Seq<char>>, parents: Seq<Seq<char>>) -> Seq<Seq<char>>
    decreases tips.len(),
{
    if tips.len() == 0 {
        tips
    } else {
        let kept = without_parents(tips.drop_last(), parents);
        if parents.contains(tips.last()) {
            kept
        } else {
            kept.push(tips.last())
        }
    }
}

/// The tips after a block was accepted: its parents are tips no longer, and
/// its own hash is one.
pub open spec fn next_tips(tips: Seq<Seq<char>>, b: BlockView) -> Seq<Seq<char>> {
    without_parents(tips, b.parents).push(b.hash)
}

/// The ledger after a block was accepted.
pub open spec fn with_block(l: LedgerView, b: BlockView) -> LedgerView {
    LedgerView {
        blocks: l.blocks.push(b),
        tips: next_tips(l.tips, b),
        difficulty: l.difficulty,
        mempool: l.mempool,
        utxo: apply_txs(l.utxo, b.transactions),
    }
}

/// Some accepted block has this hash.
pub open spec fn knows_hash(blocks: Seq<BlockView>, hash: Seq<char>) -> bool {
    exists|i: int| 0 <= i < blocks.len() && (#[trigger] blocks[i]).hash == hash
}

/// Which verdict a block from outside gets.
pub open spec fn external_verdict(l: LedgerView, b: BlockView) -> Result<(), BlockRejection> {
    if knows_hash(l.blocks, b.hash) {
        Err(BlockRejection::AlreadyKnown)
    } else if !block_valid(b, l.utxo, l.difficulty) {
        Err(BlockRejection::Invalid)
    } else {
        Ok(())
    }
}

/// Why no ledger could be started.
#[derive(Clone, Copy, Debug, PartialEq, Eq, Structural)]
pub enum GenesisError {
    /// The address to reward is not hex text.
    BadAddress,
    /// No nonce gives the first block a hash that meets the difficulty.
    MiningFailed,
}

/// The sender key of a transaction that mints: 33 zero bytes in hex.
pub open spec fn null_key() -> Seq<char> {
    hex_encode(Seq::new(33, |i: int| 0u8))
}

/// The transaction that mints `amount` for `address`: no inputs, one output,
/// no fee, sealed with its hash.
pub open spec fn coinbase(address: Seq<char>, amount: u64) -> TransactionView {
    let body = TransactionView {
        inputs: Seq::empty(),
        outputs: seq![TxOutputView { to_address: address, amount }],
        fee: 0,
        sender_public_key: null_key(),
        hash: Seq::empty(),
    };
    TransactionView { hash: tx_hash(body), ..body }
}

/// The first block before it is mined: index 0, no parents, the minting
/// transaction alone, nonce 0, sealed with its hash.
pub open spec fn genesis_candidate(address: Seq<char>, amount: u64, timestamp: i64) -> BlockView {
    candidate(0, timestamp, seq![coinbase(address, amount)], Seq::empty())
}

/// No nonce after the block's own gives a hash that meets the difficulty,
/// nor does the hash it has.
pub open spec fn mining_fails(b: BlockView, difficulty: u32) -> bool {
    &&& !has_leading_zeros(b.hash, difficulty as nat)
    &&& forall|n: u64|
        b.nonce < n ==> !has_leading_zeros(#[trigger] block_hash_at(b, n), difficulty as nat)
}

/// A ledger that holds nothing.
pub open spec fn empty_ledger(difficulty: u32) -> LedgerView {
    LedgerView {
        blocks: Seq::empty(),
        tips: Seq::empty(),
        difficulty,
        mempool: Seq::empty(),
        utxo: Map::empty(),
    }
}

/// What a ledger is when it has just been started with a first block that
/// rewards `address` with `amount`: that block alone is accepted and is the
/// one tip, it is sealed and meets the difficulty, the one unspent output is
/// the reward, and the mempool is empty.
pub open spec fn genesis_state(l: LedgerView, difficulty: u32, address: Seq<char>, amount: u64) -> bool {
    let minted = coinbase(address, amount);
    &&& l.difficulty == difficulty
    &&& l.blocks.len() == 1
    &&& l.blocks[0].index == 0
    &&& l.blocks[0].parents == Seq::<Seq<char>>::empty()
    &&& l.blocks[0].transactions == seq![minted]
    &&& block_sealed(l.blocks[0])
    &&& has_leading_zeros(l.blocks[0].hash, difficulty as nat)
    &&& l.tips == seq![l.blocks[0].hash]
    &&& l.utxo == Map::<Seq<char>, TxOutputView>::empty().insert(
        utxo_key(minted.hash, 0),
        TxOutputView { to_address: address, amount },
    )
    &&& l.mempool == Seq::<TransactionView>::empty()
}

/// The public key that the first block of `new` rewards, uncompressed.
pub open spec fn genesis_miner_key() -> Seq<u8> {
    seq![
        0x04u8, 0x79, 0xbe, 0x66, 0x7e, 0xf9, 0xdc, 0xbb, 0xac, 0x55, 0xa0, 0x62, 0x95, 0xce, 0x87,
        0x0b, 0x07, 0x02, 0x9b, 0xfc, 0xdb, 0x2d, 0xce, 0x28, 0xd9, 0x59, 0xf2, 0x81, 0x5b, 0x16,
        0xf8, 0x17, 0x98, 0x48, 0x3a, 0xda, 0x77, 0x26, 0xa3, 0xc4, 0x65, 0x5d, 0xa4, 0xfb, 0xfc,
        0x0e, 0x11, 0x08, 0xa8, 0xfd, 0x17, 0xb4, 0x48, 0xa6, 0x85, 0x54, 0x19, 0x9c, 0x47, 0xd0,
        0x8f, 0xfb, 0x10, 0xd4, 0xb8,
    ]
}

/// The amount that the first block of `new` mints.
pub const GENESIS_REWARD: u64 = 50_000_000;

/// Whether `text` is one of `items`.
fn contains_string(items: &Vec<String>, text: &str) -> (found: bool)
    ensures
        found == view_all(items@).contains(text@),
{
    for i in 0..items.len()
        invariant
            forall|j: int| 0 <= j < i ==> view_all(items@)[j] != text@,
    {
        if string_eq(items[i].as_str(), text) {
            assert(view_all(items@)[i as int] == text@);
            return true;
        }
    }
    false
}

/// The tips that are not among `parents`, in their order.
fn prune_tips(tips: &Vec<String>, parents: &Vec<String>) -> (kept: Vec<String>)
    ensures
        view_all(kept@) == without_parents(view_all(tips@), view_all(parents@)),
{
    let ghost all = view_all(tips@);
    let mut kept: Vec<String> = Vec::new();
    assert(view_all(kept@) =~= without_parents(all.take(0), view_all(parents@)));
    for i in 0..tips.len()
        invariant
            all == view_all(tips@),
            view_all(kept@) == without_parents(all.take(i as int), view_all(parents@)),
    {
        proof {
            assert(all.take(i + 1).drop_last() =~= all.take(i as int));
            assert(all.take(i + 1).last() == tips@[i as int]@);
        }
        let ghost before = view_all(kept@);
        if !contains_string(parents, tips[i].as_str()) {
            kept.push(tips[i].clone());
            assert(view_all(kept@) =~= before.push(tips@[i as int]@));
        }
    }
    assert(all.take(tips@.len() as int) =~= all);
    kept
}

impl DagBlockchain {
    /// The mempool is in order.
    pub open spec fn wf(&self) -> bool {
        self.mempool.wf()
    }

    /// Starts a ledger whose first block rewards a fixed key with
    /// `GENESIS_REWARD`, stamped with the current time and mined at
    /// `difficulty`.
    ///
    /// The time is read from the clock, so which block comes out is not
    /// determined. At difficulty 0 every hash will do and a ledger is made.
    /// Whatever the time was, a ledger that is made holds the block mined from
    /// the candidate of that time, and `MiningFailed` is returned only when no
    /// nonce serves that candidate.
    pub fn new(difficulty: u32) -> (made: Result<DagBlockchain, GenesisError>)
        ensures
            made matches Ok(l) ==> l.wf() && ledger_consistent(l@) && genesis_state(
                l@,
                difficulty,
                hex_encode(genesis_miner_key()),
                GENESIS_REWARD,
            ),
            made matches Ok(l) ==> exists|timestamp: i64|
                mined(
                    #[trigger] genesis_candidate(
                        hex_encode(genesis_miner_key()),
                        GENESIS_REWARD,
                        timestamp,
                    ),
                    l@.blocks[0],
                    difficulty,
                    Ok(()),
                ),
            made matches Err(e) ==> e == GenesisError::MiningFailed,
            made is Err ==> exists|timestamp: i64|
                mining_fails(
                    #[trigger] genesis_candidate(
                        hex_encode(genesis_miner_key()),
                        GENESIS_REWARD,
                        timestamp,
                    ),
                    difficulty,
                ),
            difficulty == 0 ==> made is Ok,
    {
        let key: Vec<u8> = vec![
            0x04u8, 0x79, 0xbe, 0x66, 0x7e, 0xf9, 0xdc, 0xbb, 0xac, 0x55, 0xa0, 0x62, 0x95, 0xce,
            0x87, 0x0b, 0x07, 0x02, 0x9b, 0xfc, 0xdb, 0x2d, 0xce, 0x28, 0xd9, 0x59, 0xf2, 0x81,
            0x5b, 0x16, 0xf8, 0x17, 0x98, 0x48, 0x3a, 0xda, 0x77, 0x26, 0xa3, 0xc4, 0x65, 0x5d,
            0xa4, 0xfb, 0xfc, 0x0e, 0x11, 0x08, 0xa8, 0xfd, 0x17, 0xb4, 0x48, 0xa6, 0x85, 0x54,
            0x19, 0x9c, 0x47, 0xd0, 0x8f, 0xfb, 0x10, 0xd4, 0xb8,
        ];
        assert(key@ =~= genesis_miner_key());
        DagBlockchain::genesis(difficulty, encode_hex(key.as_slice()), GENESIS_REWARD)
    }

    /// Starts a ledger whose first block rewards `reward_address` with
    /// `reward_amount`, stamped with the current time and mined at
    /// `difficulty`.
    ///
    /// An address that is not hex text is refused with `BadAddress`. The time
    /// is read from the clock, so which block comes out is not determined. At
    /// difficulty 0 every hash will do and a ledger is made for every hex
    /// address. Whatever the time was, a ledger that is made holds the block
    /// mined from the candidate of that time, and `MiningFailed` is returned
    /// only when no nonce serves that candidate.
    pub fn genesis(difficulty: u32, reward_address: String, reward_amount: u64) -> (made: Result<
        DagBlockchain,
        GenesisError,
    >)
        ensures
            made matches Ok(l) ==> l.wf() && ledger_consistent(l@) && genesis_state(
                l@,
                difficulty,
                reward_address@,
                reward_amount,
            ),
            made matches Ok(l) ==> exists|timestamp: i64|
                mined(
                    #[trigger] genesis_candidate(reward_address@, reward_amount, timestamp),
                    l@.blocks[0],
                    difficulty,
                    Ok(()),
                ),
            made == Err::<DagBlockchain, GenesisError>(GenesisError::BadAddress) <==> !is_hex(
                reward_address@,
            ),
            made == Err::<DagBlockchain, GenesisError>(GenesisError::MiningFailed)
                ==> exists|timestamp: i64|
                mining_fails(
                    #[trigger] genesis_candidate(reward_address@, reward_amount, timestamp),
                    difficulty,
                ),
            difficulty == 0 && is_hex(reward_address@) ==> made is Ok,
    {
        let ghost address = reward_address@;
        let timestamp = unix_now();
        let made = DagBlockchain::genesis_at(difficulty, reward_address, reward_amount, timestamp);
        proof {
            let candidate = genesis_candidate(address, reward_amount, timestamp);
            // With no zeros asked for, the candidate's own hash serves.
            assert(has_leading_zeros(candidate.hash, 0));
            if made is Ok {
                assert(mined(candidate, made->Ok_0@.blocks[0], difficulty, Ok(())));
            } else if made->Err_0 == GenesisError::MiningFailed {
                assert(mining_fails(candidate, difficulty));
            }
        }
        made
    }

    /// Starts a ledger whose first block rewards `reward_address` with
    /// `reward_amount`, carries the given timestamp and is mined at
    /// `difficulty`.
    ///
    /// Fails with `BadAddress` when the address is not hex text, and with
    /// `MiningFailed` when no nonce gives the block a hash that meets the
    /// difficulty.
    pub fn genesis_at(
        difficulty: u32,
        reward_address: String,
        reward_amount: u64,
        timestamp: i64,
    ) -> (made: Result<DagBlockchain, GenesisError>)
        ensures
            made == Err::<DagBlockchain, GenesisError>(GenesisError::BadAddress) <==> !is_hex(
                reward_address@,
            ),
            made == Err::<DagBlockchain, GenesisError>(GenesisError::MiningFailed) <==> is_hex(
                reward_address@,
            ) && mining_fails(
                genesis_candidate(reward_address@, reward_amount, timestamp),
                difficulty,
            ),
            made matches Ok(l) ==> {
                &&& l.wf()
                &&& ledger_consistent(l@)
                &&& genesis_state(l@, difficulty, reward_address@, reward_amount)
                &&& mined(
                    genesis_candidate(reward_address@, reward_amount, timestamp),
                    l@.blocks[0],
                    difficulty,
                    Ok(()),
                )
            },
    {
        let ghost address = reward_address@;
        let zeros: Vec<u8> = vec![0u8; 33];
        assert(zeros@ =~= Seq::new(33, |i: int| 0u8));
        let sender = encode_hex(zeros.as_slice());
        let mut outputs: Vec<TxOutput> = Vec::new();
        outputs.push(TxOutput { to_address: reward_address, amount: reward_amount });
        let inputs: Vec<TxInput> = Vec::new();
        assert(view_all(inputs@) =~= Seq::<TxInputView>::empty());
        assert(view_all(outputs@) =~= seq![
            TxOutputView { to_address: address, amount: reward_amount },
        ]);
        let minted = match Transaction::new(inputs, outputs, 0, sender) {
            Ok(tx) => tx,
            Err(_) => {
                assert(view_all(outputs@)[0].to_address == address);
                return Err(GenesisError::BadAddress);
            },
        };
        proof {
            assert(view_all(outputs@)[0].to_address == address);
            assert(is_hex(address));
            assert(minted@ == coinbase(address, reward_amount));
            lemma_sealed_hash_is_hex(minted@);
        }
        let mut transactions: Vec<Transaction> = Vec::new();
        transactions.push(minted);
        assert(view_all(transactions@) =~= seq![coinbase(address, reward_amount)]);
        let parents: Vec<String> = Vec::new();
        assert(view_all(parents@) =~= Seq::<Seq<char>>::empty());
        // The block can be hashed: it has no parents, and the hash of its one
        // transaction is hex text.
        assert(tx_hashes(view_all(transactions@))[0] == coinbase(address, reward_amount).hash);
        let mut block = match Block::with_timestamp(0, timestamp, transactions, parents) {
            Ok(b) => b,
            Err(_) => {
                return Err(GenesisError::MiningFailed);
            },
        };
        match block.mine(difficulty) {
            Ok(()) => {},
            Err(_) => {
                return Err(GenesisError::MiningFailed);
            },
        }
        let mut ledger = DagBlockchain {
            blocks: Vec::new(),
            tips: Vec::new(),
            difficulty,
            mempool: Mempool::new(),
            utxo_set: UtxoSet::new(),
        };
        assert(ledger@ =~= empty_ledger(difficulty)) by {
            assert(view_all(ledger.blocks@) =~= Seq::<BlockView>::empty());
            assert(view_all(ledger.tips@) =~= Seq::<Seq<char>>::empty());
        }
        ledger.add_block(block);
        proof {
            let b = block@;
            let l = ledger@;
            let txs = b.transactions;
            assert(l.blocks =~= seq![b]);
            assert(txs =~= seq![coinbase(address, reward_amount)]);
            assert(tx_verifies(txs[0]));
            assert(all_spent_keys(txs) =~= Seq::<Seq<char>>::empty()) by {
                assert(txs.drop_last().len() == 0);
                assert(all_spent_keys(txs.drop_last()) =~= Seq::<Seq<char>>::empty());
                assert(txs.last().inputs.len() == 0);
                assert(spent_keys(txs.last()) =~= Seq::<Seq<char>>::empty());
            }
            assert(block_valid(b, Map::empty(), difficulty));
            lemma_accept_keeps_consistent(empty_ledger(difficulty), b);
            assert(without_parents(Seq::<Seq<char>>::empty(), b.parents) =~= Seq::<
                Seq<char>,
            >::empty());
            assert(l.tips =~= seq![b.hash]);
            let start = Map::<Seq<char>, TxOutputView>::empty();
            assert(txs.drop_last() =~= Seq::<TransactionView>::empty());
            assert(apply_txs(start, txs.drop_last()) == start);
            let t = txs.last();
            assert(t == coinbase(address, reward_amount));
            assert(spent_keys(t) =~= Seq::<Seq<char>>::empty());
            assert(remove_keys(start, spent_keys(t)) == start);
            assert(t.outputs.drop_last() =~= Seq::<TxOutputView>::empty());
            assert(insert_outputs(start, t.hash, t.outputs.drop_last()) == start);
            assert(insert_outputs(start, t.hash, t.outputs) == start.insert(
                utxo_key(t.hash, 0),
                t.outputs.last(),
            ));
            assert(l.utxo == start.insert(
                utxo_key(t.hash, 0),
                TxOutputView { to_address: address, amount: reward_amount },
            ));
        }
        Ok(ledger)
    }

    /// The number of accepted blocks.
    pub fn height(&self) -> (n: usize)
        ensures
            n == self@.blocks.len(),
    {
        self.blocks.len()
    }

    /// Whether a block with this hash has been accepted.
    pub fn knows_block(&self, hash: &str) -> (known: bool)
        ensures
            known == knows_hash(self@.blocks, hash@),
    {
        for i in 0..self.blocks.len()
            invariant
                forall|j: int| 0 <= j < i ==> (#[trigger] self@.blocks[j]).hash != hash@,
        {
            if string_eq(self.blocks[i].hash.as_str(), hash) {
                assert(self@.blocks[i as int].hash == hash@);
                return true;
            }
        }
        false
    }

    /// The hashes of the accepted blocks, in the order of acceptance.
    pub fn headers(&self) -> (hashes: Vec<String>)
        ensures
            view_all(hashes@) == Seq::new(self@.blocks.len(), |i: int| self@.blocks[i].hash),
    {
        let mut hashes: Vec<String> = Vec::new();
        for i in 0..self.blocks.len()
            invariant
                hashes@.len() == i,
                forall|j: int| 0 <= j < i ==> (#[trigger] hashes@[j])@ == self@.blocks[j].hash,
        {
            hashes.push(self.blocks[i].hash.clone());
        }
        assert(view_all(hashes@) =~= Seq::new(
            self@.blocks.len(),
            |i: int| self@.blocks[i].hash,
        ));
        hashes
    }

    /// Hands a transaction to the mempool, which takes it if it verifies and
    /// its hash does not wait there already.
    pub fn submit_transaction(&mut self, tx: Transaction) -> (outcome: Result<(), RejectReason>)
        requires
            old(self).wf(),
        ensures
            final(self).wf(),
            outcome == submit_outcome(old(self)@.mempool, tx@),
            outcome is Ok ==> final(self)@.mempool == pool_insert(old(self)@.mempool, tx@),
            outcome is Err ==> final(self)@.mempool == old(self)@.mempool,
            final(self)@.blocks == old(self)@.blocks,
            final(self)@.tips == old(self)@.tips,
            final(self)@.difficulty == old(self)@.difficulty,
            final(self)@.utxo == old(self)@.utxo,
    {
        self.mempool.submit(tx)
    }

    /// Whether `block` is valid against the current unspent outputs at the
    /// ledger's difficulty.
    pub fn validate_block(&self, block: &Block) -> (ok: bool)
        ensures
            ok == block_valid(block@, self@.utxo, self@.difficulty),
    {
        validate(block, &self.utxo_set, self.difficulty)
    }

    /// Applies a block without asking whether it is valid: its transactions
    /// change the unspent outputs, its parents leave the tips, its hash
    /// becomes a tip, and it joins the accepted blocks.
    pub fn add_block(&mut self, block: Block)
        ensures
            final(self)@ == with_block(old(self)@, block@),
            final(self).mempool == old(self).mempool,
            final(self)@.utxo.dom().finite(),
    {
        self.utxo_set.apply_transactions(&block.transactions);
        let mut tips = prune_tips(&self.tips, &block.parents);
        let ghost kept = view_all(tips@);
        tips.push(block.hash.clone());
        assert(view_all(tips@) =~= kept.push(block@.hash));
        self.tips = tips;
        let ghost before = view_all(self.blocks@);
        self.blocks.push(block);
        assert(view_all(self.blocks@) =~= before.push(block@));
    }

    /// Validates a block against the current state and, if it is valid,
    /// applies it. A block that is not valid is handed back and nothing
    /// changes.
    pub fn accept_block(&mut self, block: Block) -> (rejected: Option<Block>)
        ensures
            rejected is None <==> block_valid(block@, old(self)@.utxo, old(self)@.difficulty),
            rejected is None ==> final(self)@ == with_block(old(self)@, block@),
            rejected matches Some(b) ==> b == block && final(self)@ == old(self)@,
            final(self).mempool == old(self).mempool,
            ledger_consistent(old(self)@) ==> ledger_consistent(final(self)@),
    {
        if self.validate_block(&block) {
            proof {
                if ledger_consistent(self@) {
                    lemma_accept_keeps_consistent(self@, block@);
                }
            }
            self.add_block(block);
            None
        } else {
            Some(block)
        }
    }

    /// Takes a block that came from a peer: refuses one whose hash is known
    /// already, and else validates and applies it as `accept_block` does.
    pub fn accept_external_block(&mut self, block: Block) -> (verdict: Result<(), BlockRejection>)
        ensures
            verdict == external_verdict(old(self)@, block@),
            verdict is Ok ==> final(self)@ == with_block(old(self)@, block@),
            verdict is Err ==> final(self)@ == old(self)@,
            final(self).mempool == old(self).mempool,
            ledger_consistent(old(self)@) ==> ledger_consistent(final(self)@),
    {
        if self.knows_block(block.hash.as_str()) {
            return Err(BlockRejection::AlreadyKnown);
        }
        match self.accept_block(block) {
            None => Ok(()),
            Some(_) => Err(BlockRejection::Invalid),
        }
    }
}

} // verus!
