use astrocore::block::{Block, MineError};
use astrocore::blockchain::{BlockRejection, DagBlockchain, GenesisError, GENESIS_REWARD};
use astrocore::hexcode::decode_hex;
use astrocore::mempool::RejectReason;
use astrocore::mining::{mine_block, Mined};
use astrocore::transaction::{create_key_pair, Transaction, TxInput, TxOutput};
use astrocore::utxo::{output_key, UtxoSet};
use astrocore::validation::validate;

const ADDRESS: &str = "02aabbcc";
const START: i64 = 1_700_000_000;

fn ledger(reward: u64) -> DagBlockchain {
    DagBlockchain::genesis_at(2, ADDRESS.to_string(), reward, START).unwrap()
}

fn mint(amount: u64, fee: u64) -> Transaction {
    let outputs = vec![TxOutput { to_address: "ab".to_string(), amount }];
    Transaction::new(vec![], outputs, fee, "00".to_string()).unwrap()
}

/// A signed transaction that spends the given outputs and creates outputs
/// of the given amounts.
fn spend(from: &[(&str, usize)], amounts: &[u64], fee: u64) -> Transaction {
    let (secret, public) = create_key_pair();
    let inputs = from
        .iter()
        .map(|(hash, index)| TxInput {
            prev_tx_hash: hash.to_string(),
            output_index: *index,
            signature: vec![],
        })
        .collect();
    let outputs =
        amounts.iter().map(|a| TxOutput { to_address: "cd".to_string(), amount: *a }).collect();
    let mut tx = Transaction::new(inputs, outputs, fee, public).unwrap();
    tx.sign(&decode_hex(&secret).unwrap()).unwrap();
    assert!(tx.verify());
    tx
}

fn mined_on(chain: &DagBlockchain, txs: Vec<Transaction>) -> Block {
    let mut block =
        Block::with_timestamp(chain.blocks.len() as u64, START + 1, txs, chain.tips.clone())
            .unwrap();
    block.mine(chain.difficulty).unwrap();
    block
}

fn coinbase_hash(chain: &DagBlockchain) -> String {
    chain.blocks[0].transactions[0].hash.clone()
}

fn utxo_total(chain: &DagBlockchain, keys: &[String]) -> u64 {
    assert_eq!(chain.utxo_set.len(), keys.len());
    keys.iter().map(|k| chain.utxo_set.get(k).unwrap().amount).sum()
}

#[test]
fn genesis_has_one_block_one_tip_and_one_unspent_output() {
    let chain = ledger(1000);
    assert_eq!(chain.difficulty, 2);
    assert_eq!(chain.blocks.len(), 1);
    assert_eq!(chain.height(), 1);
    let genesis = &chain.blocks[0];
    assert_eq!(genesis.index, 0);
    assert_eq!(genesis.timestamp, START);
    assert!(genesis.parents.is_empty());
    assert!(genesis.hash.starts_with("00"));
    assert_eq!(genesis.calculate_hash().unwrap(), genesis.hash);
    assert_eq!(chain.tips, vec![genesis.hash.clone()]);
    assert_eq!(genesis.transactions.len(), 1);
    let minted = &genesis.transactions[0];
    assert!(minted.inputs.is_empty());
    assert_eq!(minted.outputs, vec![TxOutput { to_address: ADDRESS.to_string(), amount: 1000 }]);
    assert_eq!(minted.fee, 0);
    assert_eq!(minted.sender_public_key, "00".repeat(33));
    assert!(minted.verify());
    assert_eq!(chain.utxo_set.len(), 1);
    let key = format!("{}:0", minted.hash);
    assert!(chain.utxo_set.contains_key(&key));
    assert_eq!(chain.utxo_set.get(&key), Some(&minted.outputs[0]));
    assert!(chain.mempool.is_empty());
}

#[test]
fn genesis_is_determined_by_its_arguments() {
    let a = ledger(1000);
    let b = ledger(1000);
    assert_eq!(a.blocks, b.blocks);
    assert_eq!(a.tips, b.tips);
    assert_ne!(ledger(1001).blocks[0].hash, a.blocks[0].hash);
}

#[test]
fn genesis_rejects_an_address_that_is_not_hex() {
    assert_eq!(
        DagBlockchain::genesis_at(1, "not hex".to_string(), 5, START).err(),
        Some(GenesisError::BadAddress)
    );
    assert_eq!(
        DagBlockchain::genesis(1, "abc".to_string(), 5).err(),
        Some(GenesisError::BadAddress)
    );
}

#[test]
fn genesis_with_the_clock() {
    let chain = DagBlockchain::genesis(1, ADDRESS.to_string(), 5).unwrap();
    assert!(chain.blocks[0].timestamp > 1_600_000_000);
    assert!(chain.blocks[0].hash.starts_with('0'));
    assert_eq!(chain.tips, vec![chain.blocks[0].hash.clone()]);
    assert_eq!(chain.utxo_set.len(), 1);
}

#[test]
fn new_rewards_the_fixed_key() {
    let chain = DagBlockchain::new(2).unwrap();
    let minted = &chain.blocks[0].transactions[0];
    assert_eq!(GENESIS_REWARD, 50_000_000);
    assert_eq!(minted.outputs[0].amount, 50_000_000);
    assert_eq!(
        minted.outputs[0].to_address,
        "0479be667ef9dcbbac55a06295ce870b07029bfcdb2dce28d959f2815b16f81798483ada7726a3c4655da4fbfc0e1108a8fd17b448a68554199c47d08ffb10d4b8"
    );
    assert_eq!(chain.tips, vec![chain.blocks[0].hash.clone()]);
    assert!(chain.blocks[0].hash.starts_with("00"));
    assert!(chain.utxo_set.contains_key(&format!("{}:0", minted.hash)));
    assert_eq!(chain.utxo_set.len(), 1);
}

#[test]
fn output_key_is_hash_colon_index() {
    assert_eq!(output_key("abc", 0), "abc:0");
    assert_eq!(output_key("abc", 7), "abc:7");
    assert_eq!(output_key("abc", 10), "abc:10");
    assert_eq!(output_key("", 1234567890), ":1234567890");
}

#[test]
fn utxo_set_records_and_forgets() {
    let mut set = UtxoSet::new();
    assert_eq!(set.len(), 0);
    set.insert("k:0".to_string(), TxOutput { to_address: "aa".to_string(), amount: 1 });
    set.insert("k:1".to_string(), TxOutput { to_address: "aa".to_string(), amount: 2 });
    set.insert("k:1".to_string(), TxOutput { to_address: "aa".to_string(), amount: 3 });
    assert_eq!(set.len(), 2);
    assert_eq!(set.get("k:1").unwrap().amount, 3);
    set.remove("k:0");
    set.remove("absent");
    assert_eq!(set.len(), 1);
    assert!(!set.contains_key("k:0"));
    assert!(set.get("k:0").is_none());
}

#[test]
fn apply_transaction_removes_inputs_then_records_outputs() {
    let mut set = UtxoSet::new();
    set.insert("aa:0".to_string(), TxOutput { to_address: "aa".to_string(), amount: 10 });
    set.insert("aa:1".to_string(), TxOutput { to_address: "aa".to_string(), amount: 20 });
    let tx = spend(&[("aa", 1)], &[5, 15], 0);
    set.apply_transaction(&tx);
    assert_eq!(set.len(), 3);
    assert!(set.contains_key("aa:0"));
    assert!(!set.contains_key("aa:1"));
    assert_eq!(set.get(&format!("{}:0", tx.hash)).unwrap().amount, 5);
    assert_eq!(set.get(&format!("{}:1", tx.hash)).unwrap().amount, 15);
}

#[test]
fn valid_block_is_accepted_and_applied() {
    let mut chain = ledger(1000);
    let genesis_hash = chain.tips[0].clone();
    let tx = spend(&[(&coinbase_hash(&chain), 0)], &[600, 400], 0);
    let block = mined_on(&chain, vec![tx.clone()]);
    assert!(chain.validate_block(&block));
    assert!(validate(&block, &chain.utxo_set, 2));
    assert!(chain.accept_block(block.clone()).is_none());
    assert_eq!(chain.blocks.len(), 2);
    assert_eq!(chain.blocks[1], block);
    assert_eq!(chain.tips, vec![block.hash.clone()]);
    assert!(!chain.tips.contains(&genesis_hash));
    assert_eq!(chain.utxo_set.len(), 2);
    assert!(!chain.utxo_set.contains_key(&format!("{}:0", coinbase_hash(&chain))));
    assert_eq!(chain.utxo_set.get(&format!("{}:0", tx.hash)).unwrap().amount, 600);
    assert_eq!(chain.utxo_set.get(&format!("{}:1", tx.hash)).unwrap().amount, 400);
}

#[test]
fn value_is_conserved_when_transactions_balance() {
    let mut chain = ledger(1000);
    let first = spend(&[(&coinbase_hash(&chain), 0)], &[600, 400], 0);
    let block = mined_on(&chain, vec![first.clone()]);
    assert!(chain.accept_block(block).is_none());
    let keys = vec![output_key(&first.hash, 0), output_key(&first.hash, 1)];
    assert_eq!(utxo_total(&chain, &keys), 1000);
    let second = spend(&[(&first.hash, 0), (&first.hash, 1)], &[1, 999], 0);
    let third = mint(50, 0);
    let block = mined_on(&chain, vec![second.clone(), third.clone()]);
    assert!(chain.accept_block(block).is_none());
    let keys =
        vec![output_key(&second.hash, 0), output_key(&second.hash, 1), output_key(&third.hash, 0)];
    // 1000 from the first block and 50 minted since.
    assert_eq!(utxo_total(&chain, &keys), 1050);
}

#[test]
fn block_below_difficulty_is_rejected() {
    let mut chain = ledger(1000);
    let mut block =
        Block::with_timestamp(1, START + 1, vec![mint(1, 0)], chain.tips.clone()).unwrap();
    while block.hash.starts_with("00") {
        block.nonce += 1;
        block.hash = block.calculate_hash().unwrap();
    }
    assert!(!chain.validate_block(&block));
    let before_tips = chain.tips.clone();
    assert_eq!(chain.accept_block(block.clone()), Some(block));
    assert_eq!(chain.tips, before_tips);
    assert_eq!(chain.blocks.len(), 1);
    assert_eq!(chain.utxo_set.len(), 1);
}

#[test]
fn block_with_a_stale_hash_is_rejected() {
    let chain = ledger(1000);
    let mut block = mined_on(&chain, vec![mint(1, 0)]);
    assert!(chain.validate_block(&block));
    block.nonce += 1;
    assert!(!chain.validate_block(&block));
    let mut reindexed = mined_on(&chain, vec![mint(1, 0)]);
    reindexed.index += 1;
    assert!(!chain.validate_block(&reindexed));
    let mut reparented = mined_on(&chain, vec![mint(1, 0)]);
    reparented.parents.push("aa".to_string());
    assert!(!chain.validate_block(&reparented));
}

#[test]
fn block_that_cannot_be_hashed_is_rejected() {
    let chain = ledger(1000);
    let mut block = mined_on(&chain, vec![mint(1, 0)]);
    block.parents = vec!["zz".to_string()];
    assert!(!chain.validate_block(&block));
}

#[test]
fn block_with_a_transaction_that_does_not_verify_is_rejected() {
    let chain = ledger(1000);
    let mut tx = spend(&[(&coinbase_hash(&chain), 0)], &[1000], 0);
    tx.inputs[0].signature = vec![0x30, 0x00];
    let block = mined_on(&chain, vec![mint(1, 0), tx]);
    assert!(!chain.validate_block(&block));
}

#[test]
fn block_that_spends_an_absent_output_is_rejected() {
    let chain = ledger(1000);
    let wrong_index = spend(&[(&coinbase_hash(&chain), 1)], &[1000], 0);
    assert!(!chain.validate_block(&mined_on(&chain, vec![wrong_index])));
    let wrong_hash = spend(&[("aabb", 0)], &[1000], 0);
    assert!(!chain.validate_block(&mined_on(&chain, vec![wrong_hash])));
    // The same bytes in another case are another key.
    let upper = spend(&[(&coinbase_hash(&chain).to_uppercase(), 0)], &[1000], 0);
    assert!(!chain.validate_block(&mined_on(&chain, vec![upper])));
}

#[test]
fn block_that_spends_an_output_twice_is_rejected() {
    let chain = ledger(1000);
    let hash = coinbase_hash(&chain);
    let a = spend(&[(&hash, 0)], &[1000], 1);
    let b = spend(&[(&hash, 0)], &[1000], 2);
    assert!(chain.validate_block(&mined_on(&chain, vec![a.clone()])));
    assert!(chain.validate_block(&mined_on(&chain, vec![b.clone()])));
    assert!(!chain.validate_block(&mined_on(&chain, vec![a, b])));
    let twice = spend(&[(&hash, 0), (&hash, 0)], &[1000], 0);
    assert!(!chain.validate_block(&mined_on(&chain, vec![twice])));
}

#[test]
fn output_created_in_a_block_cannot_be_spent_in_it() {
    let chain = ledger(1000);
    let first = spend(&[(&coinbase_hash(&chain), 0)], &[1000], 0);
    let second = spend(&[(&first.hash, 0)], &[1000], 0);
    assert!(!chain.validate_block(&mined_on(&chain, vec![first, second])));
}

#[test]
fn spent_output_cannot_be_spent_by_a_later_block() {
    let mut chain = ledger(1000);
    let hash = coinbase_hash(&chain);
    let a = spend(&[(&hash, 0)], &[1000], 0);
    let b = spend(&[(&hash, 0)], &[1000], 0);
    let first = mined_on(&chain, vec![a]);
    let sibling = mined_on(&chain, vec![b.clone()]);
    assert!(chain.validate_block(&sibling));
    assert!(chain.accept_block(first).is_none());
    // The sibling was valid before; it is not valid now.
    assert_eq!(chain.accept_block(sibling.clone()), Some(sibling));
    let later = mined_on(&chain, vec![b]);
    assert!(chain.accept_block(later).is_some());
    assert_eq!(chain.blocks.len(), 2);
    assert_eq!(chain.utxo_set.len(), 1);
}

#[test]
fn tips_lose_every_parent_and_gain_the_block() {
    let mut chain = ledger(1000);
    let genesis = chain.tips[0].clone();
    let a = mined_on(&chain, vec![mint(1, 0)]);
    let b = mined_on(&chain, vec![mint(2, 0)]);
    chain.add_block(a.clone());
    assert_eq!(chain.tips, vec![a.hash.clone()]);
    // A sibling on the same parent: the parent is gone already, both stay.
    chain.add_block(b.clone());
    assert_eq!(chain.tips, vec![a.hash.clone(), b.hash.clone()]);
    let merge = mined_on(&chain, vec![mint(3, 0)]);
    assert_eq!(merge.parents, vec![a.hash.clone(), b.hash.clone()]);
    assert!(chain.accept_block(merge.clone()).is_none());
    assert_eq!(chain.tips, vec![merge.hash.clone()]);
    assert_eq!(chain.headers(), vec![genesis, a.hash, b.hash, merge.hash]);
}

#[test]
fn add_block_does_not_validate() {
    let mut chain = ledger(1000);
    let mut block =
        Block::with_timestamp(9, 0, vec![mint(5, 0)], vec!["aa".to_string()]).unwrap();
    block.hash = "ff".to_string();
    chain.add_block(block);
    assert_eq!(chain.blocks.len(), 2);
    assert_eq!(chain.tips, vec![chain.blocks[0].hash.clone(), "ff".to_string()]);
    assert_eq!(chain.utxo_set.len(), 2);
}

#[test]
fn external_block_is_accepted_once() {
    let mut chain = ledger(1000);
    let block = mined_on(&chain, vec![mint(1, 0)]);
    assert!(!chain.knows_block(&block.hash));
    assert_eq!(chain.accept_external_block(block.clone()), Ok(()));
    assert!(chain.knows_block(&block.hash));
    assert_eq!(chain.accept_external_block(block.clone()), Err(BlockRejection::AlreadyKnown));
    assert_eq!(chain.blocks.len(), 2);
    assert_eq!(chain.tips, vec![block.hash]);
}

#[test]
fn external_block_that_is_not_valid_is_refused() {
    let mut chain = ledger(1000);
    let mut block = mined_on(&chain, vec![mint(1, 0)]);
    block.nonce += 1;
    let tips = chain.tips.clone();
    assert_eq!(chain.accept_external_block(block), Err(BlockRejection::Invalid));
    assert_eq!(chain.tips, tips);
    assert_eq!(chain.blocks.len(), 1);
    assert_eq!(chain.utxo_set.len(), 1);
}

#[test]
fn known_hash_is_reported_before_validity() {
    let mut chain = ledger(1000);
    let mut block = mined_on(&chain, vec![mint(1, 0)]);
    block.hash = chain.blocks[0].hash.clone();
    assert_eq!(chain.accept_external_block(block), Err(BlockRejection::AlreadyKnown));
}

#[test]
fn submit_transaction_fills_the_mempool() {
    let mut chain = ledger(1000);
    let tx = spend(&[(&coinbase_hash(&chain), 0)], &[1000], 5);
    assert_eq!(chain.submit_transaction(tx.clone()), Ok(()));
    assert_eq!(chain.submit_transaction(tx.clone()), Err(RejectReason::Duplicate));
    let mut forged = tx.clone();
    forged.outputs[0].amount = 2000;
    assert_eq!(chain.submit_transaction(forged), Err(RejectReason::InvalidTransaction));
    assert_eq!(chain.mempool.len(), 1);
    assert_eq!(chain.blocks.len(), 1);
}

#[test]
fn highest_fee_is_mined_first_and_double_spends_stay_queued() {
    let mut chain = ledger(1000);
    let hash = coinbase_hash(&chain);
    let f50 = spend(&[(&hash, 0)], &[1000], 50);
    let f30 = spend(&[(&hash, 0)], &[1000], 30);
    let f100 = spend(&[(&hash, 0)], &[1000], 100);
    for tx in [&f50, &f30, &f100] {
        chain.submit_transaction(tx.clone()).unwrap();
    }
    assert_eq!(chain.mine_parallel_blocks(1, 1), 1);
    assert_eq!(chain.blocks.len(), 2);
    assert_eq!(chain.blocks[1].transactions, vec![f100.clone()]);
    assert_eq!(chain.blocks[1].index, 1);
    assert_eq!(chain.blocks[1].parents, vec![chain.blocks[0].hash.clone()]);
    assert!(chain.blocks[1].hash.starts_with("00"));
    assert_eq!(chain.tips, vec![chain.blocks[1].hash.clone()]);
    assert_eq!(chain.mempool.len(), 2);
    assert!(chain.mempool.contains_hash(&f50.hash));
    assert!(chain.mempool.contains_hash(&f30.hash));
    assert!(chain.utxo_set.contains_key(&format!("{}:0", f100.hash)));
    assert!(!chain.utxo_set.contains_key(&format!("{}:0", hash)));
    // The next round mines the fee-50 transaction, which spends an output
    // that is gone: the block is dropped and the transaction waits again.
    assert_eq!(chain.mine_parallel_blocks(1, 1), 0);
    assert_eq!(chain.blocks.len(), 2);
    assert_eq!(chain.mempool.len(), 2);
    assert_eq!(chain.mempool.get(0).unwrap().tx, f50);
    assert_eq!(chain.mempool.get(1).unwrap().tx, f30);
}

#[test]
fn siblings_share_the_parents_and_count_up() {
    let mut chain = ledger(1000);
    let genesis = chain.tips.clone();
    for fee in [5, 4, 3, 2, 1] {
        chain.submit_transaction(mint(fee, fee)).unwrap();
    }
    assert_eq!(chain.mine_parallel_blocks(2, 2), 2);
    assert_eq!(chain.blocks.len(), 3);
    let fees = |b: &Block| b.transactions.iter().map(|t| t.fee).collect::<Vec<u64>>();
    assert_eq!(fees(&chain.blocks[1]), vec![5, 4]);
    assert_eq!(fees(&chain.blocks[2]), vec![3, 2]);
    assert_eq!(chain.blocks[1].index, 1);
    assert_eq!(chain.blocks[2].index, 2);
    assert_eq!(chain.blocks[1].parents, genesis);
    assert_eq!(chain.blocks[2].parents, genesis);
    assert_eq!(chain.blocks[1].timestamp, chain.blocks[2].timestamp);
    for block in &chain.blocks {
        assert!(block.hash.starts_with("00"));
        assert_eq!(block.calculate_hash().unwrap(), block.hash);
    }
    assert_eq!(chain.tips, vec![chain.blocks[1].hash.clone(), chain.blocks[2].hash.clone()]);
    assert_eq!(chain.mempool.len(), 1);
    assert_eq!(chain.mempool.get(0).unwrap().fee, 1);
    assert_eq!(chain.utxo_set.len(), 5);
}

#[test]
fn short_and_missing_batches_make_no_empty_blocks() {
    let mut chain = ledger(1000);
    for fee in [5, 4, 3] {
        chain.submit_transaction(mint(fee, fee)).unwrap();
    }
    assert_eq!(chain.mine_parallel_blocks(4, 2), 2);
    assert_eq!(chain.blocks.len(), 3);
    assert_eq!(chain.blocks[1].transactions.len(), 2);
    assert_eq!(chain.blocks[2].transactions.len(), 1);
    assert!(chain.mempool.is_empty());
    assert_eq!(chain.mine_parallel_blocks(4, 2), 0);
    assert_eq!(chain.blocks.len(), 3);
}

#[test]
fn nothing_is_mined_with_zero_blocks_or_zero_transactions() {
    let mut chain = ledger(1000);
    chain.submit_transaction(mint(5, 5)).unwrap();
    assert_eq!(chain.mine_parallel_blocks(0, 3), 0);
    assert_eq!(chain.mine_parallel_blocks(3, 0), 0);
    assert_eq!(chain.blocks.len(), 1);
    assert_eq!(chain.mempool.len(), 1);
}

#[test]
fn nothing_is_mined_on_a_tip_that_is_not_hex() {
    let mut chain = ledger(1000);
    chain.submit_transaction(mint(5, 5)).unwrap();
    chain.tips.push("not hex".to_string());
    assert_eq!(chain.mine_parallel_blocks(1, 1), 0);
    assert_eq!(chain.blocks.len(), 1);
    assert_eq!(chain.mempool.len(), 1);
    assert_eq!(chain.tips.len(), 2);
}

#[test]
fn select_batches_takes_the_top_in_groups() {
    let mut chain = ledger(1000);
    for fee in [5, 4, 3, 2, 1] {
        chain.submit_transaction(mint(fee, fee)).unwrap();
    }
    let groups = chain.select_batches(2, 2);
    let fees: Vec<Vec<u64>> =
        groups.iter().map(|g| g.iter().map(|t| t.fee).collect()).collect();
    assert_eq!(fees, vec![vec![5, 4], vec![3, 2]]);
    assert_eq!(chain.mempool.len(), 1);
    let rest = chain.select_batches(3, 4);
    assert_eq!(rest.len(), 1);
    assert_eq!(rest[0].len(), 1);
    assert!(chain.select_batches(3, 4).is_empty());
}

#[test]
fn mine_block_reports_the_outcome() {
    let chain = ledger(1000);
    let candidate =
        Block::with_timestamp(1, START + 1, vec![mint(1, 0)], chain.tips.clone()).unwrap();
    let done = mine_block(candidate.clone(), 2);
    assert_eq!(done.outcome, Ok(()));
    assert!(done.block.hash.starts_with("00"));
    assert_eq!(done.block.transactions, candidate.transactions);
    let mut broken = candidate.clone();
    broken.parents = vec!["zz".to_string()];
    let done = mine_block(broken.clone(), 2);
    assert_eq!(done.outcome, Err(MineError::Malformed));
    assert_eq!(done.block, broken);
}

#[test]
fn settle_accepts_valid_blocks_and_requeues_the_rest() {
    let mut chain = ledger(1000);
    let hash = coinbase_hash(&chain);
    let a = spend(&[(&hash, 0)], &[1000], 9);
    let b = spend(&[(&hash, 0)], &[1000], 8);
    let c = mint(3, 7);
    let first = mine_block(
        Block::with_timestamp(1, START, vec![a.clone()], chain.tips.clone()).unwrap(),
        2,
    );
    let second = mine_block(
        Block::with_timestamp(2, START, vec![b.clone()], chain.tips.clone()).unwrap(),
        2,
    );
    let mut unmined =
        Block::with_timestamp(3, START, vec![c.clone()], chain.tips.clone()).unwrap();
    while unmined.hash.starts_with("00") {
        unmined.timestamp += 1;
        unmined.hash = unmined.calculate_hash().unwrap();
    }
    let third = Mined { block: unmined, outcome: Err(MineError::Exhausted) };
    assert_eq!(chain.settle_mined(vec![first, second, third]), 1);
    assert_eq!(chain.blocks.len(), 2);
    assert_eq!(chain.blocks[1].transactions, vec![a]);
    assert_eq!(chain.mempool.len(), 2);
    assert_eq!(chain.mempool.get(0).unwrap().tx, b);
    assert_eq!(chain.mempool.get(1).unwrap().tx, c);
}

#[test]
fn a_ledger_is_always_made_at_difficulty_zero() {
    let chain = DagBlockchain::new(0).unwrap();
    assert_eq!(chain.blocks.len(), 1);
    assert_eq!(chain.blocks[0].nonce, 0);
    assert_eq!(chain.tips, vec![chain.blocks[0].hash.clone()]);
    let chain = DagBlockchain::genesis(0, ADDRESS.to_string(), 7).unwrap();
    assert_eq!(chain.blocks[0].nonce, 0);
    assert_eq!(chain.blocks[0].transactions[0].outputs[0].amount, 7);
    assert_eq!(chain.utxo_set.len(), 1);
    assert_eq!(
        DagBlockchain::genesis(0, "xyz".to_string(), 7).err(),
        Some(GenesisError::BadAddress)
    );
}

#[test]
fn of_two_siblings_that_spend_one_output_only_the_first_is_accepted() {
    let mut chain = ledger(1000);
    let hash = coinbase_hash(&chain);
    let key = output_key(&hash, 0);
    let t1 = spend(&[(&hash, 0)], &[1000], 9);
    let t2 = spend(&[(&hash, 0)], &[1000], 1);
    chain.submit_transaction(t2.clone()).unwrap();
    chain.submit_transaction(t1.clone()).unwrap();
    let height = chain.blocks.len();
    assert_eq!(chain.mine_parallel_blocks(2, 1), 1);
    assert_eq!(chain.blocks.len(), height + 1);
    assert_eq!(chain.blocks[height].transactions, vec![t1.clone()]);
    assert!(!chain.utxo_set.contains_key(&key));
    assert!(chain.utxo_set.contains_key(&output_key(&t1.hash, 0)));
    assert!(!chain.utxo_set.contains_key(&output_key(&t2.hash, 0)));
    assert!(chain.blocks.iter().all(|b| !b.transactions.contains(&t2)));
    assert_eq!(chain.mempool.len(), 1);
    assert_eq!(chain.mempool.get(0).unwrap().tx, t2);
    assert_eq!(chain.utxo_set.len(), 1);
}

#[test]
fn an_accepted_round_moves_the_top_of_the_pool_into_blocks() {
    let mut chain = ledger(1000);
    let fees = [8u64, 3, 9, 1, 7, 5, 2];
    for fee in fees {
        chain.submit_transaction(mint(fee, fee)).unwrap();
    }
    let mut pool = Vec::new();
    for position in 0..chain.mempool.len() {
        pool.push(chain.mempool.get(position).unwrap().tx.clone());
    }
    let height = chain.blocks.len();
    assert_eq!(chain.mine_parallel_blocks(2, 3), 2);
    let mut moved: Vec<Transaction> = Vec::new();
    for block in &chain.blocks[height..] {
        moved.extend(block.transactions.iter().cloned());
    }
    assert_eq!(moved.len(), 6);
    let moved_fees: Vec<u64> = moved.iter().map(|t| t.fee).collect();
    assert_eq!(moved_fees, vec![9, 8, 7, 5, 3, 2]);
    let mut rest = Vec::new();
    for position in 0..chain.mempool.len() {
        rest.push(chain.mempool.get(position).unwrap().tx.clone());
    }
    assert_eq!(rest.len(), 1);
    assert_eq!(rest[0].fee, 1);
    moved.extend(rest);
    assert_eq!(moved, pool);
}

#[test]
fn a_refused_block_leaves_the_pool_as_it_was() {
    let mut chain = ledger(1000);
    let absent = spend(&[("aabb", 0)], &[5], 9);
    for tx in [mint(1, 4), absent.clone(), mint(2, 6), mint(3, 2)] {
        chain.submit_transaction(tx).unwrap();
    }
    let mut pool = Vec::new();
    for position in 0..chain.mempool.len() {
        pool.push(chain.mempool.get(position).unwrap().tx.clone());
    }
    // The block of the two highest fees spends an output that is not there.
    assert_eq!(chain.mine_parallel_blocks(1, 2), 0);
    assert_eq!(chain.blocks.len(), 1);
    let mut after = Vec::new();
    for position in 0..chain.mempool.len() {
        after.push(chain.mempool.get(position).unwrap().tx.clone());
    }
    assert_eq!(after, pool);
    assert_eq!(after[0], absent);
}
