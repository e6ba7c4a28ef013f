use astrocore::block::{meets_difficulty, Block, MineError};
use astrocore::transaction::{EncodingError, Transaction, TxOutput};
use sha2::{Digest, Sha256};

fn coinbase(amount: u64) -> Transaction {
    let outputs = vec![TxOutput { to_address: "ab01".to_string(), amount }];
    Transaction::new(vec![], outputs, 0, "00".to_string()).unwrap()
}

fn sample_block() -> Block {
    let parents = vec!["bb".to_string(), "aa".to_string()];
    Block::with_timestamp(1, 1_700_000_000, vec![coinbase(7)], parents).unwrap()
}

#[test]
fn block_hash_is_sha256_of_header_sorted_parents_and_tx_hashes() {
    let block = sample_block();
    assert_eq!(block.nonce, 0);
    assert_eq!(block.index, 1);
    assert_eq!(block.timestamp, 1_700_000_000);
    assert_eq!(block.hash, "d8cbec552baeceac957ef3d602b8e15ae8c2fbcb0d71410f7b87cd97c45cd937");
    assert_eq!(block.calculate_hash().unwrap(), block.hash);
    let mut tail = vec![0xaa, 0xbb];
    tail.extend_from_slice(
        &astrocore::hexcode::decode_hex(&block.transactions[0].hash).unwrap(),
    );
    assert_eq!(block.tail_encoding().unwrap(), tail);
}

#[test]
fn negative_timestamp_is_hashed_in_twos_complement() {
    let block = Block::with_timestamp(1, -5, vec![], vec![]).unwrap();
    assert_eq!(block.hash, "cfbf10d29a02e06fd4f753ebebd2467e25a4b553c7998684b8f3c9aeab14c84c");
}

#[test]
fn new_stamps_a_time_and_seals() {
    let block = Block::new(3, vec![coinbase(1)], vec!["aa".to_string()]).unwrap();
    assert!(block.timestamp > 1_600_000_000);
    assert_eq!(block.index, 3);
    assert_eq!(block.nonce, 0);
    assert_eq!(block.parents, vec!["aa".to_string()]);
    assert_eq!(block.hash, block.calculate_hash().unwrap());
}

#[test]
fn parent_order_does_not_change_the_hash() {
    let parents = vec!["0c".to_string(), "0a".to_string(), "0B".to_string(), "0b".to_string()];
    let mut reversed = parents.clone();
    reversed.reverse();
    let a = Block::with_timestamp(5, 99, vec![coinbase(1), coinbase(2)], parents).unwrap();
    let b = Block::with_timestamp(5, 99, vec![coinbase(1), coinbase(2)], reversed).unwrap();
    assert_eq!(a.hash, b.hash);
    // The listed order itself is kept.
    assert_eq!(a.parents[0], "0c");
    assert_eq!(b.parents[0], "0b");
}

#[test]
fn parents_are_sorted_as_text_before_decoding() {
    // As text "0B" < "0a" < "0b", so the tail starts 0b 0a 0b.
    let parents = vec!["0b".to_string(), "0a".to_string(), "0B".to_string()];
    let block = Block::with_timestamp(0, 0, vec![], parents).unwrap();
    assert_eq!(block.tail_encoding().unwrap(), vec![0x0b, 0x0a, 0x0b]);
}

#[test]
fn transaction_order_changes_the_hash() {
    let a = Block::with_timestamp(5, 99, vec![coinbase(1), coinbase(2)], vec![]).unwrap();
    let b = Block::with_timestamp(5, 99, vec![coinbase(2), coinbase(1)], vec![]).unwrap();
    assert_ne!(a.hash, b.hash);
}

#[test]
fn index_timestamp_and_nonce_enter_the_hash() {
    let base = Block::with_timestamp(5, 99, vec![], vec![]).unwrap();
    assert_ne!(Block::with_timestamp(6, 99, vec![], vec![]).unwrap().hash, base.hash);
    assert_ne!(Block::with_timestamp(5, 98, vec![], vec![]).unwrap().hash, base.hash);
    let mut other = base.clone();
    other.nonce = 1;
    assert_ne!(other.calculate_hash().unwrap(), base.hash);
}

#[test]
fn malformed_parent_or_transaction_hash_is_an_error() {
    assert_eq!(
        Block::with_timestamp(0, 0, vec![], vec!["xy".to_string()]),
        Err(EncodingError::NotHex)
    );
    assert_eq!(
        Block::with_timestamp(0, 0, vec![], vec!["abc".to_string()]),
        Err(EncodingError::NotHex)
    );
    let mut tx = coinbase(1);
    tx.hash = "??".to_string();
    assert_eq!(Block::with_timestamp(0, 0, vec![tx.clone()], vec![]), Err(EncodingError::NotHex));
    let mut block = sample_block();
    block.transactions.push(tx);
    assert_eq!(block.calculate_hash(), Err(EncodingError::NotHex));
    assert_eq!(block.tail_encoding(), Err(EncodingError::NotHex));
}

#[test]
fn meets_difficulty_counts_leading_zeros() {
    assert!(meets_difficulty("00ab", 0));
    assert!(meets_difficulty("00ab", 2));
    assert!(!meets_difficulty("00ab", 3));
    assert!(!meets_difficulty("0a0b", 2));
    assert!(meets_difficulty("", 0));
    assert!(!meets_difficulty("", 1));
    assert!(!meets_difficulty("00", 3));
    assert!(meets_difficulty("00é", 2));
}

#[test]
fn mine_finds_the_first_nonce_that_meets_the_difficulty() {
    let mut block = sample_block();
    assert_eq!(block.mine(2), Ok(()));
    assert_eq!(block.nonce, 25);
    assert_eq!(block.hash, "00f78ee5d73c6ffbaf517e1de7170e3442513f8ae453c829c51f983a8906d341");
    assert_eq!(block.calculate_hash().unwrap(), block.hash);
    assert_eq!(block.index, 1);
    assert_eq!(block.timestamp, 1_700_000_000);
    assert_eq!(block.parents, sample_block().parents);
    assert_eq!(block.transactions, sample_block().transactions);
}

#[test]
fn mine_at_difficulty_zero_changes_nothing() {
    let mut block = sample_block();
    assert_eq!(block.mine(0), Ok(()));
    assert_eq!(block, sample_block());
}

#[test]
fn mine_leaves_a_block_that_meets_the_difficulty_alone() {
    let mut block = sample_block();
    block.mine(2).unwrap();
    let mined = block.clone();
    assert_eq!(block.mine(2), Ok(()));
    assert_eq!(block, mined);
    assert_eq!(block.mine(1), Ok(()));
    assert_eq!(block, mined);
}

#[test]
fn mine_does_not_recompute_a_stored_hash_that_meets_the_difficulty() {
    let mut block = sample_block();
    block.hash = "000".to_string();
    assert_eq!(block.mine(3), Ok(()));
    assert_eq!(block.hash, "000");
    assert_eq!(block.nonce, 0);
}

#[test]
fn mine_at_higher_difficulty_goes_on_from_the_current_nonce() {
    let mut block = sample_block();
    block.mine(1).unwrap();
    let first = block.nonce;
    block.mine(3).unwrap();
    assert!(block.nonce >= first);
    assert!(block.hash.starts_with("000"));
    assert_eq!(block.calculate_hash().unwrap(), block.hash);
}

#[test]
fn mine_reports_a_block_that_cannot_be_hashed() {
    let mut block = sample_block();
    block.parents.push("not hex".to_string());
    let before = block.clone();
    assert_eq!(block.mine(1), Err(MineError::Malformed));
    assert_eq!(block, before);
}

#[test]
fn mine_stops_at_the_largest_nonce() {
    let mut block = sample_block();
    block.nonce = u64::MAX - 3;
    block.hash = block.calculate_hash().unwrap();
    assert_eq!(block.mine(64), Err(MineError::Exhausted));
    assert_eq!(block.nonce, u64::MAX);
    assert_eq!(block.calculate_hash().unwrap(), block.hash);
    // Nothing is left to try.
    let at_end = block.clone();
    assert_eq!(block.mine(64), Err(MineError::Exhausted));
    assert_eq!(block, at_end);
}

#[test]
fn summary_names_index_hash_nonce_and_counts() {
    let mut block = sample_block();
    assert_eq!(block.summary(), "Block #1 [Hash: d8cbec55... Nonce: 0 Parents: 2 Txs: 1]");
    block.mine(2).unwrap();
    assert_eq!(block.summary(), "Block #1 [Hash: 00f78ee5... Nonce: 25 Parents: 2 Txs: 1]");
    block.hash = "12345678".to_string();
    assert_eq!(block.summary(), "Block #1 [Hash: n/a... Nonce: 25 Parents: 2 Txs: 1]");
    block.hash = "123456789".to_string();
    block.index = 1234567890123;
    assert_eq!(
        block.summary(),
        "Block #1234567890123 [Hash: 12345678... Nonce: 25 Parents: 2 Txs: 1]"
    );
}

#[test]
fn block_clone_is_equal() {
    let block = sample_block();
    assert_eq!(block.clone(), block);
}

#[test]
fn block_hash_is_what_an_incremental_hasher_gives() {
    let mut block = sample_block();
    block.mine(1).unwrap();
    let mut hasher = Sha256::new();
    hasher.update(block.index.to_le_bytes());
    hasher.update(block.timestamp.to_le_bytes());
    hasher.update(block.nonce.to_le_bytes());
    let mut sorted = block.parents.clone();
    sorted.sort();
    for parent in sorted {
        hasher.update(hex::decode(parent).unwrap());
    }
    for tx in &block.transactions {
        hasher.update(hex::decode(&tx.hash).unwrap());
    }
    assert_eq!(block.hash, hex::encode(hasher.finalize()));
}
