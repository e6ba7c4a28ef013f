use astrocore::hexcode::decode_hex;
use astrocore::mempool::{has_priority, Mempool, RejectReason};
use astrocore::transaction::{create_key_pair, Transaction, TxInput, TxOutput};

fn mint(amount: u64, fee: u64) -> Transaction {
    let outputs = vec![TxOutput { to_address: "ab".to_string(), amount }];
    Transaction::new(vec![], outputs, fee, "00".to_string()).unwrap()
}

fn fees(txs: &[Transaction]) -> Vec<u64> {
    txs.iter().map(|t| t.fee).collect()
}

fn pool_of(list: &[(u64, u64)]) -> Mempool {
    let mut pool = Mempool::new();
    for (amount, fee) in list {
        pool.submit(mint(*amount, *fee)).unwrap();
    }
    pool
}

#[test]
fn empty_pool() {
    let mut pool = Mempool::new();
    assert!(pool.is_empty());
    assert_eq!(pool.len(), 0);
    assert_eq!(pool.fee_total(), 0);
    assert!(pool.drain_top(3).is_empty());
    assert!(pool.get(0).is_none());
}

#[test]
fn drain_top_returns_highest_fees_first() {
    let mut pool = pool_of(&[(1, 50), (2, 30), (3, 100), (4, 70)]);
    assert_eq!(pool.len(), 4);
    assert_eq!(pool.fee_total(), 250);
    let top = pool.drain_top(3);
    assert_eq!(fees(&top), vec![100, 70, 50]);
    assert_eq!(pool.len(), 1);
    assert_eq!(fees(&pool.drain_top(5)), vec![30]);
    assert!(pool.is_empty());
}

#[test]
fn drain_top_zero_takes_nothing() {
    let mut pool = pool_of(&[(1, 50), (2, 30)]);
    assert!(pool.drain_top(0).is_empty());
    assert_eq!(pool.len(), 2);
}

#[test]
fn equal_fees_are_ordered_by_hash() {
    let a = mint(1, 10);
    let b = mint(2, 10);
    let c = mint(3, 10);
    let mut hashes = vec![a.hash.clone(), b.hash.clone(), c.hash.clone()];
    hashes.sort();
    for order in [[&a, &b, &c], [&c, &b, &a], [&b, &a, &c]] {
        let mut pool = Mempool::new();
        for tx in order {
            pool.submit(tx.clone()).unwrap();
        }
        let drained: Vec<String> = pool.drain_top(3).into_iter().map(|t| t.hash).collect();
        assert_eq!(drained, hashes);
    }
}

#[test]
fn order_does_not_depend_on_the_order_of_submission() {
    let list = [(1, 5), (2, 9), (3, 5), (4, 1), (5, 9), (6, 7)];
    let mut reversed = list;
    reversed.reverse();
    let mut first = pool_of(&list);
    let mut second = pool_of(&reversed);
    assert_eq!(first.drain_top(6), second.drain_top(6));
}

#[test]
fn two_drains_of_equal_pools_agree() {
    let list = [(1, 5), (2, 9), (3, 5), (4, 1)];
    let mut first = pool_of(&list);
    let mut second = pool_of(&list);
    assert_eq!(first.drain_top(2), second.drain_top(2));
    assert_eq!(first.drain_top(2), second.drain_top(2));
}

#[test]
fn get_reads_by_priority() {
    let pool = pool_of(&[(1, 50), (2, 30), (3, 100)]);
    assert_eq!(pool.get(0).unwrap().fee, 100);
    assert_eq!(pool.get(0).unwrap().tx.fee, 100);
    assert_eq!(pool.get(1).unwrap().fee, 50);
    assert_eq!(pool.get(2).unwrap().tx, mint(2, 30));
    assert!(pool.get(3).is_none());
}

#[test]
fn submit_rejects_a_transaction_that_does_not_verify() {
    let mut pool = Mempool::new();
    let mut tampered = mint(1, 5);
    tampered.outputs[0].amount = 2;
    assert_eq!(pool.submit(tampered), Err(RejectReason::InvalidTransaction));
    let (_, public) = create_key_pair();
    let inputs =
        vec![TxInput { prev_tx_hash: "aa".to_string(), output_index: 0, signature: vec![] }];
    let unsigned = Transaction::new(inputs, vec![], 5, public).unwrap();
    assert_eq!(pool.submit(unsigned), Err(RejectReason::InvalidTransaction));
    assert!(pool.is_empty());
}

#[test]
fn submit_accepts_a_signed_transaction() {
    let mut pool = Mempool::new();
    let (secret, public) = create_key_pair();
    let inputs =
        vec![TxInput { prev_tx_hash: "aa".to_string(), output_index: 0, signature: vec![] }];
    let mut tx = Transaction::new(inputs, vec![], 5, public).unwrap();
    tx.sign(&decode_hex(&secret).unwrap()).unwrap();
    assert_eq!(pool.submit(tx.clone()), Ok(()));
    assert!(pool.contains_hash(&tx.hash));
    assert_eq!(pool.get(0).unwrap().tx, tx);
}

#[test]
fn submit_rejects_a_hash_that_waits_already() {
    let mut pool = pool_of(&[(1, 50), (2, 30)]);
    assert_eq!(pool.submit(mint(1, 50)), Err(RejectReason::Duplicate));
    assert_eq!(pool.len(), 2);
    assert_eq!(fees(&pool.drain_top(2)), vec![50, 30]);
}

#[test]
fn invalid_is_reported_before_duplicate() {
    let mut pool = pool_of(&[(1, 50)]);
    let mut tampered = mint(1, 50);
    tampered.fee = 60;
    assert_eq!(pool.submit(tampered), Err(RejectReason::InvalidTransaction));
}

#[test]
fn contains_hash_finds_what_waits() {
    let pool = pool_of(&[(1, 50)]);
    assert!(pool.contains_hash(&mint(1, 50).hash));
    assert!(!pool.contains_hash(&mint(2, 50).hash));
    assert!(!pool.contains_hash(""));
}

#[test]
fn requeue_puts_transactions_back_in_their_place() {
    let mut pool = pool_of(&[(1, 50), (2, 30), (3, 100), (4, 70)]);
    let before = pool_of(&[(1, 50), (2, 30), (3, 100), (4, 70)]).drain_top(4);
    let taken = pool.drain_top(2);
    assert_eq!(fees(&taken), vec![100, 70]);
    pool.requeue(&taken);
    assert_eq!(pool.len(), 4);
    assert_eq!(pool.drain_top(4), before);
}

#[test]
fn requeue_drops_what_waits_again() {
    let mut pool = pool_of(&[(1, 50), (2, 30)]);
    pool.requeue(&vec![mint(1, 50), mint(3, 40), mint(3, 40)]);
    assert_eq!(fees(&pool.drain_top(10)), vec![50, 40, 30]);
}

#[test]
fn has_priority_compares_fee_then_hash() {
    let a = mint(1, 10);
    let b = mint(2, 10);
    let high = mint(3, 11);
    assert!(has_priority(&high, &a));
    assert!(!has_priority(&a, &high));
    assert!(!has_priority(&a, &a));
    assert_eq!(has_priority(&a, &b), a.hash < b.hash);
    assert_eq!(has_priority(&b, &a), b.hash < a.hash);
}

#[test]
fn fee_total_does_not_overflow_u64() {
    let pool = pool_of(&[(1, u64::MAX), (2, u64::MAX), (3, 5)]);
    assert_eq!(pool.fee_total(), 2 * (u64::MAX as u128) + 5);
}

#[test]
fn reasons_in_words() {
    assert_eq!(
        RejectReason::InvalidTransaction.message(),
        "Invalid transaction signature or hash"
    );
    assert_eq!(RejectReason::Duplicate.message(), "Transaction is already in the mempool");
}

#[test]
fn entries_are_ranked_by_their_own_fee() {
    let pool = pool_of(&[(1, 50), (2, 30), (3, 100)]);
    for position in 0..pool.len() {
        let entry = pool.get(position).unwrap();
        assert_eq!(entry.fee, entry.tx.fee);
    }
}
