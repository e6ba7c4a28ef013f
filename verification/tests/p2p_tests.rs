use astrocore::block::Block;
use astrocore::blockchain::DagBlockchain;
use astrocore::p2p::{handle_message, message_kind, tag_of, Action, Message, MessageKind, PeerSet};
use astrocore::transaction::{Transaction, TxOutput};

const START: i64 = 1_700_000_000;

fn node() -> DagBlockchain {
    DagBlockchain::genesis_at(2, "02aabbcc".to_string(), 1000, START).unwrap()
}

fn mint(amount: u64, fee: u64) -> Transaction {
    let outputs = vec![TxOutput { to_address: "ab".to_string(), amount }];
    Transaction::new(vec![], outputs, fee, "00".to_string()).unwrap()
}

fn peers(ids: &[u64]) -> PeerSet {
    let mut set = PeerSet::new();
    for id in ids {
        set.connect(*id);
    }
    set
}

#[test]
fn tags_name_the_four_kinds() {
    assert_eq!(message_kind("tx"), Some(MessageKind::Tx));
    assert_eq!(message_kind("block"), Some(MessageKind::Block));
    assert_eq!(message_kind("getheaders"), Some(MessageKind::GetHeaders));
    assert_eq!(message_kind("headers"), Some(MessageKind::Headers));
    assert_eq!(message_kind("Tx"), None);
    assert_eq!(message_kind(""), None);
    assert_eq!(message_kind("blocks"), None);
    for kind in
        [MessageKind::Tx, MessageKind::Block, MessageKind::GetHeaders, MessageKind::Headers]
    {
        assert_eq!(message_kind(tag_of(kind)), Some(kind));
    }
    assert_eq!(tag_of(MessageKind::GetHeaders), "getheaders");
}

#[test]
fn mined_block_is_accepted_by_a_peer_and_relayed_once() {
    let mut a = node();
    let mut b = node();
    assert_eq!(a.tips, b.tips);
    a.submit_transaction(mint(5, 1)).unwrap();
    assert_eq!(a.mine_parallel_blocks(1, 10), 1);
    let block = a.blocks[1].clone();
    // B hears of it from A (peer 1) and knows C (peer 2) as well.
    let table = peers(&[1, 2]);
    match handle_message(&mut b, Message::Block(block.clone())) {
        Action::RelayBlock(relayed) => assert_eq!(relayed, block),
        other => panic!("not relayed: {:?}", other),
    }
    assert_eq!(table.relay_targets(1), vec![2]);
    assert_eq!(b.tips, vec![block.hash.clone()]);
    assert_eq!(b.blocks.len(), 2);
    assert_eq!(b.utxo_set.len(), 2);
    // The block comes again, from C: nothing is sent a second time.
    assert!(matches!(handle_message(&mut b, Message::Block(block.clone())), Action::Ignore));
    assert_eq!(b.blocks.len(), 2);
    assert_eq!(b.tips, vec![block.hash]);
}

#[test]
fn block_with_a_corrupted_nonce_is_dropped() {
    let a = node();
    let mut b = node();
    let mut block =
        Block::with_timestamp(1, START + 1, vec![mint(5, 1)], a.tips.clone()).unwrap();
    block.mine(2).unwrap();
    // Another nonce, and the hash that goes with it, which has no zeros.
    while block.hash.starts_with("00") {
        block.nonce += 1;
        block.hash = block.calculate_hash().unwrap();
    }
    let tips = b.tips.clone();
    assert!(matches!(handle_message(&mut b, Message::Block(block.clone())), Action::Ignore));
    assert_eq!(b.tips, tips);
    assert_eq!(b.blocks.len(), 1);
    // Another nonce under the old hash.
    let mut stale =
        Block::with_timestamp(1, START + 1, vec![mint(5, 1)], a.tips.clone()).unwrap();
    stale.mine(2).unwrap();
    stale.nonce += 1;
    assert!(matches!(handle_message(&mut b, Message::Block(stale)), Action::Ignore));
    assert_eq!(b.tips, tips);
    assert_eq!(b.blocks.len(), 1);
    assert_eq!(b.utxo_set.len(), 1);
}

#[test]
fn transaction_is_relayed_when_the_mempool_takes_it() {
    let mut b = node();
    let tx = mint(5, 1);
    match handle_message(&mut b, Message::Tx(tx.clone())) {
        Action::RelayTx(relayed) => assert_eq!(relayed, tx),
        other => panic!("not relayed: {:?}", other),
    }
    assert_eq!(b.mempool.len(), 1);
    assert!(matches!(handle_message(&mut b, Message::Tx(tx.clone())), Action::Ignore));
    let mut forged = mint(6, 1);
    forged.fee = 2;
    assert!(matches!(handle_message(&mut b, Message::Tx(forged)), Action::Ignore));
    assert_eq!(b.mempool.len(), 1);
    assert_eq!(b.blocks.len(), 1);
}

#[test]
fn headers_are_the_hashes_in_order_of_acceptance() {
    let mut a = node();
    a.submit_transaction(mint(5, 2)).unwrap();
    a.submit_transaction(mint(6, 1)).unwrap();
    assert_eq!(a.mine_parallel_blocks(2, 1), 2);
    let expected: Vec<String> = a.blocks.iter().map(|b| b.hash.clone()).collect();
    match handle_message(&mut a, Message::GetHeaders) {
        Action::ReplyHeaders(hashes) => assert_eq!(hashes, expected),
        other => panic!("no headers: {:?}", other),
    }
    assert_eq!(a.blocks.len(), 3);
}

#[test]
fn headers_from_a_peer_change_nothing() {
    let mut a = node();
    let tips = a.tips.clone();
    let action = handle_message(&mut a, Message::Headers(vec!["aa".to_string()]));
    assert!(matches!(action, Action::Ignore));
    assert_eq!(a.tips, tips);
    assert_eq!(a.blocks.len(), 1);
}

#[test]
fn relay_goes_to_all_but_the_sender() {
    let table = peers(&[4, 7, 9]);
    assert_eq!(table.len(), 3);
    assert_eq!(table.everyone(), vec![4, 7, 9]);
    assert_eq!(table.relay_targets(7), vec![4, 9]);
    assert_eq!(table.relay_targets(4), vec![7, 9]);
    assert_eq!(table.relay_targets(5), vec![4, 7, 9]);
    assert!(PeerSet::new().relay_targets(1).is_empty());
}

#[test]
fn failed_peers_are_dropped_after_the_broadcast() {
    let mut table = peers(&[4, 7, 9, 11]);
    table.drop_failed(&vec![1, 3]);
    assert_eq!(table.everyone(), vec![4, 9]);
    table.drop_failed(&vec![]);
    assert_eq!(table.everyone(), vec![4, 9]);
    table.drop_failed(&vec![5, 0, 0]);
    assert_eq!(table.everyone(), vec![9]);
    table.drop_failed(&vec![0]);
    assert_eq!(table.len(), 0);
}
