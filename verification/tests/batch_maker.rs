use leaderless_consensus::batch_maker::{make_batch_id, BatchMaker};
use leaderless_consensus::messages::{Block, Transaction};
use leaderless_consensus::types::Digest;

fn transaction(id: &[u8], payload: usize) -> Transaction {
    Transaction {
        id: id.to_vec(),
        payload: vec![7u8; payload],
        signature: vec![1, 2, 3],
        balance: vec![4, 5],
        representative: vec![6],
    }
}

#[test]
fn a_short_id_is_filled_up_with_zeros() {
    let mut expected = [0u8; 32];
    expected[0] = 9;
    expected[1] = 8;
    expected[2] = 7;
    assert!(make_batch_id(&vec![9, 8, 7]) == Digest::new(expected));
    assert!(make_batch_id(&vec![]) == Digest::zero());
}

#[test]
fn a_long_id_is_cut_to_32_bytes() {
    let id: Vec<u8> = (1..=40).collect();
    let mut expected = [0u8; 32];
    for i in 0..32 {
        expected[i] = i as u8 + 1;
    }
    assert!(make_batch_id(&id) == Digest::new(expected));
    let exact: Vec<u8> = (1..=32).collect();
    assert!(make_batch_id(&exact) == Digest::new(expected));
}

#[test]
fn the_size_of_a_batch_counts_32_bytes_for_each_transaction() {
    let mut maker = BatchMaker::new(1000);
    assert_eq!(maker.size(), 0);
    assert!(maker.push(transaction(&[1], 100)).is_none());
    assert_eq!(maker.size(), 132);
    assert!(maker.push(transaction(&[2], 0)).is_none());
    assert_eq!(maker.size(), 164);
    assert_eq!(maker.len(), 2);
}

#[test]
fn a_batch_is_sealed_by_size() {
    // 1200 bytes of payload in four transactions against a sealing size of 1000
    let mut maker = BatchMaker::new(1000);
    assert!(maker.push(transaction(&[1], 300)).is_none());
    assert!(maker.push(transaction(&[2], 300)).is_none());
    // 3 * 332 = 996 < 1000
    assert!(maker.push(transaction(&[3], 300)).is_none());
    let sealed = maker.push(transaction(&[4], 300)).expect("1328 bytes");
    assert_eq!(
        sealed.block,
        Block {
            txs: vec![
                transaction(&[1], 300),
                transaction(&[2], 300),
                transaction(&[3], 300),
                transaction(&[4], 300),
            ]
        }
    );
    assert!(sealed.digest == make_batch_id(&vec![1]));
    assert_eq!(maker.len(), 0);
    assert_eq!(maker.size(), 0);
    // nothing is left for the timer
    assert!(maker.tick().is_none());
}

#[test]
fn a_batch_is_sealed_when_it_reaches_the_size_exactly() {
    let mut maker = BatchMaker::new(100);
    assert!(maker.push(transaction(&[1], 67)).is_none());
    assert_eq!(maker.size(), 99);
    let mut maker = BatchMaker::new(100);
    let sealed = maker.push(transaction(&[1], 68)).expect("100 bytes");
    assert_eq!(sealed.block.txs.len(), 1);
}

#[test]
fn a_small_batch_is_sealed_by_time() {
    let mut maker = BatchMaker::new(1000);
    assert!(maker.push(transaction(&[5, 5], 68)).is_none());
    assert_eq!(maker.size(), 100);
    let sealed = maker.tick().expect("a transaction waits");
    assert_eq!(sealed.block.txs, vec![transaction(&[5, 5], 68)]);
    assert!(sealed.digest == make_batch_id(&vec![5, 5]));
    assert_eq!(maker.len(), 0);
    assert!(maker.tick().is_none());
}

#[test]
fn the_timer_seals_nothing_when_nothing_waits() {
    let mut maker = BatchMaker::new(1000);
    assert!(maker.tick().is_none());
    assert_eq!(maker.len(), 0);
}

#[test]
fn no_transaction_is_lost_or_repeated_across_seals() {
    let mut maker = BatchMaker::new(500);
    let mut fed = Vec::new();
    let mut out = Vec::new();
    for i in 0u8..50 {
        let tx = transaction(&[i], (i as usize * 37) % 200);
        fed.push(tx.clone());
        if let Some(sealed) = maker.push(tx) {
            assert!(!sealed.block.txs.is_empty());
            assert!(sealed.digest == make_batch_id(&sealed.block.txs[0].id));
            out.extend(sealed.block.txs);
        }
        if i % 7 == 0 {
            if let Some(sealed) = maker.tick() {
                out.extend(sealed.block.txs);
            }
        }
    }
    if let Some(sealed) = maker.tick() {
        out.extend(sealed.block.txs);
    }
    assert_eq!(out, fed);
}

#[test]
fn a_sealing_size_of_zero_seals_every_transaction() {
    let mut maker = BatchMaker::new(0);
    for i in 0u8..3 {
        let sealed = maker.push(transaction(&[i], 0)).expect("every transaction seals");
        assert_eq!(sealed.block.txs, vec![transaction(&[i], 0)]);
    }
}

#[test]
fn sealing_hands_out_what_is_held() {
    let mut maker = BatchMaker::new(1000);
    maker.push(transaction(&[1], 10));
    maker.push(transaction(&[2], 10));
    let sealed = maker.seal();
    assert_eq!(sealed.block.txs, vec![transaction(&[1], 10), transaction(&[2], 10)]);
    assert_eq!(maker.size(), 0);
}

#[test]
fn the_default_block_is_empty() {
    assert_eq!(Block::default(), Block { txs: vec![] });
}

#[test]
fn a_copy_of_a_transaction_is_the_transaction() {
    let tx = transaction(&[1, 2, 3], 17);
    assert_eq!(tx.duplicate(), tx);
}
