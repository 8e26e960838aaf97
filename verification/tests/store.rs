use leaderless_consensus::store::{BlobStore, PayloadReceiver};
use leaderless_consensus::types::Digest;

fn hash(tag: u8) -> Digest {
    Digest::new([tag; 32])
}

#[test]
fn a_batch_is_found_under_its_digest() {
    let mut store = BlobStore::new();
    assert_eq!(store.get(&hash(1)), None);
    assert!(!store.holds(&hash(1)));
    assert!(store.put(hash(1), vec![1, 2, 3]));
    assert!(store.put(hash(2), vec![]));
    assert_eq!(store.get(&hash(1)), Some(vec![1, 2, 3]));
    assert_eq!(store.get(&hash(2)), Some(vec![]));
    assert_eq!(store.get(&hash(3)), None);
    assert!(store.holds(&hash(2)));
}

#[test]
fn a_second_write_under_a_digest_changes_nothing() {
    let mut store = BlobStore::new();
    assert!(store.put(hash(1), vec![1, 2, 3]));
    assert!(!store.put(hash(1), vec![1, 2, 3]));
    assert!(!store.put(hash(1), vec![9]));
    assert_eq!(store.get(&hash(1)), Some(vec![1, 2, 3]));
}

#[test]
fn announcements_are_recorded_once() {
    let mut receiver = PayloadReceiver::new();
    assert!(!receiver.holds(&hash(1), 0));
    receiver.record(hash(1), 0);
    receiver.record(hash(1), 0);
    receiver.record(hash(2), 1);
    assert!(receiver.holds(&hash(1), 0));
    assert!(receiver.holds(&hash(2), 1));
    // the same digest of another worker is another announcement
    assert!(!receiver.holds(&hash(1), 1));
    assert!(!receiver.holds(&hash(2), 0));
    receiver.record(hash(1), 1);
    assert!(receiver.holds(&hash(1), 1));
    assert!(receiver.holds(&hash(1), 0));
}
