use concurrent_kit::cache::{Cache, Claim};
use std::cell::Cell;

#[test]
fn computation_runs_once_per_key() {
    let counter = Cell::new(0u32);
    let mut cache: Cache<String> = Cache::new();
    for _ in 0..50 {
        let v = cache.get_or_insert_with(7, |_| {
            counter.set(counter.get() + 1);
            String::from("constant")
        });
        assert_eq!(v, "constant");
    }
    assert_eq!(counter.get(), 1);
}

#[test]
fn computation_gets_the_key() {
    let mut cache: Cache<u64> = Cache::default();
    assert_eq!(cache.get_or_insert_with(3, |k| k * 10), 30);
    assert_eq!(cache.get_or_insert_with(4, |k| k * 10), 40);
    assert_eq!(cache.get_or_insert_with(3, |k| k + 1), 30);
}

#[test]
fn only_the_first_claim_computes() {
    let mut cache: Cache<u32> = Cache::new();
    assert!(matches!(cache.claim(1), Claim::Compute));
    assert!(matches!(cache.claim(1), Claim::Wait));
    assert!(matches!(cache.claim(1), Claim::Wait));
    assert!(cache.publish(1, 11));
    assert!(matches!(cache.claim(1), Claim::Ready(11)));
    assert!(matches!(cache.claim(1), Claim::Ready(11)));
}

#[test]
fn pending_key_does_not_hold_up_another_key() {
    let mut cache: Cache<u32> = Cache::new();
    assert!(matches!(cache.claim(1), Claim::Compute));
    assert_eq!(cache.get_or_insert_with(2, |_| 22), 22);
    assert!(matches!(cache.claim(1), Claim::Wait));
    assert!(cache.publish(1, 11));
    assert_eq!(cache.get_or_insert_with(1, |_| 0), 11);
    assert_eq!(cache.get_or_insert_with(2, |_| 0), 22);
}

#[test]
fn ready_value_never_changes() {
    let mut cache: Cache<u32> = Cache::new();
    assert!(!cache.publish(5, 1));
    assert!(matches!(cache.claim(5), Claim::Compute));
    assert!(cache.publish(5, 1));
    assert!(!cache.publish(5, 2));
    assert!(!cache.abandon(5));
    assert!(matches!(cache.claim(5), Claim::Ready(1)));
}

#[test]
fn abandoned_key_is_claimed_anew() {
    let mut cache: Cache<u32> = Cache::new();
    assert!(!cache.abandon(9));
    assert!(matches!(cache.claim(9), Claim::Compute));
    assert!(cache.abandon(9));
    assert!(!cache.publish(9, 1));
    assert!(matches!(cache.claim(9), Claim::Compute));
    assert!(cache.publish(9, 2));
    assert_eq!(cache.get_or_insert_with(9, |_| 3), 2);
}
