use blockyard::storage::background::rate_limit::TokenBucket;


#[test]
fn test_new_bucket_starts_full() {
    let mut bucket = TokenBucket::new(100, 50, 0);
    assert_eq!(bucket.available(0), 100);
}

#[test]
fn test_try_acquire_success() {
    let mut bucket = TokenBucket::new(100, 50, 0);
    assert!(bucket.try_acquire(50, 0));
    assert_eq!(bucket.available(0), 50);
}

#[test]
fn test_try_acquire_exact_capacity() {
    let mut bucket = TokenBucket::new(100, 50, 0);
    assert!(bucket.try_acquire(100, 0));
    assert_eq!(bucket.available(0), 0);
}

#[test]
fn test_try_acquire_insufficient_tokens() {
    let mut bucket = TokenBucket::new(100, 50, 0);
    assert!(bucket.try_acquire(80, 0));
    assert!(!bucket.try_acquire(30, 0));
}

#[test]
fn test_try_acquire_zero() {
    let mut bucket = TokenBucket::new(100, 50, 0);
    assert!(bucket.try_acquire(0, 0));
    assert_eq!(bucket.available(0), 100);
}

#[test]
fn test_capacity() {
    let mut bucket = TokenBucket::new(200, 100, 0);
    assert_eq!(bucket.capacity(), 200);
}

#[test]
fn test_refill_rate() {
    let mut bucket = TokenBucket::new(200, 100, 0);
    assert_eq!(bucket.refill_rate(), 100);
}

#[test]
fn test_refill_caps_at_capacity() {
    let mut bucket = TokenBucket::new(100, 100_000, 0);
    assert!(bucket.try_acquire(50, 0));
    // Force a refill with enough elapsed time
    let later = bucket.available(20);
    assert!(later <= 100, "available={later} should be <= 100");
    assert_eq!(later, 100);
}

#[test]
fn test_multiple_acquires() {
    let mut bucket = TokenBucket::new(100, 50, 0);
    assert!(bucket.try_acquire(30, 0));
    assert!(bucket.try_acquire(30, 0));
    assert!(bucket.try_acquire(30, 0));
    assert!(!bucket.try_acquire(30, 0));
}

#[test]
fn test_debug_impl() {
    let mut bucket = TokenBucket::new(100, 50, 0);
    let debug = format!("{:?}", bucket);
    assert!(debug.contains("TokenBucket"));
}
#[test]
fn refill_follows_the_rate() {
    let mut bucket = TokenBucket::new(100, 50, 1_000);
    assert!(bucket.try_acquire(100, 1_000));
    // 50 tokens/sec: one token each 20 ms, and what is left of the time is not lost.
    assert_eq!(bucket.available(1_019), 0);
    assert_eq!(bucket.available(1_020), 1);
    assert_eq!(bucket.available(2_020), 51);
    // Time that runs backwards adds nothing.
    assert_eq!(bucket.available(500), 51);
}

#[test]
fn the_budget_is_never_exceeded() {
    let mut bucket = TokenBucket::new(10, 100, 0);
    let mut taken = 0;
    for now in 0..1_000u64 {
        while bucket.try_acquire(3, now) {
            taken += 3;
        }
    }
    assert!(taken <= 10 + 100);
}
