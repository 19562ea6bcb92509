use protohackers::arith::{mean, num_is_prime};

#[test]
fn test_mean() {
    assert_eq!(mean(vec![&1, &2, &3, &4]), 3);
}

#[test]
fn mean_of_nothing_is_zero() {
    assert_eq!(mean(vec![]), 0);
}

#[test]
fn mean_rounds_halves_away_from_zero() {
    assert_eq!(mean(vec![&-1, &-2]), -2);
    assert_eq!(mean(vec![&1, &2]), 2);
    assert_eq!(mean(vec![&1, &1, &2]), 1);
    assert_eq!(mean(vec![&-5, &-6, &-6]), -6);
}

#[test]
fn mean_of_extremes_stays_in_range() {
    assert_eq!(mean(vec![&i32::MAX, &i32::MAX, &i32::MAX]), i32::MAX);
    assert_eq!(mean(vec![&i32::MIN, &i32::MIN]), i32::MIN);
    assert_eq!(mean(vec![&i32::MIN, &i32::MAX]), -1);
}

#[test]
fn primes_and_non_primes() {
    for p in [2i64, 3, 5, 7, 11, 13, 97, 7919, 1_000_000_007] {
        assert!(num_is_prime(p), "{p}");
    }
    for n in [i64::MIN, -7, -1, 0, 1, 4, 9, 15, 25, 49, 91, 7917, 1_000_000_007 * 3] {
        assert!(!num_is_prime(n), "{n}");
    }
}

use protohackers::prices::{Prices, Reply};

fn request(tag: u8, a: i32, b: i32) -> [u8; 9] {
    let mut r = [0u8; 9];
    r[0] = tag;
    r[1..5].copy_from_slice(&a.to_be_bytes());
    r[5..9].copy_from_slice(&b.to_be_bytes());
    r
}

#[test]
fn prices_insert_and_query() {
    let mut p = Prices::new();
    assert_eq!(p.handle_request(request(b'I', 12345, 101)), Reply::Silent);
    assert_eq!(p.handle_request(request(b'I', 12346, 102)), Reply::Silent);
    assert_eq!(p.handle_request(request(b'I', 12347, 100)), Reply::Silent);
    assert_eq!(p.handle_request(request(b'I', 40960, 5)), Reply::Silent);
    assert_eq!(p.handle_request(request(b'Q', 12288, 16384)), Reply::Answer(101));
    assert_eq!(p.handle_request(request(b'Q', 12346, 12346)), Reply::Answer(102));
    assert_eq!(p.handle_request(request(b'Q', 0, 1)), Reply::Answer(0));
    assert_eq!(p.handle_request(request(b'Q', 16384, 12288)), Reply::Answer(0));
}

#[test]
fn prices_negative_numbers_and_rounding() {
    let mut p = Prices::new();
    assert!(p.insert(-5, -3));
    assert!(p.insert(-4, -4));
    assert_eq!(p.query(-10, 0), -4);
    assert_eq!(p.query(i32::MIN, i32::MAX), -4);
}

#[test]
fn prices_duplicate_time_and_bad_tag_stop() {
    let mut p = Prices::new();
    assert_eq!(p.handle_request(request(b'I', 1, 10)), Reply::Silent);
    assert_eq!(p.handle_request(request(b'I', 1, 20)), Reply::Stop);
    assert_eq!(p.entries, vec![(1, 10)]);
    assert_eq!(p.handle_request(request(b'X', 1, 20)), Reply::Stop);
}
