use emma::numbers::Sieve;

#[test]
fn test_small_numbers() {
    let sieve = Sieve::new(10);
    assert!(sieve.is_prime(2));
    assert!(sieve.is_prime(3));
    assert!(!sieve.is_prime(4));
    assert!(sieve.is_prime(5));
    assert!(!sieve.is_prime(6));
    assert!(sieve.is_prime(7));
    assert!(!sieve.is_prime(8));
    assert!(!sieve.is_prime(9));
    assert!(!sieve.is_prime(10));
}

#[test]
fn test_mersenne() {
    let sieve = Sieve::new(1 << 19);
    assert!(sieve.is_prime((1 << 2) - 1));
    assert!(!sieve.is_prime(1 << 2));
    assert!(sieve.is_prime((1 << 3) - 1));
    assert!(!sieve.is_prime(1 << 3));
    assert!(sieve.is_prime((1 << 5) - 1));
    assert!(!sieve.is_prime(1 << 5));
    assert!(sieve.is_prime((1 << 7) - 1));
    assert!(!sieve.is_prime(1 << 7));
    assert!(sieve.is_prime((1 << 13) - 1));
    assert!(!sieve.is_prime(1 << 13));
    assert!(sieve.is_prime((1 << 17) - 1));
    assert!(!sieve.is_prime(1 << 17));
    assert!(sieve.is_prime((1 << 19) - 1));
    assert!(!sieve.is_prime(1 << 19));

    assert!(!sieve.is_prime((1 << 4) - 1));
    assert!(!sieve.is_prime(1 << 4));
    assert!(!sieve.is_prime((1 << 6) - 1));
    assert!(!sieve.is_prime(1 << 6));
    assert!(!sieve.is_prime((1 << 8) - 1));
    assert!(!sieve.is_prime(1 << 8));
    assert!(!sieve.is_prime((1 << 9) - 1));
    assert!(!sieve.is_prime(1 << 9));
    assert!(!sieve.is_prime((1 << 10) - 1));
    assert!(!sieve.is_prime(1 << 10));
    assert!(!sieve.is_prime((1 << 11) - 1));
    assert!(!sieve.is_prime(1 << 11));
    assert!(!sieve.is_prime((1 << 12) - 1));
    assert!(!sieve.is_prime(1 << 12));
    assert!(!sieve.is_prime((1 << 14) - 1));
    assert!(!sieve.is_prime(1 << 14));
    assert!(!sieve.is_prime((1 << 15) - 1));
    assert!(!sieve.is_prime(1 << 15));
    assert!(!sieve.is_prime((1 << 16) - 1));
    assert!(!sieve.is_prime(1 << 16));
    assert!(!sieve.is_prime((1 << 18) - 1));
    assert!(!sieve.is_prime(1 << 18));
}

#[test]
fn sieve_agrees_with_trial_division() {
    let sieve = Sieve::new(2000);
    for v in 2..=2000u64 {
        let prime = (2..v).all(|d| v % d != 0);
        assert_eq!(sieve.is_prime(v), prime, "{v}");
    }
}
