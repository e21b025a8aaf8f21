use primes::{factorize, is_factor, is_prime, primes_to_limit};

#[test]
fn test_is_factor() {
    assert_eq!(true, is_factor(3, 1));
    assert_eq!(true, is_factor(9, 3));
    assert_eq!(true, is_factor(27, 9));
    assert_eq!(true, is_factor(27, 3));
    assert_eq!(false, is_factor(9, 2));
    assert_eq!(false, is_factor(10, 3));
    assert_eq!(false, is_factor(2, 4));
    assert_eq!(false, is_factor(40, 11));
}

#[test]
fn test_factorize() {
    assert_eq!(vec![1], factorize(1));
    assert_eq!(vec![1, 3], factorize(3));
    assert_eq!(vec![1, 2, 4, 5, 10, 20, 25, 50, 100], factorize(100));
}

#[test]
fn test_is_prime() {
    assert_eq!(true, is_prime(2));
    assert_eq!(true, is_prime(7));
    assert_eq!(true, is_prime(13));
    assert_eq!(true, is_prime(117529));
    assert_eq!(false, is_prime(1));
    assert_eq!(false, is_prime(10));
    assert_eq!(false, is_prime(33));
    assert_eq!(false, is_prime(10000002));
}

#[test]
fn test_primes_to_limit() {
    assert_eq!(vec![2], primes_to_limit(2));
    assert_eq!(vec![2, 3, 5], primes_to_limit(5));
    assert_eq!(vec![2, 3, 5, 7], primes_to_limit(10));
}

#[test]
fn is_factor_with_negative_operands() {
    assert!(is_factor(-9, 3));
    assert!(is_factor(9, -3));
    assert!(is_factor(-9, -3));
    assert!(!is_factor(-10, 3));
    assert!(!is_factor(10, -3));
    assert!(is_factor(0, 7));
    assert!(is_factor(i32::MIN, 2));
    assert!(is_factor(i32::MIN, 1));
    assert!(!is_factor(i32::MAX, 2));
}

#[test]
fn factorize_non_positive_is_empty() {
    assert_eq!(Vec::<i32>::new(), factorize(0));
    assert_eq!(Vec::<i32>::new(), factorize(-12));
    assert_eq!(Vec::<i32>::new(), factorize(i32::MIN));
}

#[test]
fn factorize_lists_exactly_the_divisors_in_order() {
    let n: i32 = 360;
    let factors = factorize(n);
    for w in factors.windows(2) {
        assert!(w[0] < w[1]);
    }
    for f in 1..=n {
        assert_eq!(n % f == 0, factors.contains(&f));
    }
    assert_eq!(24, factors.len());
}

#[test]
fn is_prime_matches_two_factors() {
    for n in -5..200 {
        assert_eq!(factorize(n).len() == 2, is_prime(n));
    }
    assert!(!is_prime(0));
    assert!(!is_prime(-7));
    assert!(!is_prime(4));
    assert!(is_prime(97));
}

#[test]
fn primes_to_limit_includes_a_prime_limit() {
    assert_eq!(vec![2, 3, 5, 7], primes_to_limit(7));
    assert_eq!(vec![2, 3, 5], primes_to_limit(6));
}

#[test]
fn primes_to_limit_small_limits_are_empty() {
    assert_eq!(Vec::<i32>::new(), primes_to_limit(1));
    assert_eq!(Vec::<i32>::new(), primes_to_limit(0));
    assert_eq!(Vec::<i32>::new(), primes_to_limit(-10));
    assert_eq!(Vec::<i32>::new(), primes_to_limit(i32::MIN));
}

#[test]
fn primes_to_limit_below_a_non_prime_limit() {
    let primes = primes_to_limit(100);
    assert_eq!(25, primes.len());
    assert_eq!(Some(&97), primes.last());
    for w in primes.windows(2) {
        assert!(w[0] < w[1]);
    }
    for p in 2..100 {
        assert_eq!(is_prime(p), primes.contains(&p));
    }
}

#[test]
fn repeated_calls_agree() {
    assert_eq!(is_factor(27, 9), is_factor(27, 9));
    assert_eq!(factorize(100), factorize(100));
    assert_eq!(is_prime(117529), is_prime(117529));
    assert_eq!(primes_to_limit(30), primes_to_limit(30));
}
