use num_bigint::BigUint;
use hope::primes::{isprime, generate_strong_prime, generate_prime, nextprime, NUM_TESTS};

fn sieve_first_primes(count: usize) -> Vec<u64> {
    let mut primes: Vec<u64> = Vec::new();
    let mut n: u64 = 2;
    while primes.len() < count {
        let mut composite = false;
        for p in &primes {
            if p * p > n {
                break;
            }
            if n % p == 0 {
                composite = true;
                break;
            }
        }
        if !composite {
            primes.push(n);
        }
        n += 1;
    }
    primes
}

#[test]
fn first_thousand_primes_accepted() {
    let primes = sieve_first_primes(1000);
    assert_eq!(*primes.last().unwrap(), 7919);
    for p in primes {
        let r = isprime(&BigUint::from(p), NUM_TESTS).expect("randomness available");
        assert!(r, "prime {} rejected", p);
    }
}

#[test]
fn products_of_primes_rejected() {
    let primes = sieve_first_primes(1000);
    for w in primes.windows(2).step_by(97) {
        let prod = BigUint::from(w[0]) * BigUint::from(w[1]);
        let r = isprime(&prod, NUM_TESTS).expect("randomness available");
        assert!(!r, "product {}*{} accepted", w[0], w[1]);
    }
    let square = BigUint::from(7919u64) * BigUint::from(7919u64);
    assert_eq!(isprime(&square, NUM_TESTS), Some(false));
}

#[test]
fn carmichael_number_rejected() {
    // 561 = 3 * 11 * 17 is the smallest Carmichael number.
    assert_eq!(isprime(&BigUint::from(561u64), NUM_TESTS), Some(false));
}

#[test]
fn small_cases() {
    assert_eq!(isprime(&BigUint::from(0u64), NUM_TESTS), Some(false));
    assert_eq!(isprime(&BigUint::from(1u64), NUM_TESTS), Some(false));
    assert_eq!(isprime(&BigUint::from(2u64), NUM_TESTS), Some(true));
    assert_eq!(isprime(&BigUint::from(3u64), NUM_TESTS), Some(true));
    assert_eq!(isprime(&BigUint::from(4u64), NUM_TESTS), Some(false));
    assert_eq!(isprime(&BigUint::from(997u64), NUM_TESTS), Some(true));
    assert_eq!(isprime(&BigUint::from(999u64), NUM_TESTS), Some(false));
}

#[test]
fn strong_prime_has_requested_bits() {
    let p = generate_strong_prime(64).expect("randomness available");
    assert_eq!(p.bits(), 64);
    assert_eq!(isprime(&p, NUM_TESTS), Some(true));
}

#[test]
fn generate_prime_has_requested_bits() {
    let p = generate_prime(48).expect("randomness available");
    assert_eq!(p.bits(), 48);
    assert_eq!(isprime(&p, NUM_TESTS), Some(true));
}

#[test]
fn nextprime_finds_a_prime() {
    let p = nextprime(&BigUint::from(1000u64)).expect("randomness available");
    assert_eq!(isprime(&p, NUM_TESTS), Some(true));
    assert!(p >= BigUint::from(1000u64));
}

#[test]
fn nextprime_result_is_odd_and_at_least_start() {
    let start = BigUint::from(90_000u64);
    let p = nextprime(&start).expect("randomness available");
    assert!(p >= start);
    assert_eq!(&p % BigUint::from(2u64), BigUint::from(1u64));
}

#[test]
fn large_primes_are_never_rejected() {
    // 104729 is the 10000th prime; far beyond the trial-division range,
    // so only the Miller-Rabin rounds decide.
    for p in [1009u64, 7919, 104729, 1299709] {
        assert_eq!(isprime(&BigUint::from(p), NUM_TESTS), Some(true));
    }
}
