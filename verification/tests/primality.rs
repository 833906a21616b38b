use prime_scan::is_prime;

#[test]
fn can_detect_prime() {
    let prime: u64 = 83;
    assert_eq!(is_prime(prime), true);
}

#[test]
fn can_detect_non_prime() {
    let non_prime: u64 = 80;
    assert_eq!(is_prime(non_prime), false);
}

#[test]
fn zero_and_one_are_not_prime() {
    assert_eq!(is_prime(0), false);
    assert_eq!(is_prime(1), false);
}

#[test]
fn two_and_three_are_prime() {
    assert_eq!(is_prime(2), true);
    assert_eq!(is_prime(3), true);
}

#[test]
fn agrees_with_a_sieve_up_to_ten_thousand() {
    let bound: usize = 10_000;
    let mut composite = vec![false; bound + 1];
    let mut i: usize = 2;
    while i <= bound {
        if !composite[i] {
            let mut multiple: usize = i * i;
            while multiple <= bound {
                composite[multiple] = true;
                multiple += i;
            }
        }
        i += 1;
    }
    let mut n: usize = 2;
    while n <= bound {
        assert_eq!(is_prime(n as u64), !composite[n], "at {}", n);
        n += 1;
    }
}

#[test]
fn multiples_of_two_and_three_are_not_prime() {
    assert_eq!(is_prime(4), false);
    assert_eq!(is_prime(9), false);
    assert_eq!(is_prime(27), false);
    assert_eq!(is_prime(1_000_000), false);
}

#[test]
fn squares_of_primes_are_not_prime() {
    // 5 * 5 and 7 * 7: found by the first and by the second divisor tried.
    assert_eq!(is_prime(25), false);
    assert_eq!(is_prime(49), false);
    assert_eq!(is_prime(121), false);
    assert_eq!(is_prime(169), false);
    // 65521 is the largest prime below 2^16.
    assert_eq!(is_prime(65_521 * 65_521), false);
}

#[test]
fn products_of_neighbouring_primes_are_not_prime() {
    assert_eq!(is_prime(5 * 7), false);
    assert_eq!(is_prime(11 * 13), false);
    assert_eq!(is_prime(9_973 * 10_007), false);
}

#[test]
fn primes_around_two_to_the_thirty_second() {
    // The largest prime below 2^32, and the fifth Fermat number, which is
    // 641 * 6700417.
    assert_eq!(is_prime(4_294_967_291), true);
    assert_eq!(is_prime(4_294_967_297), false);
}

#[test]
fn the_largest_input_is_not_prime() {
    // 2^64 - 1 is a multiple of 3.
    assert_eq!(is_prime(u64::MAX), false);
    // 2^64 - 3 is a multiple of 13.
    assert_eq!(is_prime(u64::MAX - 2), false);
}

#[test]
fn the_largest_primes_below_the_usual_limit() {
    assert_eq!(is_prime(99_999_989), true);
    assert_eq!(is_prime(99_999_971), true);
    assert_eq!(is_prime(99_999_990), false);
}
