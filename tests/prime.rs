use lrcp::prime::is_prime;

#[test]
fn prime() {
    assert!(!is_prime(0));
    assert!(!is_prime(1));
    assert!(is_prime(2));
    assert!(is_prime(3));
    assert!(!is_prime(4));
    assert!(is_prime(5));
    assert!(!is_prime(6));
    assert!(is_prime(7));
    assert!(!is_prime(8));
    assert!(!is_prime(9));
    assert!(!is_prime(10));
    assert!(is_prime(11));
    assert!(!is_prime(12));
    assert!(is_prime(13));
    assert!(!is_prime(14));
    assert!(!is_prime(15));
    assert!(!is_prime(16));
    assert!(is_prime(17));
}

#[test]
fn large_numbers() {
    assert!(!is_prime(18446744073709551615));
    assert!(is_prime(1000000007));
    assert!(!is_prime(4294967311 * 3));
    assert!(is_prime(4294967311));
    assert!(!is_prime(65521 * 65521));
}
