use maths_fun::divisibility::gcd;
use maths_fun::modular::{exp_with_mod, find_order_of, generators_of_int_mod, NumberTheoryError};
use maths_fun::primes::sieve_of_eratosthenes;
use maths_fun::totient::euler_phi;

#[test]
fn sieve() {
    assert_eq!(
        vec![
            2, 3, 5, 7, 11, 13, 17, 19, 23, 29, 31, 37, 41, 43, 47, 53, 59, 61, 67, 71, 73, 79,
            83, 89, 97, 101, 103, 107, 109, 113, 127, 131, 137, 139, 149, 151, 157, 163, 167, 173,
            179, 181, 191, 193, 197, 199, 211, 223, 227, 229, 233, 239, 241, 251, 257, 263, 269,
            271
        ],
        sieve_of_eratosthenes(272)
    );
}

#[test]
fn exp_mod() {
    assert_eq!(Ok(1), exp_with_mod(3, 4, 5));
}

#[test]
fn order_of_fields() {
    assert_eq!(Ok(1227), find_order_of(2, 120247));
    assert_eq!(Ok(34), find_order_of(3, 307));
    assert_eq!(Ok(210), find_order_of(7, 211));
}

#[test]
fn euler_phi_test() {
    assert_eq!(1, euler_phi(1));
    assert_eq!(8, euler_phi(30));
    assert_eq!(8, euler_phi(20));
    assert_eq!(36, euler_phi(76));
    assert_eq!(40, euler_phi(100));
}

#[test]
fn list_generator_claim() {
    let primes = sieve_of_eratosthenes(1000);
    for p in primes {
        assert_eq!(generators_of_int_mod(p).len(), euler_phi(p - 1));
    }
}

#[test]
fn primes_below_23() {
    assert_eq!(vec![2, 3, 5, 7, 11, 13, 17, 19], sieve_of_eratosthenes(23));
}

#[test]
fn primes_below_small_bounds() {
    assert_eq!(Vec::<usize>::new(), sieve_of_eratosthenes(0));
    assert_eq!(Vec::<usize>::new(), sieve_of_eratosthenes(1));
    assert_eq!(Vec::<usize>::new(), sieve_of_eratosthenes(2));
    assert_eq!(vec![2], sieve_of_eratosthenes(3));
}

#[test]
fn gcd_with_zero() {
    for a in [0usize, 1, 2, 17, 100, usize::MAX] {
        assert_eq!(a, gcd(a, 0));
        assert_eq!(a, gcd(0, a));
    }
}

#[test]
fn gcd_symmetric_and_divides() {
    let pairs = [(12usize, 18usize), (35, 49), (1, 999), (24, 36), (1071, 462), (270, 192)];
    for (a, b) in pairs {
        let g = gcd(a, b);
        assert_eq!(g, gcd(b, a));
        assert_eq!(0, a % g);
        assert_eq!(0, b % g);
    }
    assert_eq!(6, gcd(12, 18));
    assert_eq!(21, gcd(1071, 462));
    assert_eq!(1, gcd(17, 31));
    assert_eq!(6, gcd(270, 192));
}

#[test]
fn exp_mod_exact_values() {
    assert_eq!(Ok(24), exp_with_mod(2, 10, 1000));
    assert_eq!(Ok(1), exp_with_mod(7, 0, 5));
    // Exponent one hands the bare base back, even above the modulus.
    assert_eq!(Ok(7), exp_with_mod(7, 1, 5));
    assert_eq!(Ok(0), exp_with_mod(10, 3, 5));
    assert_eq!(Ok(445), exp_with_mod(4, 13, 497));
}

#[test]
fn exp_mod_rejects_zero_modulus() {
    assert_eq!(Err(NumberTheoryError::ZeroModulus), exp_with_mod(3, 4, 0));
}

#[test]
fn order_rejects_bad_inputs() {
    assert_eq!(Err(NumberTheoryError::ZeroBase), find_order_of(0, 7));
    assert_eq!(Err(NumberTheoryError::ModulusTooSmall), find_order_of(3, 1));
    assert_eq!(Err(NumberTheoryError::ModulusTooSmall), find_order_of(3, 0));
}

#[test]
fn order_exhausts_without_coprimality() {
    assert_eq!(Err(NumberTheoryError::NoMultiplicativeOrder), find_order_of(2, 4));
    assert_eq!(Err(NumberTheoryError::NoMultiplicativeOrder), find_order_of(6, 9));
}

#[test]
fn order_small_cases() {
    assert_eq!(Ok(1), find_order_of(1, 7));
    assert_eq!(Ok(3), find_order_of(2, 7));
    assert_eq!(Ok(6), find_order_of(3, 7));
}

#[test]
fn totient_more_values() {
    assert_eq!(0, euler_phi(0));
    assert_eq!(4, euler_phi(12));
    assert_eq!(6, euler_phi(7));
    assert_eq!(16, euler_phi(17));
}

#[test]
fn generators_of_small_primes() {
    assert_eq!(vec![3, 5], generators_of_int_mod(7));
    assert_eq!(vec![2, 6, 7, 8], generators_of_int_mod(11));
    assert_eq!(vec![1], generators_of_int_mod(2));
    assert_eq!(Vec::<usize>::new(), generators_of_int_mod(0));
    assert_eq!(Vec::<usize>::new(), generators_of_int_mod(1));
}
