use miller_rabin::{checked_witness, checked_witnessexp, witness, witnessexp, Witness};
use num_bigint::BigUint;

fn big(digits: &str) -> BigUint {
    BigUint::parse_bytes(digits.as_bytes(), 10).unwrap()
}

fn run(b: u64, e: u64, m: u64) -> (BigUint, BigUint) {
    let r: Witness = witnessexp(&BigUint::from(b), &BigUint::from(e), &BigUint::from(m));
    (r.pow, r.wit)
}

fn pair(pow: u64, wit: u64) -> (BigUint, BigUint) {
    (BigUint::from(pow), BigUint::from(wit))
}

#[test]
fn zero_exponent_yields_the_marker() {
    assert_eq!(run(5, 0, 9), pair(0, 1));
    assert_eq!(run(0, 0, 3), pair(0, 1));
}

#[test]
fn zero_exponent_needs_no_modulus() {
    assert_eq!(run(5, 0, 0), pair(0, 1));
}

#[test]
fn exponent_one_reduces_the_base() {
    assert_eq!(run(2, 1, 9), pair(2, 0));
    assert_eq!(run(20, 1, 9), pair(2, 0));
    assert_eq!(run(9, 1, 9), pair(0, 0));
}

#[test]
fn even_exponent_squares() {
    assert_eq!(run(2, 8, 9), pair(4, 0));
    assert_eq!(run(2, 10, 1001), pair(23, 0));
}

#[test]
fn odd_exponent_squares_and_multiplies() {
    assert_eq!(run(3, 5, 2), pair(1, 0));
    assert_eq!(run(123456789, 987654321, 1000000007), pair(652541198, 0));
}

#[test]
fn trivial_roots_are_passed_over() {
    // 8 is minus one modulo 9, and 1 is one: neither is recorded.
    assert_eq!(run(8, 8, 9), pair(1, 0));
    assert_eq!(run(1, 8, 9), pair(1, 0));
    assert_eq!(run(2, 6, 9), pair(1, 0));
}

#[test]
fn nontrivial_root_is_recorded() {
    assert_eq!(run(4, 2, 15), pair(1, 4));
    assert_eq!(run(2, 340, 341), pair(1, 32));
    assert_eq!(run(2, 560, 561), pair(1, 67));
    assert_eq!(run(7, 252600, 252601), pair(1, 67772));
}

#[test]
fn recorded_root_squares_to_one() {
    let m: BigUint = BigUint::from(252601u32);
    let r: Witness = witnessexp(&BigUint::from(7u32), &BigUint::from(252600u32), &m);
    let one: BigUint = BigUint::from(1u32);
    assert_eq!((&r.wit * &r.wit) % &m, one);
    assert_ne!(r.wit, one);
    assert_ne!(&r.wit + &one, m);
    assert_eq!(r.pow, one);
}

#[test]
fn even_and_tiny_moduli() {
    assert_eq!(run(2, 3, 1), pair(0, 0));
    assert_eq!(run(5, 4, 8), pair(1, 5));
    assert_eq!(run(3, 2, 8), pair(1, 3));
    assert_eq!(run(3, 4, 4), pair(1, 0));
}

#[test]
fn base_above_the_modulus() {
    let b: BigUint = big("1180591620717411303424");
    let r: Witness = witnessexp(&b, &BigUint::from(5u32), &BigUint::from(1147u32));
    assert_eq!((r.pow, r.wit), pair(373, 0));
}

#[test]
fn exponent_beyond_a_machine_word() {
    let e: BigUint = big("18446744073709551616");
    let m: BigUint = big("618970019642690137449562111");
    let r: Witness = witnessexp(&BigUint::from(3u32), &e, &m);
    assert_eq!(r.pow, big("305837628983035197002400930"));
    assert_eq!(r.wit, BigUint::from(0u32));
}

#[test]
fn power_agrees_with_modpow_when_no_root_is_found() {
    let zero: BigUint = BigUint::from(0u32);
    let mut without_root: u32 = 0;
    let mut with_root: u32 = 0;
    for m in (3u32..80).step_by(2) {
        for b in 0u32..40 {
            for e in 1u32..50 {
                let (b, e, m) = (BigUint::from(b), BigUint::from(e), BigUint::from(m));
                let r: Witness = witnessexp(&b, &e, &m);
                if r.wit == zero {
                    assert_eq!(r.pow, b.modpow(&e, &m));
                    without_root += 1;
                } else {
                    assert_eq!(r.pow, BigUint::from(1u32));
                    assert_eq!((&r.wit * &r.wit) % &m, BigUint::from(1u32));
                    with_root += 1;
                }
            }
        }
    }
    assert!(without_root > 0);
    assert!(with_root > 0);
}

#[test]
fn power_agrees_with_modpow_modulo_a_large_prime() {
    let m: BigUint = big("170141183460469231731687303715884105727");
    let e: BigUint = big("98765432109876543210987654321");
    for b in 2u32..20 {
        let b: BigUint = BigUint::from(b);
        let r: Witness = witnessexp(&b, &e, &m);
        assert_eq!(r.wit, BigUint::from(0u32));
        assert_eq!(r.pow, b.modpow(&e, &m));
    }
}

#[test]
fn witness_against_nine() {
    let nine: BigUint = BigUint::from(9u32);
    assert!(witness(&BigUint::from(2u32), &nine));
    assert!(!witness(&BigUint::from(1u32), &nine));
    assert!(!witness(&BigUint::from(8u32), &nine));
}

#[test]
fn no_witness_against_a_prime() {
    let seven: BigUint = BigUint::from(7u32);
    for a in 1u32..7 {
        assert!(!witness(&BigUint::from(a), &seven));
    }
    assert!(!witness(&BigUint::from(10u32), &seven));
    let p: BigUint = big("618970019642690137449562111");
    for a in 1u32..50 {
        assert!(!witness(&BigUint::from(a), &p));
    }
}

#[test]
fn multiple_of_the_candidate_is_a_witness() {
    let seven: BigUint = BigUint::from(7u32);
    assert!(witness(&BigUint::from(0u32), &seven));
    assert!(witness(&seven, &seven));
}

#[test]
fn every_base_is_a_witness_against_one() {
    let one: BigUint = BigUint::from(1u32);
    assert!(witness(&BigUint::from(9u32), &one));
    assert!(witness(&BigUint::from(0u32), &one));
}

#[test]
fn strong_liar_is_not_a_witness() {
    // 2047 = 23 * 89 passes for base 2 and fails for base 3.
    let n: BigUint = BigUint::from(2047u32);
    assert!(!witness(&BigUint::from(2u32), &n));
    assert!(witness(&BigUint::from(3u32), &n));
}

#[test]
fn carmichael_number_has_witnesses() {
    assert!(witness(&BigUint::from(2u32), &BigUint::from(561u32)));
    assert!(witness(&BigUint::from(7u32), &BigUint::from(252601u32)));
}

#[test]
fn proper_divisor_is_a_witness() {
    for (d, n) in [(3u32, 9u32), (31, 961), (31, 1147), (37, 1147), (41, 252601), (2, 4)] {
        assert!(witness(&BigUint::from(d), &BigUint::from(n)));
    }
}

#[test]
fn base_counts_by_its_residue() {
    for n in [7u32, 9, 15, 341, 561, 1147] {
        for a in 0u32..12 {
            let (low, high, n) = (BigUint::from(a), BigUint::from(a + 3 * n), BigUint::from(n));
            assert_eq!(witness(&low, &n), witness(&high, &n));
            let e: BigUint = &n - 1u32;
            let (r, s): (Witness, Witness) = (witnessexp(&low, &e, &n), witnessexp(&high, &e, &n));
            assert_eq!((r.pow, r.wit), (s.pow, s.wit));
        }
    }
}

#[test]
fn both_fields_stay_below_the_modulus() {
    for m in 1u32..40 {
        for b in 0u32..45 {
            for e in 1u32..20 {
                let m: BigUint = BigUint::from(m);
                let r: Witness = witnessexp(&BigUint::from(b), &BigUint::from(e), &m);
                assert!(r.pow < m);
                assert!(r.wit < m);
            }
        }
    }
}

#[test]
fn witnesses_decide_small_numbers() {
    let primes: [u32; 15] = [2, 3, 5, 7, 11, 13, 17, 19, 23, 29, 31, 37, 41, 43, 47];
    for n in 2u32..50 {
        let mut found: bool = false;
        for a in 1u32..n {
            if witness(&BigUint::from(a), &BigUint::from(n)) {
                found = true;
            }
        }
        assert_eq!(found, !primes.contains(&n));
    }
}

#[test]
fn checked_exponentiation_refuses_a_zero_modulus() {
    let zero: BigUint = BigUint::from(0u32);
    assert!(checked_witnessexp(&BigUint::from(3u32), &BigUint::from(1u32), &zero).is_none());
    assert!(checked_witnessexp(&BigUint::from(3u32), &BigUint::from(6u32), &zero).is_none());
    let r: Witness = checked_witnessexp(&BigUint::from(3u32), &zero, &zero).unwrap();
    assert_eq!((r.pow, r.wit), pair(0, 1));
}

#[test]
fn checked_exponentiation_agrees_elsewhere() {
    let r: Witness =
        checked_witnessexp(&BigUint::from(2u32), &BigUint::from(560u32), &BigUint::from(561u32))
            .unwrap();
    assert_eq!((r.pow, r.wit), pair(1, 67));
    let r: Witness =
        checked_witnessexp(&BigUint::from(2u32), &BigUint::from(10u32), &BigUint::from(1001u32))
            .unwrap();
    assert_eq!((r.pow, r.wit), pair(23, 0));
}

#[test]
fn checked_witness_refuses_zero() {
    assert_eq!(checked_witness(&BigUint::from(2u32), &BigUint::from(0u32)), None);
    assert_eq!(checked_witness(&BigUint::from(2u32), &BigUint::from(1u32)), Some(true));
    assert_eq!(checked_witness(&BigUint::from(2u32), &BigUint::from(9u32)), Some(true));
    assert_eq!(checked_witness(&BigUint::from(8u32), &BigUint::from(9u32)), Some(false));
    assert_eq!(checked_witness(&BigUint::from(2u32), &BigUint::from(7u32)), Some(false));
}
