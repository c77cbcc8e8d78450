//! The Miller–Rabin test: a witness-seeking modular exponentiation, the
//! witness test built on it, and the decision procedure that drives both.

use crate::number_theory::{
    divides, is_prime, lemma_divisor_power_is_not_one, lemma_fermat_little, lemma_mod_pow_double,
    lemma_mod_pow_one, lemma_mod_pow_succ, lemma_prime_roots_of_one, mod_pow,
};
use crate::trusted::{
    difference, draw_between, equal, from_u8, greater, power, product, quotient, remainder, sum,
    thread_generator, value,
};
use num_bigint::BigUint;
use vstd::arithmetic::div_mod::{lemma_mul_mod_noop_general, lemma_small_mod};
use vstd::arithmetic::power::{lemma_pow_mod_noop, lemma_square_is_pow2};
use vstd::prelude::*;

verus! {

/// What the witness-seeking exponentiation hands back.
///
/// `wit` is zero while no nontrivial square root of one has been met. Once
/// such a root is found it is kept in `wit`, and `pow` stays at one.
pub struct Witness {
    pub pow: BigUint,
    pub wit: BigUint,
}

impl View for Witness {
    type V = (nat, nat);

    /// The numbers that the two fields denote, `pow` first.
    open spec fn view(&self) -> (nat, nat) {
        (value(self.pow), value(self.wit))
    }
}

/// `x` squares to one modulo `m` without being one or `m - 1`.
pub open spec fn nontrivial_root(x: nat, m: nat) -> bool {
    (x * x) % m == 1 && x != 1 && x + 1 != m
}

/// The nontrivial square root of one that square-and-multiply meets first
/// on its way to `b^e mod m`, if it meets any. The exponent is halved down to
/// one, and the intermediate powers are inspected from the smallest exponent
/// upwards.
pub open spec fn found_root(b: nat, e: nat, m: nat) -> Option<nat>
    decreases e,
{
    if e < 2 {
        None
    } else {
        match found_root(b, e / 2, m) {
            Some(x) => Some(x),
            None => {
                let x = mod_pow(b, e / 2, m);
                if nontrivial_root(x, m) {
                    Some(x)
                } else {
                    None
                }
            },
        }
    }
}

/// The exponent `e` after `k` halvings, each rounded down.
pub open spec fn halved(e: nat, k: nat) -> nat
    decreases k,
{
    if k == 0 {
        e
    } else {
        halved(e / 2, (k - 1) as nat)
    }
}

/// After `k` halvings, with `k` at least one, the exponent is still
/// positive and the power to it is a nontrivial square root of one.
pub open spec fn root_at(b: nat, e: nat, m: nat, k: nat) -> bool {
    k >= 1 && halved(e, k) >= 1 && nontrivial_root(mod_pow(b, halved(e, k), m), m)
}

/// The pair `(pow, wit)` that [`witnessexp`] computes.
///
/// A zero exponent yields the marker `(0, 1)`. Otherwise the pair is
/// `(1, x)` when a nontrivial root `x` was met, and `(b^e mod m, 0)` when
/// none was.
pub open spec fn witness_exp(b: nat, e: nat, m: nat) -> (nat, nat) {
    if e == 0 {
        (0, 1)
    } else {
        match found_root(b, e, m) {
            Some(x) => (1, x),
            None => (mod_pow(b, e, m), 0),
        }
    }
}

/// `a` shows `n` to be composite: either the exponentiation of `a` to
/// `n - 1` meets a nontrivial square root of one, or the power itself is not
/// one. For `n = 1` every base counts as a witness.
pub open spec fn is_witness(a: nat, n: nat) -> bool {
    ||| n <= 1
    ||| found_root(a, (n - 1) as nat, n) is Some
    ||| mod_pow(a, (n - 1) as nat, n) != 1
}

/// Zero is never a nontrivial root, so a zero `wit` field can stand for
/// "none found".
pub proof fn lemma_nontrivial_root_is_positive(x: nat, m: nat)
    requires
        m > 0,
        nontrivial_root(x, m),
    ensures
        x != 0,
{
    if x == 0 {
        assert(x * x == 0) by (nonlinear_arith)
            requires
                x == 0,
        ;
        lemma_small_mod(0, m);
    }
}

/// A root that was found is a nontrivial root below the modulus, and so is
/// not zero.
pub proof fn lemma_found_root_is_nontrivial(b: nat, e: nat, m: nat)
    requires
        m > 0,
    ensures
        found_root(b, e, m) matches Some(x) ==> nontrivial_root(x, m) && x != 0 && x < m,
    decreases e,
{
    if e >= 2 {
        lemma_found_root_is_nontrivial(b, e / 2, m);
        let x = mod_pow(b, e / 2, m);
        if nontrivial_root(x, m) {
            lemma_nontrivial_root_is_positive(x, m);
        }
    }
}

/// Zero stays zero however often it is halved.
proof fn lemma_halved_zero(k: nat)
    ensures
        halved(0, k) == 0,
    decreases k,
{
    if k > 0 {
        lemma_halved_zero((k - 1) as nat);
    }
}

/// [`found_root`] without the recursion: a root is found exactly when some
/// number of halvings leads to one, and the root found is the one after the
/// most halvings.
pub proof fn lemma_found_root_is_deepest(b: nat, e: nat, m: nat)
    ensures
        found_root(b, e, m) is None <==> forall|k: nat| !root_at(b, e, m, k),
        found_root(b, e, m) matches Some(x) ==> exists|k: nat|
            #![trigger root_at(b, e, m, k)]
            root_at(b, e, m, k) && x == mod_pow(b, halved(e, k), m) && forall|j: nat|
                j > k ==> !root_at(b, e, m, j),
    decreases e,
{
    if e < 2 {
        assert forall|k: nat| !root_at(b, e, m, k) by {
            if k >= 1 {
                lemma_halved_zero((k - 1) as nat);
            }
        }
    } else {
        let h = e / 2;
        lemma_found_root_is_deepest(b, h, m);
        assert forall|k: nat| k >= 2 implies root_at(b, e, m, k) == root_at(
            b,
            h,
            m,
            (k - 1) as nat,
        ) by {}
        assert(halved(e, 1) == h) by {
            assert(halved(h, 0) == h);
        }
        match found_root(b, h, m) {
            Some(x) => {
                let k = choose|k: nat|
                    #![trigger root_at(b, h, m, k)]
                    root_at(b, h, m, k) && x == mod_pow(b, halved(h, k), m) && forall|j: nat|
                        j > k ==> !root_at(b, h, m, j);
                assert(root_at(b, e, m, k + 1));
                assert forall|j: nat| j > k + 1 implies !root_at(b, e, m, j) by {
                    assert(!root_at(b, h, m, (j - 1) as nat));
                }
            },
            None => {
                assert forall|j: nat| j > 1 implies !root_at(b, e, m, j) by {
                    assert(!root_at(b, h, m, (j - 1) as nat));
                }
                if nontrivial_root(mod_pow(b, h, m), m) {
                    assert(root_at(b, e, m, 1));
                } else {
                    assert forall|k: nat| !root_at(b, e, m, k) by {
                        if k >= 2 {
                            assert(!root_at(b, h, m, (k - 1) as nat));
                        }
                    }
                }
            },
        }
    }
}

/// For a nonzero exponent both components stay below the modulus.
pub proof fn lemma_witness_exp_is_reduced(b: nat, e: nat, m: nat)
    requires
        m > 0,
        e > 0,
    ensures
        witness_exp(b, e, m).0 < m,
        witness_exp(b, e, m).1 < m,
{
    lemma_found_root_is_nontrivial(b, e, m);
}

/// Only the residue of the base matters: a base at or above the modulus
/// gives what its remainder gives.
pub proof fn lemma_base_may_be_reduced(b: nat, e: nat, m: nat)
    requires
        m > 0,
    ensures
        found_root(b % m, e, m) == found_root(b, e, m),
        witness_exp(b % m, e, m) == witness_exp(b, e, m),
    decreases e,
{
    lemma_pow_mod_noop(b as int, e, m as int);
    if e >= 2 {
        lemma_base_may_be_reduced(b, e / 2, m);
        lemma_pow_mod_noop(b as int, e / 2, m as int);
    }
}

/// Whether a base is a witness depends on its residue alone.
pub proof fn lemma_witness_may_be_reduced(a: nat, n: nat)
    requires
        n > 0,
    ensures
        is_witness(a % n, n) == is_witness(a, n),
{
    lemma_base_may_be_reduced(a, (n - 1) as nat, n);
}

/// Modulo a prime, the exponentiation never meets a nontrivial root.
pub proof fn lemma_prime_has_no_root(p: nat, b: nat, e: nat)
    requires
        is_prime(p),
    ensures
        found_root(b, e, p) is None,
    decreases e,
{
    if e >= 2 {
        lemma_prime_has_no_root(p, b, e / 2);
        let x = mod_pow(b, e / 2, p);
        if nontrivial_root(x, p) {
            lemma_prime_roots_of_one(p, x);
        }
    }
}

/// A prime has no witness among the bases that it does not divide.
pub proof fn lemma_prime_has_no_witness(p: nat, a: nat)
    requires
        is_prime(p),
        a % p != 0,
    ensures
        !is_witness(a, p),
{
    lemma_prime_has_no_root(p, a, (p - 1) as nat);
    lemma_fermat_little(p, a);
}

/// A composite number has a witness among the bases below it: any of its
/// proper divisors is one.
pub proof fn lemma_composite_has_witness(n: nat)
    requires
        n >= 2,
        !is_prime(n),
    ensures
        exists|a: nat| 1 <= a < n && #[trigger] is_witness(a, n),
{
    let d = choose|d: nat| 1 < d < n && #[trigger] divides(d, n);
    lemma_divisor_power_is_not_one(n, d, (n - 1) as nat);
    assert(is_witness(d, n));
}

/// The witnesses decide primality: a number from two on is prime exactly
/// when no base from one up to itself is a witness against it.
pub proof fn lemma_prime_iff_no_witness(n: nat)
    requires
        n >= 2,
    ensures
        is_prime(n) <==> forall|a: nat| 1 <= a < n ==> !#[trigger] is_witness(a, n),
{
    if is_prime(n) {
        assert forall|a: nat| 1 <= a < n implies !#[trigger] is_witness(a, n) by {
            lemma_small_mod(a, n);
            lemma_prime_has_no_witness(n, a);
        }
    } else {
        lemma_composite_has_witness(n);
    }
}

/// Modular exponentiation that watches for nontrivial square roots of one.
///
/// Computes `b^e mod m` by halving the exponent. As soon as an intermediate
/// power turns out to be a nontrivial square root of one, that root is
/// recorded in `wit` and handed up unchanged. With no such root, `wit` is
/// zero and `pow` is the modular power.
pub fn witnessexp(b: &BigUint, e: &BigUint, m: &BigUint) -> (r: Witness)
    requires
        value(*e) != 0 ==> value(*m) != 0,
    ensures
        r@ == witness_exp(value(*b), value(*e), value(*m)),
        r@.1 == 0 ==> r@.0 == mod_pow(value(*b), value(*e), value(*m)),
        value(*e) != 0 ==> r@.0 < value(*m) && r@.1 < value(*m),
    decreases value(*e),
{
    proof {
        if value(*e) != 0 {
            lemma_witness_exp_is_reduced(value(*b), value(*e), value(*m));
        }
    }
    let zero = from_u8(0);
    let one = from_u8(1);
    if equal(e, &zero) {
        return Witness { pow: zero, wit: one };
    }
    if equal(e, &one) {
        proof {
            lemma_mod_pow_one(value(*b), value(*m));
        }
        return Witness { pow: remainder(b, m), wit: zero };
    }
    let two = from_u8(2);
    let ehalf = quotient(e, &two);
    let tmp = witnessexp(b, &ehalf, m);
    proof {
        lemma_found_root_is_nontrivial(value(*b), value(ehalf), value(*m));
    }
    if !equal(&tmp.wit, &zero) {
        return tmp;
    }
    let square = power(&tmp.pow, 2);
    let t = remainder(&square, m);
    proof {
        lemma_square_is_pow2(value(tmp.pow) as int);
        lemma_mod_pow_double(value(*b), value(ehalf), value(*m));
    }
    if equal(&t, &one) && !equal(&tmp.pow, &one) && !equal(&sum(&tmp.pow, &one), m) {
        proof {
            lemma_nontrivial_root_is_positive(value(tmp.pow), value(*m));
        }
        return Witness { pow: t, wit: tmp.pow };
    }
    if equal(&remainder(e, &two), &zero) {
        Witness { pow: t, wit: tmp.wit }
    } else {
        proof {
            lemma_mod_pow_succ(value(*b), (2 * value(ehalf)) as nat, value(*m));
            lemma_mul_mod_noop_general(
                (value(tmp.pow) * value(tmp.pow)) as int,
                value(*b) as int,
                value(*m) as int,
            );
        }
        Witness { pow: remainder(&product(&t, b), m), wit: tmp.wit }
    }
}

/// [`witnessexp`] for callers that cannot vouch for the modulus: `None` when
/// a nonzero exponent meets a zero modulus, for which no remainder exists.
pub fn checked_witnessexp(b: &BigUint, e: &BigUint, m: &BigUint) -> (r: Option<Witness>)
    ensures
        r is None <==> value(*e) != 0 && value(*m) == 0,
        r matches Some(w) ==> w@ == witness_exp(value(*b), value(*e), value(*m)),
{
    let zero = from_u8(0);
    if !equal(e, &zero) && equal(m, &zero) {
        None
    } else {
        Some(witnessexp(b, e, m))
    }
}

/// Whether `a` is a Miller–Rabin witness that `n` is composite.
///
/// The candidate may not be zero: the test raises `a` to `n - 1`.
pub fn witness(a: &BigUint, n: &BigUint) -> (r: bool)
    requires
        value(*n) >= 1,
    ensures
        r == is_witness(value(*a), value(*n)),
{
    let one = from_u8(1);
    let zero = from_u8(0);
    let ndown = difference(n, &one);
    let we = witnessexp(a, &ndown, n);
    proof {
        lemma_found_root_is_nontrivial(value(*a), value(ndown), value(*n));
    }
    !equal(&we.wit, &zero) || !equal(&we.pow, &one)
}

/// [`witness`] for callers that cannot vouch for the candidate: `None` when
/// the candidate is zero.
pub fn checked_witness(a: &BigUint, n: &BigUint) -> (r: Option<bool>)
    ensures
        r is None <==> value(*n) == 0,
        r matches Some(w) ==> w == is_witness(value(*a), value(*n)),
{
    let zero = from_u8(0);
    if equal(n, &zero) {
        None
    } else {
        Some(witness(a, n))
    }
}

/// The primes that every candidate is first divided by, in increasing order.
pub open spec fn small_primes() -> Seq<nat> {
    seq![2, 3, 5, 7, 11, 13, 17, 19, 23, 29]
}

/// `n` is one of the tabulated primes.
pub open spec fn is_small_prime(n: nat) -> bool {
    exists|i: int| 0 <= i < small_primes().len() && n == #[trigger] small_primes()[i]
}

/// One of the tabulated primes divides `n`.
pub open spec fn has_small_factor(n: nat) -> bool {
    exists|i: int| 0 <= i < small_primes().len() && n % #[trigger] small_primes()[i] == 0
}

/// A tabulated prime other than `n` itself divides `n`.
pub open spec fn has_proper_small_factor(n: nat) -> bool {
    exists|i: int|
        0 <= i < small_primes().len() && n != small_primes()[i] && n % #[trigger] small_primes()[i]
            == 0
}

/// Trial division alone settles `n`: it lies within the table's range, or a
/// tabulated prime divides it.
pub open spec fn settled_by_table(n: nat) -> bool {
    n <= 29 || has_small_factor(n)
}

/// Where trial division settles a candidate, it settles it correctly: the
/// tabulated numbers are the primes up to 29, and a larger number with a
/// tabulated factor is not prime.
pub proof fn lemma_trial_division_is_exact(n: nat)
    requires
        settled_by_table(n),
    ensures
        is_small_prime(n) <==> is_prime(n),
{
    if is_small_prime(n) {
        assert forall|d: nat| 1 < d < n implies !(#[trigger] divides(d, n)) by {
            assert(d == 2 || d == 3 || d == 4 || d == 5 || d == 6 || d == 7 || d == 8 || d == 9
                || d == 10 || d == 11 || d == 12 || d == 13 || d == 14 || d == 15 || d == 16
                || d == 17 || d == 18 || d == 19 || d == 20 || d == 21 || d == 22 || d == 23
                || d == 24 || d == 25 || d == 26 || d == 27 || d == 28);
        }
    } else if n <= 29 {
        if n >= 2 {
            assert(small_primes()[0] == 2 && small_primes()[1] == 3 && small_primes()[2] == 5
                && small_primes()[3] == 7 && small_primes()[4] == 11 && small_primes()[5] == 13
                && small_primes()[6] == 17 && small_primes()[7] == 19 && small_primes()[8] == 23
                && small_primes()[9] == 29);
            let d: nat = if n % 2 == 0 {
                2
            } else if n % 3 == 0 {
                3
            } else {
                5
            };
            assert(divides(d, n));
        }
    } else {
        let i = choose|i: int|
            0 <= i < small_primes().len() && n % #[trigger] small_primes()[i] == 0;
        assert(divides(small_primes()[i], n));
    }
}

/// A number with a tabulated factor other than itself is settled by trial
/// division, and is not a tabulated prime.
pub proof fn lemma_proper_small_factor(n: nat)
    requires
        has_proper_small_factor(n),
    ensures
        settled_by_table(n),
        !is_small_prime(n),
        !is_prime(n),
{
    let i = choose|i: int|
        0 <= i < small_primes().len() && n != small_primes()[i] && n % #[trigger] small_primes()[i]
            == 0;
    let d = small_primes()[i];
    assert(has_small_factor(n));
    lemma_trial_division_is_exact(n);
    if is_prime(n) {
        if n < d {
            lemma_small_mod(n, d);
        }
        assert(divides(d, n));
    }
}

/// Whether `n` is composite, up to a one-sided error.
///
/// Candidates that trial division settles are reported composite unless they
/// are tabulated primes; this includes zero and one. Any other candidate goes
/// through up to `d` rounds, each with a fresh random base from `1` up to
/// `n - 1`, and is reported composite as soon as one base is a witness. With
/// `d = 0` no round is run and such a candidate passes.
pub fn composite(n: &BigUint, d: u64) -> (r: bool)
    ensures
        // A composite verdict is never wrong.
        r ==> !is_prime(value(*n)),
        // Where trial division decides, the verdict is exact.
        settled_by_table(value(*n)) ==> r == !is_prime(value(*n)),
        settled_by_table(value(*n)) ==> r == !is_small_prime(value(*n)),
        is_small_prime(value(*n)) ==> !r,
        has_proper_small_factor(value(*n)) ==> r,
        // Beyond the table the verdict rests on the bases that were drawn.
        !settled_by_table(value(*n)) && d == 0 ==> !r,
        !settled_by_table(value(*n)) && r ==> exists|a: nat|
            1 <= a < value(*n) && #[trigger] is_witness(a, value(*n)),
        !settled_by_table(value(*n)) && !r && d > 0 ==> exists|a: nat|
            1 <= a < value(*n) && !#[trigger] is_witness(a, value(*n)),
{
    proof {
        if has_proper_small_factor(value(*n)) {
            lemma_proper_small_factor(value(*n));
        }
    }
    let mut rng = thread_generator();
    let primes: [u8; 10] = [2, 3, 5, 7, 11, 13, 17, 19, 23, 29];
    let zero = from_u8(0);
    assert(primes@ =~= small_primes().map_values(|p: nat| p as u8));
    for i in 0usize..10
        invariant
            value(zero) == 0,
            primes@ =~= small_primes().map_values(|p: nat| p as u8),
            forall|j: int|
                0 <= j < i ==> #[trigger] small_primes()[j] < value(*n) && value(*n)
                    % small_primes()[j] != 0,
    {
        let p = from_u8(primes[i]);
        assert(value(p) == small_primes()[i as int]);
        if greater(&p, n) {
            proof {
                lemma_trial_division_is_exact(value(*n));
            }
            return true;
        }
        if equal(n, &p) {
            proof {
                lemma_trial_division_is_exact(value(*n));
            }
            return false;
        }
        if equal(&remainder(n, &p), &zero) {
            proof {
                lemma_trial_division_is_exact(value(*n));
            }
            return true;
        }
    }
    assert(small_primes()[9] < value(*n));
    let one = from_u8(1);
    for k in 0..d
        invariant
            value(one) == 1,
            value(*n) > 29,
            k > 0 ==> exists|a: nat| 1 <= a < value(*n) && !#[trigger] is_witness(a, value(*n)),
    {
        let a = draw_between(&mut rng, &one, n);
        if witness(&a, n) {
            proof {
                if is_prime(value(*n)) {
                    lemma_small_mod(value(a), value(*n));
                    lemma_prime_has_no_witness(value(*n), value(a));
                }
            }
            return true;
        }
    }
    false
}

/// Whether `n` is prime, up to a one-sided error: the negation of
/// [`composite`]. A `false` is certain; a `true` for a composite `n` needs
/// every one of the `confidence` random bases to miss.
pub fn is_probably_prime(n: &BigUint, confidence: u64) -> (r: bool)
    ensures
        // A prime always passes.
        is_prime(value(*n)) ==> r,
        // Where trial division decides, the verdict is exact.
        settled_by_table(value(*n)) ==> r == is_prime(value(*n)),
        settled_by_table(value(*n)) ==> r == is_small_prime(value(*n)),
        is_small_prime(value(*n)) ==> r,
        has_proper_small_factor(value(*n)) ==> !r,
        // Beyond the table the verdict rests on the bases that were drawn.
        !settled_by_table(value(*n)) && confidence == 0 ==> r,
        !settled_by_table(value(*n)) && !r ==> exists|a: nat|
            1 <= a < value(*n) && #[trigger] is_witness(a, value(*n)),
        !settled_by_table(value(*n)) && r && confidence > 0 ==> exists|a: nat|
            1 <= a < value(*n) && !#[trigger] is_witness(a, value(*n)),
{
    !composite(n, confidence)
}

} // verus!
