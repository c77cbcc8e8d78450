//! Divisibility, primes and modular powers over the mathematical integers.

use vstd::arithmetic::div_mod::{
    lemma_fundamental_div_mod, lemma_mod_equivalence, lemma_mod_multiples_basic,
    lemma_mul_mod_noop_general, lemma_small_mod,
};
use vstd::arithmetic::power::{lemma_pow0, lemma_pow1, lemma_pow_adds, lemma_pow_positive, pow};
use vstd::prelude::*;
use vstd::set_lib::{lemma_int_range, lemma_len_subset, set_int_range};

verus! {

/// `d` divides `n`.
pub open spec fn divides(d: nat, n: nat) -> bool {
    d != 0 && n % d == 0
}

/// `p` is at least two and has no divisor strictly between one and itself.
pub open spec fn is_prime(p: nat) -> bool {
    p >= 2 && forall|d: nat| 1 < d < p ==> !(#[trigger] divides(d, p))
}

/// `b` raised to `e`, reduced modulo `m`.
pub open spec fn mod_pow(b: nat, e: nat, m: nat) -> nat {
    (pow(b as int, e) % (m as int)) as nat
}

/// The first power is the base reduced.
pub proof fn lemma_mod_pow_one(b: nat, m: nat)
    requires
        m > 0,
    ensures
        mod_pow(b, 1, m) == b % m,
{
    lemma_pow1(b as int);
}

/// Squaring a modular power doubles the exponent.
pub proof fn lemma_mod_pow_double(b: nat, h: nat, m: nat)
    requires
        m > 0,
    ensures
        (mod_pow(b, h, m) * mod_pow(b, h, m)) % m == mod_pow(b, 2 * h, m),
{
    let x = pow(b as int, h);
    lemma_pow_adds(b as int, h, h);
    lemma_mul_mod_noop_general(x, x, m as int);
}

/// Multiplying a modular power by the base raises the exponent by one.
pub proof fn lemma_mod_pow_succ(b: nat, k: nat, m: nat)
    requires
        m > 0,
    ensures
        (mod_pow(b, k, m) * b) % m == mod_pow(b, k + 1, m),
{
    let x = pow(b as int, k);
    lemma_pow_adds(b as int, k, 1);
    lemma_pow1(b as int);
    lemma_mul_mod_noop_general(x, b as int, m as int);
}

/// Euclid's lemma: a prime that divides a product divides one of the factors.
pub proof fn lemma_prime_divides_product(p: nat, x: nat, y: nat)
    requires
        is_prime(p),
        (x * y) % p == 0,
    ensures
        x % p == 0 || y % p == 0,
    decreases x,
{
    let pi = p as int;
    if x == 0 {
        lemma_small_mod(0, p);
    } else if x % p == 0 {
    } else if x >= p {
        let r = x % p;
        lemma_mul_mod_noop_general(x as int, y as int, pi);
        assert((r * y) % p == 0);
        lemma_prime_divides_product(p, r, y);
        lemma_small_mod(r, p);
    } else if x == 1 {
        assert(x * y == y) by (nonlinear_arith)
            requires
                x == 1,
        ;
    } else {
        assert(!divides(x, p));
        let r = p % x;
        let q = p / x;
        lemma_fundamental_div_mod(pi, x as int);
        let k = (x * y) / p;
        lemma_fundamental_div_mod((x * y) as int, pi);
        assert(r * y == (y - q * k) * p) by (nonlinear_arith)
            requires
                p == x * q + r,
                x * y == p * k,
        ;
        lemma_mod_multiples_basic(y - q * k, pi);
        lemma_prime_divides_product(p, r, y);
        lemma_small_mod(r, p);
    }
}

/// Modulo a prime, one has no square roots besides one and minus one.
pub proof fn lemma_prime_roots_of_one(p: nat, x: nat)
    requires
        is_prime(p),
        x < p,
        (x * x) % p == 1,
    ensures
        x == 1 || x + 1 == p,
{
    if x == 0 {
        assert(x * x == 0) by (nonlinear_arith)
            requires
                x == 0,
        ;
        lemma_small_mod(0, p);
    } else {
        let u = (x - 1) as nat;
        let v = x + 1;
        let k = (x * x) / p;
        lemma_fundamental_div_mod((x * x) as int, p as int);
        assert(u * v == k * p) by (nonlinear_arith)
            requires
                u == x - 1,
                v == x + 1,
                x * x == p * k + 1,
        ;
        lemma_mod_multiples_basic(k as int, p as int);
        lemma_prime_divides_product(p, u, v);
        if u % p == 0 {
            lemma_small_mod(u, p);
        } else if v < p {
            lemma_small_mod(v, p);
        }
    }
}

/// The factorial of `n`.
spec fn factorial(n: nat) -> nat
    decreases n,
{
    if n == 0 {
        1
    } else {
        n * factorial((n - 1) as nat)
    }
}

/// The product of the entries of `s`.
spec fn seq_product(s: Seq<int>) -> int
    decreases s.len(),
{
    if s.len() == 0 {
        1
    } else {
        seq_product(s.drop_last()) * s.last()
    }
}

/// The first `n` multiples of `a`, each reduced modulo `p`.
spec fn multiples(a: int, p: int, n: nat) -> Seq<int> {
    Seq::new(n, |i: int| ((i + 1) * a) % p)
}

/// A prime does not divide the factorial of a smaller number.
proof fn lemma_factorial_not_multiple(p: nat, n: nat)
    requires
        is_prime(p),
        n < p,
    ensures
        factorial(n) % p != 0,
    decreases n,
{
    if n == 0 {
        lemma_small_mod(1, p);
    } else {
        lemma_factorial_not_multiple(p, (n - 1) as nat);
        if factorial(n) % p == 0 {
            lemma_prime_divides_product(p, n, factorial((n - 1) as nat));
            lemma_small_mod(n, p);
        }
    }
}

/// Any one entry can be pulled out of a product.
proof fn lemma_product_remove(s: Seq<int>, k: int)
    requires
        0 <= k < s.len(),
    ensures
        seq_product(s) == s[k] * seq_product(s.remove(k)),
    decreases s.len(),
{
    let front = s.drop_last();
    if k == s.len() - 1 {
        assert(s.remove(k) =~= front);
        assert(seq_product(front) * s.last() == s.last() * seq_product(front))
            by (nonlinear_arith);
    } else {
        lemma_product_remove(front, k);
        let rest = s.remove(k);
        assert(rest.drop_last() =~= front.remove(k));
        assert(rest.last() == s.last());
        let a = s[k];
        let b = seq_product(front.remove(k));
        let c = s.last();
        assert((a * b) * c == a * (b * c)) by (nonlinear_arith);
    }
}

/// A sequence that lists the numbers from `1` to `n`, each once and in any
/// order, multiplies out to the factorial of `n`.
proof fn lemma_product_of_permutation(s: Seq<int>, n: nat)
    requires
        s.len() == n,
        forall|i: int| 0 <= i < n ==> 1 <= #[trigger] s[i] <= n,
        forall|i: int, j: int| 0 <= i < j < n ==> s[i] != s[j],
    ensures
        seq_product(s) == factorial(n),
    decreases n,
{
    if n > 0 {
        assert(s.no_duplicates());
        if forall|i: int| 0 <= i < n ==> #[trigger] s[i] != n {
            let below = set_int_range(1, n as int);
            assert forall|x: int| s.to_set().contains(x) implies below.contains(x) by {
                let i = choose|i: int| 0 <= i < s.len() && s[i] == x;
                assert(1 <= s[i] <= n);
            }
            s.unique_seq_to_set();
            lemma_int_range(1, n as int);
            lemma_len_subset(s.to_set(), below);
            assert(false);
        }
        let k = choose|k: int| 0 <= k < n && #[trigger] s[k] == n;
        let rest = s.remove(k);
        assert forall|i: int| 0 <= i < n - 1 implies 1 <= #[trigger] rest[i] <= n - 1 by {
            if i < k {
                assert(rest[i] == s[i]);
            } else {
                assert(rest[i] == s[i + 1]);
            }
        }
        assert forall|i: int, j: int| 0 <= i < j < n - 1 implies rest[i] != rest[j] by {
            let si = if i < k { i } else { i + 1 };
            let sj = if j < k { j } else { j + 1 };
            assert(rest[i] == s[si] && rest[j] == s[sj]);
        }
        lemma_product_remove(s, k);
        lemma_product_of_permutation(rest, (n - 1) as nat);
    }
}

/// Up to a multiple of `p`, the first `n` multiples of `a` multiply out to
/// `a^n * n!`.
proof fn lemma_product_of_multiples(a: int, p: int, n: nat)
    requires
        p > 0,
    ensures
        seq_product(multiples(a, p, n)) % p == (pow(a, n) * factorial(n)) % p,
    decreases n,
{
    if n == 0 {
        lemma_pow0(a);
    } else {
        let m = (n - 1) as nat;
        let s = multiples(a, p, n);
        lemma_product_of_multiples(a, p, m);
        assert(s.drop_last() =~= multiples(a, p, m));
        let front = seq_product(multiples(a, p, m));
        let known = pow(a, m) * factorial(m);
        assert(s.last() == (n * a) % p);
        lemma_mul_mod_noop_general(front, n * a, p);
        lemma_mul_mod_noop_general(known, n * a, p);
        lemma_pow_adds(a, m, 1);
        lemma_pow1(a);
        assert(known * (n * a) == pow(a, n) * factorial(n)) by (nonlinear_arith)
            requires
                known == pow(a, m) * factorial(m),
                pow(a, n) == pow(a, m) * a,
                factorial(n) == n * factorial(m),
        ;
    }
}

/// Fermat's little theorem: for a prime `p` and a base that `p` does not
/// divide, the power `a^(p-1)` leaves remainder one.
pub proof fn lemma_fermat_little(p: nat, a: nat)
    requires
        is_prime(p),
        a % p != 0,
    ensures
        mod_pow(a, (p - 1) as nat, p) == 1,
{
    let n = (p - 1) as nat;
    let pi = p as int;
    let ai = a as int;
    let s = multiples(ai, pi, n);
    if a == 0 {
        lemma_small_mod(0, p);
    }
    assert forall|i: int| 0 <= i < n implies 1 <= #[trigger] s[i] <= n by {
        if s[i] == 0 {
            lemma_prime_divides_product(p, (i + 1) as nat, a);
            lemma_small_mod((i + 1) as nat, p);
        }
    }
    assert forall|i: int, j: int| 0 <= i < j < n implies s[i] != s[j] by {
        if s[i] == s[j] {
            lemma_mod_equivalence((j + 1) * ai, (i + 1) * ai, pi);
            assert((j + 1) * ai - (i + 1) * ai == (j - i) * ai) by (nonlinear_arith);
            lemma_prime_divides_product(p, (j - i) as nat, a);
            lemma_small_mod((j - i) as nat, p);
        }
    }
    lemma_product_of_permutation(s, n);
    lemma_product_of_multiples(ai, pi, n);
    let f = factorial(n);
    let w = pow(ai, n);
    lemma_pow_positive(ai, n);
    lemma_mod_equivalence(w * f, f as int, pi);
    assert(w * f - f == f * (w - 1)) by (nonlinear_arith);
    lemma_prime_divides_product(p, f, (w - 1) as nat);
    lemma_factorial_not_multiple(p, n);
    lemma_mod_equivalence(w, 1, pi);
    lemma_small_mod(1, p);
}

/// A proper divisor of `n` fails Fermat's test: no power of it with a
/// positive exponent leaves remainder one modulo `n`.
pub proof fn lemma_divisor_power_is_not_one(n: nat, d: nat, e: nat)
    requires
        1 < d < n,
        divides(d, n),
        e > 0,
    ensures
        mod_pow(d, e, n) != 1,
{
    let di = d as int;
    let w = pow(di, e);
    if w % (n as int) == 1 {
        let rest = pow(di, (e - 1) as nat);
        lemma_pow_adds(di, 1, (e - 1) as nat);
        lemma_pow1(di);
        let q = w / (n as int);
        let c = n / d;
        lemma_fundamental_div_mod(w, n as int);
        lemma_fundamental_div_mod(n as int, di);
        assert(false) by (nonlinear_arith)
            requires
                w == di * rest,
                w == n * q + 1,
                n == di * c,
                di > 1,
        {
            assert(di * (rest - c * q) == 1);
        }
    }
}

} // verus!
