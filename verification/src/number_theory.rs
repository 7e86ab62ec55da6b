//! Number theory behind the signature schemes: primality, greatest common
//! divisors, Euclid's lemma, binomial coefficients and Fermat's little
//! theorem, and the modular inverse computed by the extended Euclidean
//! algorithm.

use vstd::prelude::*;
use vstd::arithmetic::div_mod::*;
use vstd::arithmetic::mul::*;
use vstd::arithmetic::power::*;

verus! {

/// `n` is a prime number: at least 2, with no divisor strictly between 1 and `n`.
pub open spec fn is_prime_spec(n: int) -> bool {
    &&& n >= 2
    &&& forall|d: int| 2 <= d < n ==> #[trigger] (n % d) != 0
}

/// A number with no divisor in `[2, i)` and `i * i > n` is prime.
pub proof fn lemma_prime_by_trial_division(n: int, i: int)
    requires
        n >= 2,
        i >= 2,
        i * i > n,
        forall|d: int| 2 <= d < i ==> #[trigger] (n % d) != 0,
    ensures
        is_prime_spec(n),
{
    assert forall|d: int| 2 <= d < n implies #[trigger] (n % d) != 0 by {
        if d < i {
        } else if n % d == 0 {
            let e = n / d;
            lemma_fundamental_div_mod(n, d);
            assert(n == d * e);
            assert(e >= 1) by (nonlinear_arith)
                requires n == d * e, n >= 2, d >= 2;
            assert(e >= 2) by (nonlinear_arith)
                requires n == d * e, d < n, e >= 1;
            assert(e < i) by (nonlinear_arith)
                requires n == d * e, d >= i, i * i > n, i >= 2, e >= 1;
            assert(n % e == 0) by {
                lemma_mod_multiples_basic(d, e);
                lemma_mul_is_commutative(d, e);
            }
            assert((n % e) != 0);
        }
    }
}

/// If `k * m` divides `n` then `k` divides `n`.
pub proof fn lemma_divides_factor(n: int, k: int, m: int)
    requires
        k > 0,
        m > 0,
        n % (k * m) == 0,
    ensures
        n % k == 0,
{
    lemma_mul_strictly_positive(k, m);
    lemma_fundamental_div_mod(n, k * m);
    let q = n / (k * m);
    assert(n == (k * m) * q);
    lemma_mul_is_associative(k, m, q);
    lemma_mul_is_commutative(k, m * q);
    lemma_mod_multiples_basic(m * q, k);
}


/// If `m` divides `x` and `y`, it divides `x - q * y`.
pub proof fn lemma_divides_linear(x: int, y: int, q: int, m: int)
    requires
        m > 0,
        x % m == 0,
        y % m == 0,
    ensures
        (x - q * y) % m == 0,
{
    lemma_fundamental_div_mod(x, m);
    lemma_fundamental_div_mod(y, m);
    let kx = x / m;
    let ky = y / m;
    assert(x - q * y == m * (kx - q * ky)) by {
        lemma_mul_is_associative(q, m, ky);
        lemma_mul_is_commutative(q, m);
        lemma_mul_is_associative(m, q, ky);
        lemma_mul_is_distributive_sub(m, kx, q * ky);
    }
    lemma_mod_multiples_basic(kx - q * ky, m);
    lemma_mul_is_commutative(kx - q * ky, m);
}

/// `x % m == y % m` exactly when `m` divides `x - y`.
pub proof fn lemma_mod_eq_iff_divides_diff(x: int, y: int, m: int)
    requires
        m > 0,
    ensures
        (x % m == y % m) <==> ((x - y) % m == 0),
{
    lemma_sub_mod_noop(x, y, m);
    lemma_mod_bound(x, m);
    lemma_mod_bound(y, m);
    let d = x % m - y % m;
    if x % m == y % m {
        assert(d == 0);
        lemma_small_mod(0, m as nat);
    } else {
        assert(-m < d < m && d != 0);
        if d > 0 {
            lemma_small_mod(d as nat, m as nat);
        } else {
            lemma_fundamental_div_mod_converse_mod(d, m, -1, d + m);
        }
    }
}

// ---------------------------------------------------------------------------
// Greatest common divisor
// ---------------------------------------------------------------------------

/// Greatest common divisor, by Euclid's recursion.
pub open spec fn gcd_spec(a: nat, b: nat) -> nat
    decreases b,
{
    if b == 0 {
        a
    } else {
        gcd_spec(b, a % b)
    }
}

/// The gcd divides both of its arguments.
pub proof fn lemma_gcd_divides(a: nat, b: nat)
    requires
        a > 0 || b > 0,
    ensures
        gcd_spec(a, b) > 0,
        (a as int) % (gcd_spec(a, b) as int) == 0,
        (b as int) % (gcd_spec(a, b) as int) == 0,
    decreases b,
{
    if b == 0 {
        lemma_mod_self_0(a as int);
        lemma_small_mod(0, a);
    } else {
        lemma_gcd_divides(b, a % b);
        let g = gcd_spec(a, b) as int;
        lemma_fundamental_div_mod(a as int, b as int);
        let q = (a / b) as int;
        // a = b * q + (a % b)
        assert((a % b) as int - (-q) * (b as int) == a as int) by {
            lemma_mul_unary_negation(q, b as int);
            lemma_mul_is_commutative(q, b as int);
        }
        lemma_divides_linear((a % b) as int, b as int, -q, g);
    }
}

/// Every common divisor of `a` and `b` divides their gcd.
pub proof fn lemma_common_divisor_divides_gcd(a: nat, b: nat, d: int)
    requires
        d > 0,
        (a as int) % d == 0,
        (b as int) % d == 0,
    ensures
        (gcd_spec(a, b) as int) % d == 0,
    decreases b,
{
    if b > 0 {
        lemma_fundamental_div_mod(a as int, b as int);
        let q = (a / b) as int;
        assert((a % b) as int == a as int - q * (b as int)) by {
            lemma_mul_is_commutative(q, b as int);
        }
        lemma_divides_linear(a as int, b as int, q, d);
        lemma_common_divisor_divides_gcd(b, a % b, d);
    }
}

// ---------------------------------------------------------------------------
// Euclid's lemma
// ---------------------------------------------------------------------------

/// Euclid's lemma for a factor already reduced below `p`.
proof fn lemma_euclid_reduced(a: int, b: int, p: int)
    requires
        is_prime_spec(p),
        0 < a < p,
        b >= 0,
        (a * b) % p == 0,
    ensures
        b % p == 0,
    decreases a,
{
    if a == 1 {
        assert(a * b == b);
    } else {
        let q = p / a;
        let r = p % a;
        assert(p % a != 0);
        lemma_mod_bound(p, a);
        lemma_fundamental_div_mod(p, a);
        assert(p == a * q + r);
        assert(r * b == p * b - q * (a * b)) by {
            lemma_mul_is_distributive_sub_other_way(b, p, a * q);
            lemma_mul_is_associative(a, q, b);
            lemma_mul_is_commutative(a, q);
            lemma_mul_is_associative(q, a, b);
        }
        assert((p * b) % p == 0) by {
            lemma_mod_multiples_basic(b, p);
            lemma_mul_is_commutative(p, b);
        }
        lemma_divides_linear(p * b, a * b, q, p);
        lemma_mul_nonnegative(r, b);
        lemma_euclid_reduced(r, b, p);
    }
}

/// Euclid's lemma: a prime dividing a product of naturals divides a factor.
pub proof fn lemma_euclid(a: int, b: int, p: int)
    requires
        is_prime_spec(p),
        a >= 0,
        b >= 0,
        (a * b) % p == 0,
    ensures
        a % p == 0 || b % p == 0,
{
    if a % p != 0 {
        lemma_mod_bound(a, p);
        lemma_mul_mod_noop_left(a, b, p);
        lemma_euclid_reduced(a % p, b, p);
    }
}

/// A prime that divides no factor does not divide a power.
pub proof fn lemma_prime_not_divides_pow(a: int, n: nat, p: int)
    requires
        is_prime_spec(p),
        a >= 0,
        a % p != 0,
    ensures
        pow(a, n) % p != 0,
        pow(a, n) >= 0,
    decreases n,
{
    reveal(pow);
    if n == 0 {
        lemma_small_mod(1, p as nat);
    } else {
        lemma_prime_not_divides_pow(a, (n - 1) as nat, p);
        lemma_mul_nonnegative(a, pow(a, (n - 1) as nat));
        if (a * pow(a, (n - 1) as nat)) % p == 0 {
            lemma_euclid(a, pow(a, (n - 1) as nat), p);
        }
    }
}


// ---------------------------------------------------------------------------
// Binomial coefficients and Fermat's little theorem
// ---------------------------------------------------------------------------

/// Binomial coefficient `C(n, k)` by Pascal's rule.
pub open spec fn binom(n: nat, k: nat) -> nat
    decreases n,
{
    if k == 0 {
        1
    } else if n == 0 {
        0
    } else {
        binom((n - 1) as nat, (k - 1) as nat) + binom((n - 1) as nat, k)
    }
}

/// `sum_{i=0}^{k} C(n, i) * a^i`.
pub open spec fn binom_sum(n: nat, a: int, k: nat) -> int
    decreases k,
{
    if k == 0 {
        1
    } else {
        binom_sum(n, a, (k - 1) as nat) + binom(n, k) * pow(a, k)
    }
}

proof fn lemma_binom_above(n: nat, k: nat)
    requires
        k > n,
    ensures
        binom(n, k) == 0,
    decreases n,
{
    if n > 0 {
        lemma_binom_above((n - 1) as nat, (k - 1) as nat);
        lemma_binom_above((n - 1) as nat, k);
    }
}

proof fn lemma_binom_diag(n: nat)
    ensures
        binom(n, n) == 1,
    decreases n,
{
    if n > 0 {
        lemma_binom_diag((n - 1) as nat);
        lemma_binom_above((n - 1) as nat, n);
    }
}

proof fn lemma_binom_one(n: nat)
    ensures
        binom(n, 1) == n,
    decreases n,
{
    if n > 0 {
        lemma_binom_one((n - 1) as nat);
        assert(binom((n - 1) as nat, 0) == 1);
    }
}

/// Absorption: `k * C(n, k) == n * C(n - 1, k - 1)`.
proof fn lemma_binom_absorb(n: nat, k: nat)
    requires
        n >= 1,
        k >= 1,
    ensures
        k * binom(n, k) == n * binom((n - 1) as nat, (k - 1) as nat),
    decreases n,
{
    if k == 1 {
        lemma_binom_one(n);
        assert(binom((n - 1) as nat, 0) == 1);
    } else if n == 1 {
        lemma_binom_above(0, (k - 1) as nat);
        lemma_binom_above(0, k);
    } else {
        let c11 = binom((n - 1) as nat, (k - 1) as nat);
        let c10 = binom((n - 1) as nat, k);
        let c22 = binom((n - 2) as nat, (k - 2) as nat);
        let c21 = binom((n - 2) as nat, (k - 1) as nat);
        lemma_binom_absorb((n - 1) as nat, k);
        lemma_binom_absorb((n - 1) as nat, (k - 1) as nat);
        assert(binom(n, k) == c11 + c10);
        assert(c11 == c22 + c21);
        // k*c10 == (n-1)*c21, (k-1)*c11 == (n-1)*c22
        assert(k * binom(n, k) == n * c11) by (nonlinear_arith)
            requires
                binom(n, k) == c11 + c10,
                c11 == c22 + c21,
                k * c10 == (n - 1) * c21,
                (k - 1) * c11 == (n - 1) * c22,
        ;
    }
}

/// A prime `p` divides `C(p, k)` for `0 < k < p`.
proof fn lemma_prime_divides_binom(p: nat, k: nat)
    requires
        is_prime_spec(p as int),
        0 < k < p,
    ensures
        (binom(p, k) as int) % (p as int) == 0,
{
    lemma_binom_absorb(p, k);
    let c = binom((p - 1) as nat, (k - 1) as nat);
    assert(((k * binom(p, k)) as int) % (p as int) == 0) by {
        lemma_mod_multiples_basic(c as int, p as int);
        lemma_mul_is_commutative(p as int, c as int);
    }
    lemma_small_mod(k, p);
    lemma_euclid(k as int, binom(p, k) as int, p as int);
}

/// Pascal's rule on partial binomial sums.
proof fn lemma_binom_sum_step(n: nat, a: int, k: nat)
    requires
        k >= 1,
    ensures
        binom_sum(n + 1, a, k) == binom_sum(n, a, k) + a * binom_sum(n, a, (k - 1) as nat),
    decreases k,
{
    reveal_with_fuel(pow, 2);
    if k == 1 {
        lemma_pow1(a);
        assert(binom(n, 0) == 1);
        assert(binom(n + 1, 1) == binom(n, 0) + binom(n, 1));
        assert(binom_sum(n + 1, a, 0) == 1);
        assert(binom_sum(n, a, 0) == 1);
        assert(pow(a, 1) == a);
        assert(binom_sum(n + 1, a, 1) == 1 + (1 + binom(n, 1)) * a);
        assert(binom_sum(n, a, 1) == 1 + binom(n, 1) * a);
        assert((1 + binom(n, 1)) * a == a + binom(n, 1) * a) by (nonlinear_arith);
    } else {
        lemma_binom_sum_step(n, a, (k - 1) as nat);
        let km1 = (k - 1) as nat;
        let km2 = (k - 2) as nat;
        let pk = pow(a, k);
        let pk1 = pow(a, km1);
        assert(pk == a * pk1);
        let s1 = binom_sum(n, a, km1);
        let s2 = binom_sum(n, a, km2);
        let ck = binom(n, k);
        let ck1 = binom(n, km1);
        assert(binom(n + 1, k) == ck1 + ck);
        assert(binom_sum(n + 1, a, km1) == s1 + a * s2);
        assert(binom_sum(n, a, k) == s1 + ck * pk);
        assert(s1 == s2 + ck1 * pk1);
        assert(binom_sum(n + 1, a, k) == s1 + a * s2 + (ck1 + ck) * pk);
        assert(s1 + a * s2 + (ck1 + ck) * pk == (s1 + ck * pk) + a * s1) by (nonlinear_arith)
            requires
                pk == a * pk1,
                s1 == s2 + ck1 * pk1,
        ;
    }
}

proof fn lemma_binom_sum_full(n: nat, a: int, k: nat)
    requires
        k >= n,
    ensures
        binom_sum(n, a, k) == binom_sum(n, a, n),
    decreases k,
{
    if k > n {
        lemma_binom_above(n, k);
        lemma_binom_sum_full(n, a, (k - 1) as nat);
    }
}

/// The binomial theorem for `(a + 1)^n`.
proof fn lemma_binomial_theorem(n: nat, a: int)
    ensures
        pow(a + 1, n) == binom_sum(n, a, n),
    decreases n,
{
    reveal(pow);
    if n > 0 {
        let m = (n - 1) as nat;
        lemma_binomial_theorem(m, a);
        lemma_binom_sum_step(m, a, n);
        lemma_binom_sum_full(m, a, n);
        let s = binom_sum(m, a, m);
        assert(pow(a + 1, n) == (a + 1) * s);
        assert(binom_sum(n, a, n) == s + a * s);
        assert((a + 1) * s == s + a * s) by (nonlinear_arith);
    }
}

/// Modulo a prime, the inner terms of the binomial sum vanish.
proof fn lemma_binom_sum_mod_prime(p: nat, a: int, k: nat)
    requires
        is_prime_spec(p as int),
        a >= 0,
        k < p,
    ensures
        binom_sum(p, a, k) % (p as int) == 1,
    decreases k,
{
    let pi = p as int;
    if k == 0 {
        lemma_small_mod(1, p);
    } else {
        lemma_binom_sum_mod_prime(p, a, (k - 1) as nat);
        lemma_prime_divides_binom(p, k);
        let c = binom(p, k) as int;
        let t = c * pow(a, k);
        assert(t % pi == 0) by {
            lemma_mul_mod_noop_left(c, pow(a, k), pi);
            lemma_small_mod(0, p);
        }
        lemma_add_mod_noop(binom_sum(p, a, (k - 1) as nat), t, pi);
        lemma_small_mod(1, p);
    }
}

/// `a^p` is congruent to `a` modulo a prime `p`.
pub proof fn lemma_pow_prime_congruent(a: nat, p: nat)
    requires
        is_prime_spec(p as int),
    ensures
        pow(a as int, p) % (p as int) == (a as int) % (p as int),
    decreases a,
{
    let pi = p as int;
    if a == 0 {
        lemma0_pow(p);
    } else {
        let b = (a - 1) as nat;
        lemma_pow_prime_congruent(b, p);
        lemma_binomial_theorem(p, b as int);
        lemma_binom_sum_mod_prime(p, b as int, (p - 1) as nat);
        lemma_binom_diag(p);
        let s = binom_sum(p, b as int, (p - 1) as nat);
        assert(pow(a as int, p) == s + pow(b as int, p));
        lemma_add_mod_noop(s, pow(b as int, p), pi);
        lemma_add_mod_noop(1, b as int, pi);
        lemma_small_mod(1, p);
    }
}

/// Fermat's little theorem: `a^(p-1) ≡ 1 (mod p)` for a prime `p` not dividing `a`.
pub proof fn lemma_fermat_little(a: nat, p: nat)
    requires
        is_prime_spec(p as int),
        (a as int) % (p as int) != 0,
    ensures
        pow(a as int, (p - 1) as nat) % (p as int) == 1,
{
    let pi = p as int;
    let ai = a as int;
    let e = pow(ai, (p - 1) as nat);
    lemma_pow_prime_congruent(a, p);
    lemma_pow_adds(ai, 1, (p - 1) as nat);
    lemma_pow1(ai);
    assert(pow(ai, p) == ai * e);
    lemma_prime_not_divides_pow(ai, (p - 1) as nat, p as int);
    // p divides a * (e - 1)
    lemma_mod_eq_iff_divides_diff(ai * e, ai, pi);
    assert(ai * e - ai == ai * (e - 1)) by {
        lemma_mul_is_distributive_sub(ai, e, 1);
    }
    assert(e >= 1) by {
        if e == 0 {
            lemma_small_mod(0, p);
        }
    }
    lemma_euclid(ai, e - 1, pi);
    lemma_mod_eq_iff_divides_diff(e, 1, pi);
    lemma_small_mod(1, p);
}


/// Fermat in the form used by RSA: `m^(1 + t * (p - 1)) ≡ m (mod p)` for every `m`.
pub proof fn lemma_pow_fermat_shift(m: nat, t: nat, p: nat)
    requires
        is_prime_spec(p as int),
    ensures
        pow(m as int, 1 + t * ((p - 1) as nat)) % (p as int) == (m as int) % (p as int),
{
    let pi = p as int;
    let mi = m as int;
    let j = t * ((p - 1) as nat);
    lemma_pow_adds(mi, 1, j);
    lemma_pow1(mi);
    let x = pow(mi, j);
    assert(pow(mi, 1 + j) == mi * x);
    if mi % pi == 0 {
        lemma_mul_mod_noop_left(mi, x, pi);
        lemma_small_mod(0, p);
    } else {
        lemma_fermat_little(m, p);
        lemma_pow_multiplies(mi, (p - 1) as nat, t);
        lemma_mul_is_commutative(t as int, (p - 1) as int);
        assert(x == pow(pow(mi, (p - 1) as nat), t));
        lemma_pow_mod_noop(pow(mi, (p - 1) as nat), t, pi);
        lemma1_pow(t);
        lemma_small_mod(1, p);
        assert(x % pi == 1);
        lemma_mul_mod_noop_right(mi, x, pi);
    }
}

/// If `g^q ≡ 1 (mod p)`, exponents of `g` only matter modulo `q`.
pub proof fn lemma_pow_reduce_exponent(g: int, a: nat, p: int, q: nat)
    requires
        p > 1,
        q > 0,
        pow(g, q) % p == 1,
    ensures
        pow(g, a) % p == pow(g, a % q) % p,
{
    let t = a / q;
    let r = a % q;
    lemma_fundamental_div_mod(a as int, q as int);
    lemma_pow_adds(g, r, q * t);
    lemma_pow_multiplies(g, q, t);
    assert(a == r + q * t);
    let big = pow(pow(g, q), t);
    lemma_pow_mod_noop(pow(g, q), t, p);
    lemma1_pow(t);
    lemma_small_mod(1, p as nat);
    assert(big % p == 1);
    lemma_mul_mod_noop_right(pow(g, r), big, p);
}

/// If `g^q ≡ 1 (mod p)`, exponents congruent modulo `q` give the same power.
pub proof fn lemma_pow_exponent_congruent(g: int, a: nat, b: nat, p: int, q: nat)
    requires
        p > 1,
        q > 0,
        pow(g, q) % p == 1,
        a % q == b % q,
    ensures
        pow(g, a) % p == pow(g, b) % p,
{
    lemma_pow_reduce_exponent(g, a, p, q);
    lemma_pow_reduce_exponent(g, b, p, q);
}

/// A number divisible by two distinct primes is divisible by their product.
pub proof fn lemma_divisible_by_two_primes(x: int, p: int, q: int)
    requires
        is_prime_spec(p),
        is_prime_spec(q),
        p != q,
        x >= 0,
        x % p == 0,
        x % q == 0,
    ensures
        x % (p * q) == 0,
{
    lemma_fundamental_div_mod(x, p);
    let y = x / p;
    assert(x == p * y);
    lemma_div_pos_is_pos(x, p);
    assert(p % q != 0) by {
        if p > q {
        } else {
            lemma_small_mod(p as nat, q as nat);
        }
    }
    lemma_euclid(p, y, q);
    lemma_fundamental_div_mod(y, q);
    let z = y / q;
    assert(x == (p * q) * z) by {
        lemma_mul_is_associative(p, q, z);
    }
    lemma_mul_strictly_positive(p, q);
    lemma_mod_multiples_basic(z, p * q);
    lemma_mul_is_commutative(z, p * q);
}

/// The RSA identity: for distinct primes `p, q` and `e * d ≡ 1` modulo
/// `(p - 1) * (q - 1)`, `m^(e * d) ≡ m (mod p * q)` for every `m`.
pub proof fn lemma_rsa_exponent(m: nat, p: nat, q: nat, ed: nat)
    requires
        is_prime_spec(p as int),
        is_prime_spec(q as int),
        p != q,
        (ed as int) % (((p - 1) * (q - 1)) as int) == 1int % (((p - 1) * (q - 1)) as int),
    ensures
        pow(m as int, ed) % ((p * q) as int) == (m as int) % ((p * q) as int),
{
    let p1 = (p - 1) as nat;
    let q1 = (q - 1) as nat;
    let phi = p1 * q1;
    assert(phi >= 2) by (nonlinear_arith)
        requires p1 >= 1, q1 >= 1, p1 != q1, phi == p1 * q1;
    lemma_small_mod(1, phi);
    lemma_fundamental_div_mod(ed as int, phi as int);
    let k = ed / phi;
    assert(ed == 1 + (k * q1) * p1) by {
        lemma_mul_is_associative(k as int, q1 as int, p1 as int);
        lemma_mul_is_commutative(q1 as int, p1 as int);
        lemma_mul_is_commutative(phi as int, k as int);
    }
    assert(ed == 1 + (k * p1) * q1) by {
        lemma_mul_is_associative(k as int, p1 as int, q1 as int);
        lemma_mul_is_commutative(phi as int, k as int);
    }
    assert(ed >= 1);
    lemma_pow_fermat_shift(m, k * q1, p);
    lemma_pow_fermat_shift(m, k * p1, q);
    let x = pow(m as int, ed) - m as int;
    lemma_mod_eq_iff_divides_diff(pow(m as int, ed), m as int, p as int);
    lemma_mod_eq_iff_divides_diff(pow(m as int, ed), m as int, q as int);
    assert(x >= 0) by {
        if m == 0 {
            lemma0_pow(ed);
        } else {
            lemma_pow_increases(m, 1, ed);
            lemma_pow1(m as int);
        }
    }
    lemma_divisible_by_two_primes(x, p as int, q as int);
    lemma_mul_strictly_positive(p as int, q as int);
    lemma_mod_eq_iff_divides_diff(pow(m as int, ed), m as int, (p * q) as int);
}

// ---------------------------------------------------------------------------
// Modular inverse
// ---------------------------------------------------------------------------

/// Absolute value.
pub open spec fn abs_int(x: int) -> int {
    if x < 0 {
        -x
    } else {
        x
    }
}

/// The Bezout coefficients of the extended Euclidean algorithm keep
/// `|s| * old_r + |old_s| * r == m` and alternate in sign.
proof fn lemma_ext_euclid_step(old_r: int, r: int, old_s: int, s: int, m: int)
    requires
        r > 0,
        old_r >= 0,
        abs_int(s) * old_r + abs_int(old_s) * r == m,
        (old_s >= 0 && s <= 0) || (old_s <= 0 && s >= 0),
    ensures
        ({
            let q = old_r / r;
            let ns = old_s - q * s;
            let nr = old_r - q * r;
            &&& 0 <= nr < r
            &&& nr == old_r % r
            &&& q >= 0
            &&& abs_int(ns) * r + abs_int(s) * nr == m
            &&& (s >= 0 && ns <= 0) || (s <= 0 && ns >= 0)
            &&& abs_int(ns) <= m
            &&& abs_int(q * s) <= m
        }),
{
    let q = old_r / r;
    let ns = old_s - q * s;
    let nr = old_r - q * r;
    lemma_fundamental_div_mod(old_r, r);
    lemma_mod_bound(old_r, r);
    lemma_div_pos_is_pos(old_r, r);
    let a_s = abs_int(s);
    let a_o = abs_int(old_s);
    let qs = q * s;
    assert(abs_int(qs) == q * a_s) by {
        if s < 0 {
            lemma_mul_unary_negation(q, -s);
            lemma_mul_nonnegative(q, -s);
        } else {
            lemma_mul_nonnegative(q, s);
        }
    }
    assert(abs_int(ns) == a_o + q * a_s) by {
        lemma_mul_nonnegative(q, a_s);
        if old_s >= 0 && s <= 0 {
            lemma_mul_unary_negation(q, -s);
        } else {
            lemma_mul_nonnegative(q, s);
        }
    }
    assert(nr == old_r % r) by {
        lemma_mul_is_commutative(q, r);
    }
    assert(abs_int(ns) * r + a_s * nr == m) by (nonlinear_arith)
        requires
            abs_int(ns) == a_o + q * a_s,
            nr == old_r - q * r,
            a_s * old_r + a_o * r == m,
    ;
    assert(abs_int(ns) <= m) by (nonlinear_arith)
        requires
            abs_int(ns) * r + a_s * nr == m,
            a_s >= 0,
            nr >= 0,
            r >= 1,
            abs_int(ns) >= 0,
    ;
    assert(q * a_s <= abs_int(ns)) by {
        assert(a_o >= 0);
    }
    if old_s >= 0 && s <= 0 {
        lemma_mul_nonnegative(q, -s);
        lemma_mul_unary_negation(q, -s);
        assert(ns >= 0);
    } else {
        lemma_mul_nonnegative(q, s);
        assert(ns <= 0);
    }
}

/// The inverse of `a` modulo `m`: the `x` in `[0, m)` with `a * x ≡ 1 (mod m)`.
/// It exists and is unique when `m > 0` and `gcd(a, m) == 1`.
pub open spec fn inverse_spec(a: int, m: int) -> int {
    choose|x: int| #[trigger] is_inverse_below(a, m, x)
}

/// `x` is in `[0, m)` and `a * x ≡ 1 (mod m)`.
pub open spec fn is_inverse_below(a: int, m: int, x: int) -> bool {
    0 <= x < m && (a * x) % m == 1int % m
}

/// Compute the modular inverse of `a` modulo `m` with the extended Euclidean
/// algorithm.
///
/// Returns `Some(x)` with `x < m` and `a * x ≡ 1 (mod m)` exactly when
/// `gcd(a, m) == 1`; such an `x` is unique (see `lemma_mod_inverse_unique`).
pub fn mod_inverse(a: u64, m: u64) -> (res: Option<u64>)
    requires
        m != 0 || a != 1,
    ensures
        res is Some <==> gcd_spec(a as nat, m as nat) == 1,
        res matches Some(x) ==> m > 0 && x < m && ((a as int) * (x as int)) % (m as int) == 1int
            % (m as int),
        res matches Some(x) ==> x == inverse_spec(a as int, m as int),
{
    let mut old_r: u64 = a;
    let mut r: u64 = m;
    let mut old_s: i128 = 1;
    let mut s: i128 = 0;
    proof {
        assert(abs_int(s as int) == 0);
        assert(abs_int(s as int) * (old_r as int) == 0);
        assert(abs_int(old_s as int) == 1);
        assert(abs_int(old_s as int) * (r as int) == m as int);
        if m > 0 {
            lemma_small_mod(0, m as nat);
            assert((1 * (a as int) - (a as int)) % (m as int) == 0);
            assert((0 * (a as int) - (m as int)) % (m as int) == 0) by {
                lemma_mod_multiples_basic(-1, m as int);
            }
        }
    }
    while r != 0
        invariant
            gcd_spec(old_r as nat, r as nat) == gcd_spec(a as nat, m as nat),
            abs_int(s as int) * (old_r as int) + abs_int(old_s as int) * (r as int) == m as int,
            (old_s >= 0 && s <= 0) || (old_s <= 0 && s >= 0),
            abs_int(s as int) <= m,
            abs_int(old_s as int) <= m || old_s == 1,
            m > 0 ==> ((old_s as int) * (a as int) - (old_r as int)) % (m as int) == 0,
            m > 0 ==> ((s as int) * (a as int) - (r as int)) % (m as int) == 0,
            m == 0 ==> old_r == a && old_s == 1,
            r > 0 ==> m > 0,
        decreases r,
    {
        proof {
            lemma_ext_euclid_step(old_r as int, r as int, old_s as int, s as int, m as int);
        }
        let q = old_r / r;
        let ghost qi = q as int;
        assert(q * r <= old_r) by {
            lemma_fundamental_div_mod(old_r as int, r as int);
            lemma_mod_bound(old_r as int, r as int);
            lemma_mul_is_commutative(q as int, r as int);
        }
        let new_r = old_r - q * r;
        let new_s = old_s - (q as i128) * s;
        proof {
            lemma_divides_linear(
                (old_s as int) * (a as int) - (old_r as int),
                (s as int) * (a as int) - (r as int),
                qi,
                m as int,
            );
            assert(((new_s as int) * (a as int) - (new_r as int)) == ((old_s as int) * (a as int)
                - (old_r as int)) - qi * ((s as int) * (a as int) - (r as int))) by (nonlinear_arith)
                requires
                    new_s == old_s - qi * s,
                    new_r == old_r - qi * r,
            ;
        }
        old_r = r;
        r = new_r;
        old_s = s;
        s = new_s;
    }
    if old_r != 1 {
        return None;
    }
    // Here m > 0 and old_s * a ≡ 1 (mod m); reduce old_s into [0, m).
    let mu = m as u128;
    let x: u64 = if old_s >= 0 {
        ((old_s as u128) % mu) as u64
    } else {
        let t = ((-old_s) as u128) % mu;
        if t == 0 {
            0
        } else {
            (mu - t) as u64
        }
    };
    proof {
        let mi = m as int;
        let si = old_s as int;
        assert(x as int == si % mi) by {
            if si < 0 {
                let u = -si;
                lemma_fundamental_div_mod(u, mi);
                lemma_mod_bound(u, mi);
                let t = u % mi;
                let k = u / mi;
                assert(si == (-k) * mi - t) by {
                    lemma_mul_unary_negation(k, mi);
                    lemma_mul_is_commutative(k, mi);
                }
                assert(si == (-k - 1) * mi + (mi - t)) by {
                    lemma_mul_is_distributive_sub_other_way(mi, -k, 1);
                }
                if t == 0 {
                    lemma_fundamental_div_mod_converse_mod(si, mi, -(u / mi), 0);
                } else {
                    lemma_fundamental_div_mod_converse_mod(si, mi, -(u / mi) - 1, mi - t);
                }
            }
        }
        lemma_mod_bound(si, mi);
        lemma_mul_mod_noop_right(a as int, si, mi);
        lemma_mul_is_commutative(si, a as int);
        lemma_mod_eq_iff_divides_diff((a as int) * si, 1, mi);
        lemma_inverse_spec_is(a as nat, m as nat, x as nat);
    }
    Some(x)
}

/// The inverse of `a` modulo `m` below `m` is unique when `gcd(a, m) == 1`.
pub proof fn lemma_mod_inverse_unique(a: nat, m: nat, x: nat, y: nat)
    requires
        m > 0,
        gcd_spec(a, m) == 1,
        x < m,
        y < m,
        ((a * x) as int) % (m as int) == 1int % (m as int),
        ((a * y) as int) % (m as int) == 1int % (m as int),
    ensures
        x == y,
{
    let mi = m as int;
    lemma_mod_eq_iff_divides_diff((a * x) as int, (a * y) as int, mi);
    assert((a * x) as int - (a * y) as int == (a as int) * ((x as int) - (y as int))) by {
        lemma_mul_is_distributive_sub(a as int, x as int, y as int);
    }
    lemma_coprime_cancel(a as int, (x as int) - (y as int), m);
    // |x - y| < m and m divides it, so x == y
    let d = (x as int) - (y as int);
    if d > 0 {
        lemma_small_mod(d as nat, m);
    } else if d < 0 {
        lemma_fundamental_div_mod_converse_mod(d, mi, -1, d + mi);
    }
}

/// Any inverse below `m` is the one `inverse_spec` names.
pub proof fn lemma_inverse_spec_is(a: nat, m: nat, x: nat)
    requires
        m > 0,
        gcd_spec(a, m) == 1,
        x < m,
        ((a * x) as int) % (m as int) == 1int % (m as int),
    ensures
        inverse_spec(a as int, m as int) == x as int,
{
    let y = inverse_spec(a as int, m as int);
    assert(is_inverse_below(a as int, m as int, x as int));
    assert(is_inverse_below(a as int, m as int, y));
    lemma_mod_inverse_unique(a, m, x, y as nat);
}

/// When `gcd(a, m) == 1` (and `m > 0`), `inverse_spec` is an inverse below `m`.
pub proof fn lemma_inverse_spec_exists(a: nat, m: nat)
    requires
        m > 0,
        gcd_spec(a, m) == 1,
    ensures
        0 <= inverse_spec(a as int, m as int) < m,
        ((a as int) * inverse_spec(a as int, m as int)) % (m as int) == 1int % (m as int),
{
    let (u, v) = lemma_bezout(a, m);
    let mi = m as int;
    let x = u % mi;
    lemma_mod_bound(u, mi);
    lemma_mul_mod_noop_right(a as int, u, mi);
    assert((a as int) * u == 1 - v * mi) by {
        lemma_mul_is_commutative(a as int, u);
    }
    assert((1 - v * mi) % mi == 1int % mi) by {
        lemma_mod_multiples_vanish(-v, 1, mi);
        lemma_mul_unary_negation(v, mi);
        lemma_mul_is_commutative(mi, -v);
    }
    assert(is_inverse_below(a as int, mi, x));
}

/// If `gcd(a, m) == 1` and `m` divides `a * d`, then `m` divides `d`.
pub proof fn lemma_coprime_cancel(a: int, d: int, m: nat)
    requires
        m > 0,
        a >= 0,
        gcd_spec(a as nat, m) == 1,
        (a * d) % (m as int) == 0,
    ensures
        d % (m as int) == 0,
{
    let (u, v) = lemma_bezout(a as nat, m);
    // u * a + v * m == 1, so d == u * (a * d) + (v * d) * m
    let mi = m as int;
    assert(d == u * (a * d) + (v * d) * mi) by (nonlinear_arith)
        requires
            u * a + v * mi == 1,
    ;
    assert((u * (a * d)) % mi == 0) by {
        lemma_mul_mod_noop_right(u, a * d, mi);
        lemma_small_mod(0, m);
    }
    assert(((v * d) * mi) % mi == 0) by {
        lemma_mod_multiples_basic(v * d, mi);
    }
    lemma_divides_linear(u * (a * d), (v * d) * mi, -1, mi);
}

/// Bezout's identity: integers `u, v` with `u * a + v * b == gcd(a, b)`.
pub proof fn lemma_bezout(a: nat, b: nat) -> (uv: (int, int))
    ensures
        uv.0 * (a as int) + uv.1 * (b as int) == gcd_spec(a, b) as int,
    decreases b,
{
    if b == 0 {
        (1, 0)
    } else {
        let (u1, v1) = lemma_bezout(b, a % b);
        lemma_fundamental_div_mod(a as int, b as int);
        let q = (a / b) as int;
        // gcd == u1 * b + v1 * (a - q*b) == v1 * a + (u1 - v1 * q) * b
        assert(v1 * (a as int) + (u1 - v1 * q) * (b as int) == u1 * (b as int) + v1 * ((a % b) as int))
            by (nonlinear_arith)
            requires
                a as int == (b as int) * q + (a % b) as int,
        ;
        (v1, u1 - v1 * q)
    }
}

} // verus!
