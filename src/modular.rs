//! Facts about arithmetic modulo a prime.

use vstd::arithmetic::div_mod::*;
use vstd::arithmetic::power::*;
use vstd::prelude::*;

verus! {

/// `p` has no divisor strictly between one and itself.
pub open spec fn is_prime(p: int) -> bool {
    p >= 2 && forall|d: int| 1 < d < p ==> #[trigger] (p % d) != 0
}

/// Euclid's lemma, one factor reduced: a prime that divides `a * b`, where
/// `0 < a < p`, divides `b`.
pub proof fn lemma_prime_divides_factor(p: int, a: int, b: int)
    requires
        is_prime(p),
        0 < a < p,
        (a * b) % p == 0,
    ensures
        b % p == 0,
    decreases a,
{
    let q = p / a;
    let r = p % a;
    lemma_fundamental_div_mod(p, a);
    lemma_mod_bound(p, a);
    if r == 0 {
        assert(a == 1);
        assert(a * b == b) by (nonlinear_arith) requires a == 1;
    } else {
        let k = (a * b) / p;
        lemma_fundamental_div_mod(a * b, p);
        assert(r * b == (b - q * k) * p) by (nonlinear_arith)
            requires
                p == a * q + r,
                a * b == p * k + 0,
        ;
        lemma_mod_multiples_basic(b - q * k, p);
        lemma_prime_divides_factor(p, r, b);
    }
}

/// Euclid's lemma: a prime that divides a product divides one of its factors.
pub proof fn lemma_euclid(p: int, a: int, b: int)
    requires
        is_prime(p),
        (a * b) % p == 0,
    ensures
        a % p == 0 || b % p == 0,
{
    lemma_mod_bound(a, p);
    lemma_mod_bound(b, p);
    lemma_mul_mod_noop(a, b, p);
    if a % p != 0 {
        lemma_prime_divides_factor(p, a % p, b % p);
        lemma_mod_twice(b, p);
    }
}

/// A nonzero factor modulo a prime can be cancelled: `k * d == 0 (mod p)`
/// with `d != 0 (mod p)` forces `k == 0 (mod p)`.
pub proof fn lemma_cancel(p: int, k: int, d: int)
    requires
        is_prime(p),
        d % p != 0,
        (k * d) % p == 0,
    ensures
        k % p == 0,
{
    lemma_euclid(p, k, d);
}

/// The binomial coefficient `n choose k`, by Pascal's rule.
pub open spec fn binomial(n: nat, k: nat) -> nat
    decreases n,
{
    if k == 0 {
        1
    } else if n == 0 {
        0
    } else {
        binomial((n - 1) as nat, (k - 1) as nat) + binomial((n - 1) as nat, k)
    }
}

/// The first `k` terms of the expansion of `(x + 1)^n`: the sum of
/// `binomial(n, i) * x^i` for `i < k`.
pub open spec fn expansion(n: nat, x: int, k: nat) -> int
    decreases k,
{
    if k == 0 {
        0
    } else {
        expansion(n, x, (k - 1) as nat) + binomial(n, (k - 1) as nat) * pow(x, (k - 1) as nat)
    }
}

proof fn lemma_binomial_above(n: nat, k: nat)
    requires
        k > n,
    ensures
        binomial(n, k) == 0,
    decreases n,
{
    if n > 0 {
        lemma_binomial_above((n - 1) as nat, (k - 1) as nat);
        lemma_binomial_above((n - 1) as nat, k);
    }
}

proof fn lemma_binomial_diagonal(n: nat)
    ensures
        binomial(n, n) == 1,
    decreases n,
{
    if n > 0 {
        lemma_binomial_diagonal((n - 1) as nat);
        lemma_binomial_above((n - 1) as nat, n);
    }
}

/// Pascal's rule carried through the partial sums.
proof fn lemma_expansion_step(n: nat, x: int, k: nat)
    ensures
        expansion(n + 1, x, k + 1) == expansion(n, x, k + 1) + x * expansion(n, x, k),
    decreases k,
{
    reveal(pow);
    if k > 0 {
        let j = (k - 1) as nat;
        lemma_expansion_step(n, x, j);
        let e = expansion(n, x, j);
        let e1 = expansion(n + 1, x, k);
        let c0 = binomial(n, j) as int;
        let c1 = binomial(n, k) as int;
        let w = pow(x, j);
        assert(pow(x, k) == x * w);
        assert(binomial(n + 1, k) == c0 + c1);
        assert(expansion(n + 1, x, k + 1) == e1 + (c0 + c1) * pow(x, k));
        assert(expansion(n, x, k + 1) == expansion(n, x, k) + c1 * pow(x, k));
        assert(expansion(n, x, k) == e + c0 * w);
        assert(e1 == expansion(n, x, k) + x * e);
        assert(e1 + (c0 + c1) * (x * w) == (e + c0 * w + c1 * (x * w)) + x * (e + c0 * w))
            by (nonlinear_arith)
            requires
                e1 == e + c0 * w + x * e,
        ;
    } else {
        assert(pow(x, 0) == 1);
        assert(expansion(n + 1, x, 0) == 0);
        assert(expansion(n, x, 0) == 0);
        assert(binomial(n + 1, 0) == 1);
        assert(binomial(n, 0) == 1);
        assert(expansion(n + 1, x, 1) == 1);
        assert(expansion(n, x, 1) == 1);
    }
}

/// The binomial theorem for `(x + 1)^n`.
pub proof fn lemma_binomial_theorem(n: nat, x: int)
    ensures
        pow(x + 1, n) == expansion(n, x, n + 1),
    decreases n,
{
    reveal(pow);
    if n > 0 {
        let m = (n - 1) as nat;
        lemma_binomial_theorem(m, x);
        lemma_expansion_step(m, x, n);
        lemma_binomial_above(m, n);
        let e = expansion(m, x, n);
        assert(pow(x + 1, n) == (x + 1) * pow(x + 1, m));
        assert(expansion(m, x, n + 1) == e + binomial(m, n) * pow(x, n));
        assert(expansion(m, x, n + 1) == e);
        assert(expansion(n, x, n + 1) == e + x * e);
        assert((x + 1) * e == e + x * e) by (nonlinear_arith);
    } else {
        assert(expansion(0, x, 0) == 0);
        assert(binomial(0, 0) == 1);
        assert(expansion(0, x, 1) == 1);
    }
}

/// `k * binomial(n, k) == n * binomial(n - 1, k - 1)`.
proof fn lemma_absorption(n: nat, k: nat)
    requires
        n >= 1,
        k >= 1,
    ensures
        k * binomial(n, k) == n * binomial((n - 1) as nat, (k - 1) as nat),
    decreases n,
{
    if n == 1 {
        if k > 1 {
            lemma_binomial_above(0, (k - 1) as nat);
            lemma_binomial_above(0, k);
            assert(binomial(1, k) == 0);
        } else {
            assert(binomial(0, 0) == 1);
            assert(binomial(0, 1) == 0);
            assert(binomial(1, 1) == 1);
        }
    } else {
        let (n1, n2, k1) = ((n - 1) as nat, (n - 2) as nat, (k - 1) as nat);
        lemma_absorption(n1, k);
        assert(binomial(n, k) == binomial(n1, k1) + binomial(n1, k));
        if k == 1 {
            assert(binomial(n1, 0) == 1);
            assert(binomial(n2, 0) == 1);
            assert(k * binomial(n, k) == n * binomial(n1, k1)) by (nonlinear_arith)
                requires
                    k == 1,
                    k1 == 0,
                    binomial(n, k) == binomial(n1, k1) + binomial(n1, k),
                    k * binomial(n1, k) == n1 * binomial(n2, k1),
                    binomial(n1, k1) == 1,
                    binomial(n2, k1) == 1,
                    n1 == n - 1,
            ;
        } else {
            lemma_absorption(n1, k1);
            let k2 = (k - 2) as nat;
            assert(binomial(n1, k1) == binomial(n2, k2) + binomial(n2, k1));
            assert(k * binomial(n, k) == n * binomial(n1, k1)) by (nonlinear_arith)
                requires
                    binomial(n, k) == binomial(n1, k1) + binomial(n1, k),
                    k * binomial(n1, k) == n1 * binomial(n2, k1),
                    k1 * binomial(n1, k1) == n1 * binomial(n2, k2),
                    binomial(n1, k1) == binomial(n2, k2) + binomial(n2, k1),
                    k1 == k - 1,
                    n1 == n - 1,
            ;
        }
    }
}

/// A prime divides every binomial coefficient of its own row but the two ends.
proof fn lemma_prime_divides_binomial(p: int, k: nat)
    requires
        is_prime(p),
        0 < k < p,
    ensures
        binomial(p as nat, k) as int % p == 0,
{
    let c = binomial(p as nat, k) as int;
    let c1 = binomial((p - 1) as nat, (k - 1) as nat) as int;
    lemma_absorption(p as nat, k);
    assert(k * c == p * c1);
    assert(k * c == c1 * p) by (nonlinear_arith)
        requires
            k * c == p * c1,
    ;
    lemma_mod_multiples_basic(c1, p);
    lemma_prime_divides_factor(p, k as int, c);
}

/// All middle terms of `(x + 1)^p` vanish modulo `p`.
proof fn lemma_expansion_mod_prime(p: int, x: int, k: nat)
    requires
        is_prime(p),
        1 <= k <= p,
    ensures
        expansion(p as nat, x, k) % p == 1,
    decreases k,
{
    reveal(pow);
    if k == 1 {
        lemma_small_mod(1, p as nat);
    } else {
        let j = (k - 1) as nat;
        lemma_expansion_mod_prime(p, x, j);
        let c = binomial(p as nat, j) as int;
        lemma_prime_divides_binomial(p, j);
        lemma_fundamental_div_mod(c, p);
        let w = pow(x, j);
        assert(c * w == p * ((c / p) * w)) by (nonlinear_arith)
            requires
                c == p * (c / p) + 0,
        ;
        lemma_mod_multiples_vanish((c / p) * w, expansion(p as nat, x, j), p);
    }
}

/// `(x + 1)^p == x^p + 1 (mod p)` for a prime `p`.
proof fn lemma_power_of_successor(p: int, x: int)
    requires
        is_prime(p),
    ensures
        pow(x + 1, p as nat) % p == (pow(x, p as nat) + 1) % p,
{
    let e = expansion(p as nat, x, p as nat);
    lemma_binomial_theorem(p as nat, x);
    lemma_binomial_diagonal(p as nat);
    lemma_expansion_mod_prime(p, x, p as nat);
    assert(expansion(p as nat, x, p as nat + 1) == e + binomial(p as nat, p as nat) * pow(x, p as nat));
    assert(pow(x + 1, p as nat) == e + pow(x, p as nat));
    lemma_add_mod_noop(e, pow(x, p as nat), p);
    lemma_add_mod_noop(1, pow(x, p as nat), p);
    lemma_small_mod(1, p as nat);
}

/// Fermat's little theorem: `a^p == a (mod p)` for a prime `p`.
pub proof fn lemma_fermat(p: int, a: nat)
    requires
        is_prime(p),
    ensures
        pow(a as int, p as nat) % p == a as int % p,
    decreases a,
{
    if a == 0 {
        lemma0_pow(p as nat);
    } else {
        let b = (a - 1) as nat;
        lemma_fermat(p, b);
        lemma_power_of_successor(p, b as int);
        lemma_add_mod_noop(pow(b as int, p as nat), 1, p);
        lemma_add_mod_noop(b as int, 1, p);
    }
}

/// For a prime `p` that does not divide `n`, `n^(p-2) mod p` is the inverse of `n`.
pub proof fn lemma_fermat_inverse(p: int, n: int)
    requires
        is_prime(p),
        n % p != 0,
    ensures
        (n * (pow(n % p, (p - 2) as nat) % p)) % p == 1,
{
    let r = n % p;
    lemma_mod_bound(n, p);
    let y = pow(r, (p - 2) as nat);
    lemma_fermat(p, r as nat);
    lemma_small_mod(r as nat, p as nat);
    lemma_pow_adds(r, 1, (p - 2) as nat);
    lemma_pow_adds(r, 1, (p - 1) as nat);
    lemma_pow1(r);
    let z = pow(r, (p - 1) as nat);
    assert(z == r * y);
    assert(pow(r, p as nat) == r * z);
    // r * (z - 1) is a multiple of p
    lemma_sub_mod_noop(r * z, r, p);
    lemma_small_mod(0, p as nat);
    assert(r * (z - 1) == r * z - r) by (nonlinear_arith);
    lemma_prime_divides_factor(p, r, z - 1);
    lemma_add_mod_noop(z - 1, 1, p);
    lemma_small_mod(1, p as nat);
    assert(z % p == 1);
    lemma_mul_mod_noop_general(n, y, p);
}

/// A sum of multiples of two multiples of `p` is a multiple of `p`.
pub proof fn lemma_combination(p: int, u: int, v: int, s: int, t: int)
    requires
        p > 0,
        u % p == 0,
        v % p == 0,
    ensures
        (s * u + t * v) % p == 0,
{
    lemma_fundamental_div_mod(u, p);
    lemma_fundamental_div_mod(v, p);
    let (ku, kv) = (u / p, v / p);
    assert(s * u + t * v == (s * ku + t * kv) * p) by (nonlinear_arith)
        requires
            u == p * ku + 0,
            v == p * kv + 0,
    ;
    lemma_mod_multiples_basic(s * ku + t * kv, p);
}

/// Equal remainders mean the difference is a multiple.
pub proof fn lemma_difference_of_congruent(u: int, v: int, p: int)
    requires
        p > 0,
        u % p == v % p,
    ensures
        (u - v) % p == 0,
{
    lemma_sub_mod_noop(u, v, p);
    lemma_small_mod(0, p as nat);
}

/// A difference that is a multiple of `p` means equal remainders.
pub proof fn lemma_congruent(u: int, v: int, p: int)
    requires
        p > 0,
        (u - v) % p == 0,
    ensures
        u % p == v % p,
{
    lemma_add_mod_noop(v, u - v, p);
    lemma_mod_twice(v, p);
}

/// Taking the remainder changes a number by a multiple of `p`.
pub proof fn lemma_remainder_congruent(u: int, p: int)
    requires
        p > 0,
    ensures
        (u % p - u) % p == 0,
{
    lemma_mod_twice(u, p);
    lemma_difference_of_congruent(u % p, u, p);
}

} // verus!
