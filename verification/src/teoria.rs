//! Number theory behind RSA: divisibility, Euclid's algorithm and Bézout's
//! identity, Euclid's lemma, the binomial theorem, Fermat's little theorem and
//! the Chinese remainder step for two primes.
use crate::rsa::{abs, is_prime, spec_bezout_coef, spec_gcd};
use vstd::arithmetic::div_mod::*;
use vstd::arithmetic::power::*;
use vstd::prelude::*;

verus! {

// ------------------------------------------------------------------
// Divisibility
// ------------------------------------------------------------------

/// A common divisor of `x` and `y` divides `k * x + y`.
pub proof fn lemma_divides_linear(g: int, x: int, y: int, k: int)
    requires
        g > 0,
        x % g == 0,
        y % g == 0,
    ensures
        (k * x + y) % g == 0,
{
    lemma_fundamental_div_mod(x, g);
    lemma_fundamental_div_mod(y, g);
    let c = k * (x / g) + y / g;
    assert(k * x + y == c * g) by (nonlinear_arith)
        requires
            x == g * (x / g) + 0,
            y == g * (y / g) + 0,
            c == k * (x / g) + y / g,
    ;
    lemma_mod_multiples_basic(c, g);
}

/// A positive multiple of `g` is at least `g`.
pub proof fn lemma_divisor_le(g: nat, x: nat)
    requires
        g > 0,
        x > 0,
        x % g == 0,
    ensures
        g <= x,
{
    if g > x {
        lemma_small_mod(x, g);
    }
}

/// `x % m == 1 % m` whenever `m` divides `x - 1`.
pub proof fn lemma_congruent_one(x: int, m: int)
    requires
        m > 0,
        (x - 1) % m == 0,
    ensures
        x % m == 1int % m,
{
    lemma_fundamental_div_mod(x - 1, m);
    let c = (x - 1) / m;
    assert(x == c * m + 1) by (nonlinear_arith)
        requires
            x - 1 == m * c + 0,
    ;
    lemma_mod_multiples_vanish(c, 1, m);
    assert(m * c == c * m) by (nonlinear_arith);
}

// ------------------------------------------------------------------
// Euclid's algorithm
// ------------------------------------------------------------------

/// The greatest common divisor divides both numbers, and is zero only for two zeros.
pub proof fn lemma_gcd_divides(a: nat, b: nat)
    ensures
        spec_gcd(a, b) == 0 <==> (a == 0 && b == 0),
        spec_gcd(a, b) > 0 ==> a % spec_gcd(a, b) == 0 && b % spec_gcd(a, b) == 0,
    decreases b,
{
    if b == 0 {
        if a > 0 {
            lemma_mod_self_0(a as int);
        }
    } else {
        lemma_gcd_divides(b, a % b);
        let g = spec_gcd(b, a % b);
        assert(g > 0);
        lemma_fundamental_div_mod(a as int, b as int);
        lemma_divides_linear(g as int, b as int, (a % b) as int, (a / b) as int);
        assert((a / b) as int * b as int + (a % b) as int == a as int) by (nonlinear_arith)
            requires
                a as int == b as int * (a as int / b as int) + (a as int % b as int),
        ;
    }
}

/// Every common divisor of two numbers divides their greatest common divisor.
pub proof fn lemma_common_divisor_divides_gcd(a: nat, b: nat, d: nat)
    requires
        d > 0,
        a % d == 0,
        b % d == 0,
    ensures
        spec_gcd(a, b) % d == 0,
    decreases b,
{
    if b > 0 {
        lemma_fundamental_div_mod(a as int, b as int);
        lemma_divides_linear(d as int, b as int, a as int, -(a as int / b as int));
        assert(-(a as int / b as int) * b as int + a as int == (a % b) as int) by (nonlinear_arith)
            requires
                a as int == b as int * (a as int / b as int) + (a as int % b as int),
        ;
        lemma_common_divisor_divides_gcd(b, a % b, d);
    }
}

/// The greatest common divisor does not depend on the order of its arguments.
pub proof fn lemma_gcd_commutes(a: nat, b: nat)
    ensures
        spec_gcd(a, b) == spec_gcd(b, a),
{
    if a < b {
        lemma_small_mod(a, b);
        assert(spec_gcd(a, b) == spec_gcd(b, a % b));
    } else if a > b {
        lemma_small_mod(b, a);
        assert(spec_gcd(b, a) == spec_gcd(a, b % a));
    }
}

/// The coefficient of the extended Euclidean algorithm times `e` is congruent
/// to the greatest common divisor modulo `m`, when the invariant holds for the
/// starting pairs (Bézout's identity).
pub proof fn lemma_bezout_congruence(old_r: int, r: int, old_s: int, s: int, e: int, m: int)
    requires
        m > 0,
        old_r >= 0,
        r >= 0,
        (old_s * e - old_r) % m == 0,
        (s * e - r) % m == 0,
    ensures
        (spec_bezout_coef(old_r, r, old_s, s) * e - spec_gcd(old_r as nat, r as nat)) % m == 0,
    decreases r,
{
    if r > 0 {
        let q = old_r / r;
        lemma_fundamental_div_mod(old_r, r);
        lemma_mod_bound(old_r, r);
        let ns = old_s - q * s;
        let nr = old_r % r;
        assert(ns * e - nr == -q * (s * e - r) + (old_s * e - old_r)) by (nonlinear_arith)
            requires
                old_r == r * q + nr,
                ns == old_s - q * s,
        ;
        lemma_divides_linear(m, s * e - r, old_s * e - old_r, -q);
        lemma_bezout_congruence(r, nr, s, ns, e, m);
        assert((old_r as nat) % (r as nat) == nr as nat);
    }
}

/// Bézout's identity for the coefficient computed from `(phi, e)`.
pub proof fn lemma_bezout(e: nat, phi: nat)
    requires
        phi > 0,
    ensures
        (spec_bezout_coef(phi as int, e as int, 0, 1) * e - spec_gcd(e, phi)) % (phi as int) == 0,
{
    lemma_mod_self_0(phi as int);
    assert((0 * e as int - phi as int) == -1 * phi as int);
    lemma_mod_multiples_basic(-1, phi as int);
    assert((1 * e as int - e as int) == 0);
    lemma_bezout_congruence(phi as int, e as int, 0, 1, e as int, phi as int);
    lemma_gcd_commutes(e, phi);
}

/// The coefficient of the extended Euclidean algorithm stays within `phi`
/// (within 1 when `phi` is 0), and is negative only by at most `phi`.
pub proof fn lemma_bezout_coef_bound(old_r: int, r: int, old_s: int, s: int, phi: int)
    requires
        old_r >= 0,
        r >= 0,
        abs(s) * old_r + abs(old_s) * r == phi,
        old_s * s <= 0,
        abs(old_s) <= phi || abs(old_s) <= 1,
        abs(s) <= phi || abs(s) <= 1,
    ensures
        abs(spec_bezout_coef(old_r, r, old_s, s)) <= phi || abs(spec_bezout_coef(
            old_r,
            r,
            old_s,
            s,
        )) <= 1,
    decreases r,
{
    if r > 0 {
        crate::rsa::lemma_ext_euclid_step(old_r, r, old_s, s, phi);
        lemma_bezout_coef_bound(r, old_r % r, s, old_s - (old_r / r) * s, phi);
    }
}

// ------------------------------------------------------------------
// Primes
// ------------------------------------------------------------------

/// Euclid's lemma: a prime that divides a product divides one of its factors.
pub proof fn lemma_euclid(p: nat, a: nat, b: nat)
    requires
        is_prime(p),
        (a * b) % p == 0,
    ensures
        a % p == 0 || b % p == 0,
{
    if a % p != 0 {
        let g = spec_gcd(p, a);
        lemma_gcd_divides(p, a);
        lemma_divisor_le(g, p);
        if 1 < g && g < p {
            assert(p % g != 0);
        }
        assert(g == 1);
        lemma_bezout(a, p);
        lemma_gcd_commutes(a, p);
        let x = spec_bezout_coef(p as int, a as int, 0, 1);
        // (x * a - 1) * b and x * (a * b) are both multiples of p
        lemma_divides_linear(p as int, x * a - 1, 0, b as int);
        lemma_divides_linear(p as int, (a * b) as int, 0, x);
        assert(b as int == -1 * (b * (x * a - 1) + 0) + (x * (a * b) + 0)) by (nonlinear_arith);
        lemma_divides_linear(p as int, b * (x * a - 1) + 0, x * (a * b) + 0, -1);
    }
}


// ------------------------------------------------------------------
// The binomial theorem
// ------------------------------------------------------------------

/// The binomial coefficient "n choose k", by Pascal's rule.
pub open spec fn binom(n: nat, k: nat) -> nat
    decreases n,
{
    if k == 0 {
        1
    } else if n == 0 {
        0
    } else {
        binom((n - 1) as nat, (k - 1) as nat) + binom((n - 1) as nat, k)
    }
}

/// The sum of `binom(n, i) * x^i` for `i` from 0 to `j`.
pub open spec fn binom_sum(n: nat, x: int, j: nat) -> int
    decreases j,
{
    if j == 0 {
        1
    } else {
        binom_sum(n, x, (j - 1) as nat) + binom(n, j) * pow(x, j)
    }
}

proof fn lemma_binom_above(n: nat, k: nat)
    requires
        k > n,
    ensures
        binom(n, k) == 0,
    decreases n,
{
    if n > 0 {
        lemma_binom_above((n - 1) as nat, (k - 1) as nat);
        lemma_binom_above((n - 1) as nat, k);
    }
}

proof fn lemma_binom_diagonal(n: nat)
    ensures
        binom(n, n) == 1,
    decreases n,
{
    if n > 0 {
        lemma_binom_diagonal((n - 1) as nat);
        lemma_binom_above((n - 1) as nat, n);
    }
}

proof fn lemma_binom_one(n: nat)
    ensures
        binom(n, 1) == n,
    decreases n,
{
    if n > 0 {
        lemma_binom_one((n - 1) as nat);
        assert(binom((n - 1) as nat, 0) == 1);
    }
}

proof fn lemma_pow_succ(x: int, j: nat)
    requires
        j >= 1,
    ensures
        pow(x, j) == x * pow(x, (j - 1) as nat),
{
    reveal(pow);
}

/// A power of a natural number is a natural number.
pub proof fn lemma_pow_nonnegative(b: int, e: nat)
    requires
        b >= 0,
    ensures
        pow(b, e) >= 0,
    decreases e,
{
    if e == 0 {
        lemma_pow0(b);
    } else {
        lemma_pow_nonnegative(b, (e - 1) as nat);
        lemma_pow_succ(b, e);
        assert(b * pow(b, (e - 1) as nat) >= 0) by (nonlinear_arith)
            requires
                b >= 0,
                pow(b, (e - 1) as nat) >= 0,
        ;
    }
}

/// Pascal's rule lifted to the partial sums.
proof fn lemma_binom_sum_step(n: nat, x: int, j: nat)
    requires
        j >= 1,
    ensures
        binom_sum(n + 1, x, j) == x * binom_sum(n, x, (j - 1) as nat) + binom_sum(n, x, j),
    decreases j,
{
    if j == 1 {
        lemma_binom_one(n + 1);
        lemma_binom_one(n);
        lemma_pow1(x);
        assert(binom_sum(n + 1, x, 0) == 1);
        assert(binom_sum(n, x, 0) == 1);
        assert(binom_sum(n + 1, x, 1) == 1 + binom(n + 1, 1) * pow(x, 1));
        assert(binom_sum(n, x, 1) == 1 + binom(n, 1) * pow(x, 1));
        assert((n + 1) * x == x + n * x) by (nonlinear_arith);
    } else {
        lemma_binom_sum_step(n, x, (j - 1) as nat);
        lemma_pow_succ(x, j);
        let a = binom_sum(n, x, (j - 2) as nat);
        let b = binom_sum(n, x, (j - 1) as nat);
        let c1 = binom(n, (j - 1) as nat);
        let c2 = binom(n, j);
        let pw = pow(x, (j - 1) as nat);
        assert(binom(n + 1, j) == c1 + c2);
        assert(b == a + c1 * pw);
        assert(binom_sum(n, x, j) == b + c2 * (x * pw));
        assert(binom_sum(n + 1, x, j) == (x * a + b) + (c1 + c2) * (x * pw));
        assert((x * a + b) + (c1 + c2) * (x * pw) == x * (a + c1 * pw) + (b + c2 * (x * pw)))
            by (nonlinear_arith);
    }
}

/// The binomial theorem for `(x + 1)^n`.
pub proof fn lemma_binomial(x: int, n: nat)
    ensures
        pow(x + 1, n) == binom_sum(n, x, n),
    decreases n,
{
    if n == 0 {
        lemma_pow0(x + 1);
    } else {
        let m = (n - 1) as nat;
        lemma_binomial(x, m);
        lemma_pow_succ(x + 1, n);
        lemma_binom_above(m, n);
        assert(binom_sum(m, x, n) == binom_sum(m, x, m));
        lemma_binom_sum_step(m, x, n);
        let b = binom_sum(m, x, m);
        assert((x + 1) * b == x * b + b) by (nonlinear_arith);
    }
}

/// The absorption identity `k * C(n, k) == n * C(n - 1, k - 1)`.
proof fn lemma_absorption(n: nat, k: nat)
    requires
        n >= 1,
        k >= 1,
    ensures
        k * binom(n, k) == n * binom((n - 1) as nat, (k - 1) as nat),
    decreases n,
{
    if k == 1 {
        lemma_binom_one(n);
        assert(binom((n - 1) as nat, 0) == 1);
        assert(1 * binom(n, 1) == n * 1) by (nonlinear_arith)
            requires
                binom(n, 1) == n,
        ;
    } else if n == 1 {
        lemma_binom_above(0, (k - 1) as nat);
        lemma_binom_above(0, k);
        assert(binom(1, k) == 0);
        assert(k * 0 == 0) by (nonlinear_arith);
    } else {
        let n1 = (n - 1) as nat;
        let n2 = (n - 2) as nat;
        lemma_absorption(n1, k);
        lemma_absorption(n1, (k - 1) as nat);
        let a = binom(n1, (k - 1) as nat);
        let b = binom(n1, k);
        let c = binom(n2, (k - 2) as nat);
        let d = binom(n2, (k - 1) as nat);
        assert(binom(n, k) == a + b);
        assert(a == c + d);
        assert(k * b == n1 * d);
        assert((k - 1) * a == n1 * c);
        assert(k * (a + b) == n * a) by (nonlinear_arith)
            requires
                k * b == n1 * d,
                (k - 1) * a == n1 * c,
                a == c + d,
                n1 == n - 1,
        ;
    }
}

/// A prime `p` divides `C(p, k)` for `0 < k < p`.
proof fn lemma_prime_divides_binom(p: nat, k: nat)
    requires
        is_prime(p),
        0 < k < p,
    ensures
        binom(p, k) % p == 0,
{
    lemma_absorption(p, k);
    let c = binom((p - 1) as nat, (k - 1) as nat);
    lemma_mod_multiples_basic(c as int, p as int);
    assert(p * c == c * p) by (nonlinear_arith);
    lemma_euclid(p, k, binom(p, k));
    lemma_small_mod(k, p);
}

/// `a + b` has the remainder of `a` when `b` is a multiple of `m`.
proof fn lemma_add_multiple(a: int, b: int, m: int)
    requires
        m > 0,
        b % m == 0,
    ensures
        (a + b) % m == a % m,
{
    lemma_fundamental_div_mod(b, m);
    lemma_mod_multiples_vanish(b / m, a, m);
}

/// Up to `j < p`, the partial binomial sum is 1 modulo the prime `p`.
proof fn lemma_binom_sum_mod_prime(p: nat, x: int, j: nat)
    requires
        is_prime(p),
        j < p,
    ensures
        binom_sum(p, x, j) % (p as int) == 1int % (p as int),
    decreases j,
{
    if j > 0 {
        lemma_binom_sum_mod_prime(p, x, (j - 1) as nat);
        lemma_prime_divides_binom(p, j);
        lemma_divides_linear(p as int, binom(p, j) as int, 0, pow(x, j));
        assert(pow(x, j) * binom(p, j) + 0 == binom(p, j) * pow(x, j)) by (nonlinear_arith);
        lemma_add_multiple(binom_sum(p, x, (j - 1) as nat), binom(p, j) * pow(x, j), p as int);
    }
}

/// `(x + 1)^p` is `x^p + 1` modulo the prime `p`.
pub proof fn lemma_freshman(p: nat, x: int)
    requires
        is_prime(p),
    ensures
        pow(x + 1, p) % (p as int) == (pow(x, p) + 1) % (p as int),
{
    lemma_binomial(x, p);
    lemma_binom_diagonal(p);
    let a = binom_sum(p, x, (p - 1) as nat);
    assert(binom_sum(p, x, p) == a + pow(x, p));
    lemma_binom_sum_mod_prime(p, x, (p - 1) as nat);
    lemma_add_mod_noop(a, pow(x, p), p as int);
    lemma_add_mod_noop(1, pow(x, p), p as int);
    lemma_small_mod(1, p);
}

// ------------------------------------------------------------------
// Fermat's little theorem
// ------------------------------------------------------------------

/// Fermat's little theorem: `a^p` is `a` modulo the prime `p`.
pub proof fn lemma_fermat(p: nat, a: nat)
    requires
        is_prime(p),
    ensures
        pow(a as int, p) % (p as int) == a % p,
    decreases a,
{
    if a == 0 {
        lemma_pow_succ(0, p);
        assert(0 * pow(0, (p - 1) as nat) == 0) by (nonlinear_arith);
    } else {
        let b = (a - 1) as nat;
        lemma_fermat(p, b);
        lemma_freshman(p, b as int);
        lemma_add_mod_noop(pow(b as int, p), 1, p as int);
        lemma_add_mod_noop(b as int, 1, p as int);
    }
}

/// `a^(1 + k (p - 1))` is `a` modulo the prime `p`.
pub proof fn lemma_fermat_power(p: nat, a: nat, k: nat)
    requires
        is_prime(p),
    ensures
        pow(a as int, 1 + k * (p - 1) as nat) % (p as int) == a % p,
    decreases k,
{
    if k == 0 {
        lemma_pow1(a as int);
        assert(1 + 0 * (p - 1) as nat == 1) by (nonlinear_arith);
    } else {
        let j = (k - 1) as nat;
        lemma_fermat_power(p, a, j);
        let e0 = j * (p - 1) as nat;
        assert(1 + k * (p - 1) as nat == e0 + p) by (nonlinear_arith)
            requires
                j == k - 1,
                e0 == j * (p - 1) as nat,
                p >= 1,
        ;
        lemma_pow_adds(a as int, e0, p);
        lemma_pow_adds(a as int, e0, 1);
        lemma_pow1(a as int);
        assert(1 + e0 == e0 + 1);
        lemma_fermat(p, a);
        // a^e0 * a^p == a^e0 * a  (mod p)
        lemma_mul_mod_noop_right(pow(a as int, e0), pow(a as int, p), p as int);
        lemma_mul_mod_noop_right(pow(a as int, e0), a as int, p as int);
    }
}

// ------------------------------------------------------------------
// Two distinct primes
// ------------------------------------------------------------------

/// A number below `p * q` is determined by its remainders modulo the
/// distinct primes `p` and `q`.
pub proof fn lemma_two_primes(p: nat, q: nat, y: nat, m: nat)
    requires
        is_prime(p),
        is_prime(q),
        p != q,
        y % p == m % p,
        y % q == m % q,
        m < p * q,
    ensures
        y % (p * q) == m,
{
    let z = y as int - m as int;
    lemma_sub_mod_noop(y as int, m as int, p as int);
    lemma_sub_mod_noop(y as int, m as int, q as int);
    assert(((y % p) as int - (m % p) as int) == 0);
    assert(((y % q) as int - (m % q) as int) == 0);
    lemma_small_mod(0, p);
    lemma_small_mod(0, q);
    assert(z % (p as int) == 0);
    assert(z % (q as int) == 0);
    lemma_fundamental_div_mod(z, p as int);
    let t = z / (p as int);
    assert(z == p * t);
    // q divides p * (t % q)
    let tq = (t % (q as int)) as nat;
    lemma_mod_bound(t, q as int);
    lemma_mul_mod_noop_right(p as int, t, q as int);
    assert((p * tq) % q == 0);
    if p % q == 0 {
        lemma_divisor_le(q, p);
        assert(1 < q < p);
        assert(p % q != 0);
    }
    lemma_euclid(q, p, tq);
    lemma_small_mod(tq, q);
    assert(tq == 0);
    lemma_fundamental_div_mod(t, q as int);
    let u = t / (q as int);
    assert(y as int == (p * q) as int * u + m as int) by (nonlinear_arith)
        requires
            z == y as int - m as int,
            z == p * t,
            t == q * u + 0,
    ;
    lemma_mod_multiples_vanish(u, m as int, (p * q) as int);
    lemma_small_mod(m, p * q);
}

} // verus!
