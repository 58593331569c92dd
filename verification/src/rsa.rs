//! Textbook RSA: modular exponentiation, Euclid's algorithm, the modular
//! inverse, key generation, encryption and decryption.
use vstd::arithmetic::div_mod::*;
use vstd::arithmetic::power::*;
use vstd::prelude::*;
use crate::teoria::{
    lemma_bezout, lemma_bezout_coef_bound, lemma_common_divisor_divides_gcd, lemma_congruent_one,
    lemma_divides_linear, lemma_fermat_power, lemma_gcd_divides, lemma_pow_nonnegative,
    lemma_two_primes,
};

verus! {

/// A public key: the modulus `n` and the public exponent `e`.
pub struct PublicKey {
    pub n: u64,
    pub e: u64,
}

/// A private key: the modulus `n` and the private exponent `d`.
pub struct PrivateKey {
    pub n: u64,
    pub d: u64,
}

// ------------------------------------------------------------------
// Specifications
// ------------------------------------------------------------------

/// `base^exp mod modulo`.
pub open spec fn spec_mod_pow(base: nat, exp: nat, modulo: nat) -> nat {
    (pow(base as int, exp) % (modulo as int)) as nat
}

/// Euclid's greatest common divisor.
pub open spec fn spec_gcd(a: nat, b: nat) -> nat
    decreases b,
{
    if b == 0 {
        a
    } else {
        spec_gcd(b, a % b)
    }
}

/// The coefficient of the extended Euclidean algorithm: from the remainders
/// `old_r`, `r` and their coefficients `old_s`, `s`, the coefficient that goes
/// with the last nonzero remainder.
pub open spec fn spec_bezout_coef(old_r: int, r: int, old_s: int, s: int) -> int
    decreases r,
{
    if r <= 0 {
        old_s
    } else {
        spec_bezout_coef(r, old_r % r, s, old_s - (old_r / r) * s)
    }
}

/// The Bézout coefficient of `e` modulo `phi`, brought into `0..phi` when negative.
pub open spec fn spec_mod_inverse(e: nat, phi: nat) -> nat {
    let x = spec_bezout_coef(phi as int, e as int, 0, 1);
    if x < 0 {
        (x + phi) as nat
    } else {
        x as nat
    }
}

/// `n` is a prime number.
pub open spec fn is_prime(n: nat) -> bool {
    n > 1 && forall|d: nat| 1 < d < n ==> #[trigger] (n % d) != 0
}

/// The public key made from the primes `p`, `q` and the exponent `e`.
pub open spec fn spec_public_key(p: nat, q: nat, e: nat) -> (nat, nat) {
    (p * q, e)
}

/// The private key made from the primes `p`, `q` and the exponent `e`.
pub open spec fn spec_private_key(p: nat, q: nat, e: nat) -> (nat, nat) {
    (p * q, spec_mod_inverse(e, ((p - 1) * (q - 1)) as nat))
}

/// Encryption of `m` under the public key `(n, e)`.
pub open spec fn spec_encrypt(m: nat, key: (nat, nat)) -> nat {
    spec_mod_pow(m, key.1, key.0)
}

/// Decryption of `c` under the private key `(n, d)`.
pub open spec fn spec_decrypt(c: nat, key: (nat, nat)) -> nat {
    spec_mod_pow(c, key.1, key.0)
}

// ------------------------------------------------------------------
// Lemmas about the loop of `mod_pow`
// ------------------------------------------------------------------

proof fn lemma_pow2_is_square(b: int)
    ensures
        pow(b, 2) == b * b,
{
    reveal(pow);
    assert(pow(b, 0) == 1);
    assert(pow(b, 1) == b * pow(b, 0));
    assert(pow(b, 2) == b * pow(b, 1));
}

/// One step of square-and-multiply keeps `result * base^exp` modulo `m`.
proof fn lemma_mod_pow_step(result: int, base: int, exp: nat, m: int)
    requires
        m > 0,
        exp > 0,
    ensures
        exp % 2 == 1 ==> ((result * base) % m * pow((base * base) % m, exp / 2)) % m == (result
            * pow(base, exp)) % m,
        exp % 2 == 0 ==> (result * pow((base * base) % m, exp / 2)) % m == (result * pow(
            base,
            exp,
        )) % m,
{
    let k = exp / 2;
    let a = pow((base * base) % m, k);
    lemma_pow_mod_noop(base * base, k, m);
    lemma_pow2_is_square(base);
    lemma_pow_multiplies(base, 2, k);
    assert(pow(base * base, k) == pow(base, 2 * k));
    // a % m == base^(2k) % m
    if exp % 2 == 1 {
        assert(exp == 2 * k + 1);
        lemma_pow_adds(base, 2 * k, 1);
        lemma_pow1(base);
        assert(pow(base, exp) == pow(base, 2 * k) * base);
        lemma_mul_mod_noop_left(result * base, a, m);
        lemma_mul_mod_noop_right(result * base, a, m);
        lemma_mul_mod_noop_right(result * base, pow(base, 2 * k), m);
        assert((result * base) * pow(base, 2 * k) == result * (pow(base, 2 * k) * base))
            by (nonlinear_arith);
    } else {
        assert(exp == 2 * k);
        lemma_mul_mod_noop_right(result, a, m);
        lemma_mul_mod_noop_right(result, pow(base, 2 * k), m);
    }
}

// ------------------------------------------------------------------
// Lemmas about the loop of `mod_inverse`
// ------------------------------------------------------------------

/// Absolute value.
pub open spec fn abs(x: int) -> int {
    if x < 0 {
        -x
    } else {
        x
    }
}

/// One step of the extended Euclidean algorithm keeps the coefficients of
/// opposite signs and `|s| * old_r + |old_s| * r == phi`; so they stay within `phi`.
pub proof fn lemma_ext_euclid_step(old_r: int, r: int, old_s: int, s: int, phi: int)
    requires
        old_r >= 0,
        r > 0,
        abs(s) * old_r + abs(old_s) * r == phi,
        old_s * s <= 0,
    ensures
        old_r / r >= 0,
        (old_r / r) * r <= old_r,
        old_r - (old_r / r) * r == old_r % r,
        0 <= old_r % r < r,
        abs(old_s - (old_r / r) * s) * r + abs(s) * (old_r % r) == phi,
        s * (old_s - (old_r / r) * s) <= 0,
        abs(old_s - (old_r / r) * s) <= phi,
        abs((old_r / r) * s) <= abs(old_s - (old_r / r) * s),
{
    let q = old_r / r;
    let nr = old_r % r;
    lemma_fundamental_div_mod(old_r, r);
    assert(old_r == r * q + nr);
    lemma_mod_bound(old_r, r);
    assert(q >= 0) by (nonlinear_arith)
        requires
            old_r == r * q + nr,
            0 <= nr < r,
            old_r >= 0,
    ;
    assert(q * r <= old_r) by (nonlinear_arith)
        requires
            old_r == r * q + nr,
            0 <= nr,
    ;
    let ns = old_s - q * s;
    if s > 0 {
        assert(old_s <= 0) by (nonlinear_arith)
            requires
                old_s * s <= 0,
                s > 0,
        ;
        assert(abs(ns) * r + abs(s) * nr == phi) by (nonlinear_arith)
            requires
                ns == old_s - q * s,
                old_s <= 0,
                s > 0,
                q >= 0,
                abs(ns) == -ns,
                abs(s) == s,
                abs(old_s) == -old_s,
                s * old_r + (-old_s) * r == phi,
                old_r == r * q + nr,
        ;
        assert(s * ns <= 0) by (nonlinear_arith)
            requires
                ns == old_s - q * s,
                old_s <= 0,
                s > 0,
                q >= 0,
        ;
        assert(abs(q * s) <= abs(ns)) by (nonlinear_arith)
            requires
                ns == old_s - q * s,
                old_s <= 0,
                s > 0,
                q >= 0,
                abs(ns) == -ns,
        ;
    } else if s < 0 {
        assert(old_s >= 0) by (nonlinear_arith)
            requires
                old_s * s <= 0,
                s < 0,
        ;
        assert(ns >= 0) by (nonlinear_arith)
            requires
                ns == old_s - q * s,
                old_s >= 0,
                s < 0,
                q >= 0,
        ;
        assert(abs(ns) * r + abs(s) * nr == phi) by (nonlinear_arith)
            requires
                ns == old_s - q * s,
                old_s >= 0,
                s < 0,
                q >= 0,
                abs(ns) == ns,
                abs(s) == -s,
                abs(old_s) == old_s,
                (-s) * old_r + old_s * r == phi,
                old_r == r * q + nr,
        ;
        assert(s * ns <= 0) by (nonlinear_arith)
            requires
                ns == old_s - q * s,
                old_s >= 0,
                s < 0,
                q >= 0,
        ;
        assert(abs(q * s) <= abs(ns)) by (nonlinear_arith)
            requires
                ns == old_s - q * s,
                old_s >= 0,
                s < 0,
                q >= 0,
                abs(ns) == ns,
        ;
    } else {
        assert(q * s == 0) by (nonlinear_arith)
            requires
                s == 0,
        ;
        assert(ns == old_s);
        assert(abs(s) == 0);
        assert(abs(s) * nr == 0) by (nonlinear_arith)
            requires
                abs(s) == 0,
        ;
        assert(abs(s) * old_r == 0) by (nonlinear_arith)
            requires
                abs(s) == 0,
        ;
    }
    assert(abs(ns) <= phi) by (nonlinear_arith)
        requires
            abs(ns) * r + abs(s) * nr == phi,
            r > 0,
            abs(ns) >= 0,
            abs(s) >= 0,
            nr >= 0,
    ;
}

// ------------------------------------------------------------------
// Laws
// ------------------------------------------------------------------

/// `gcd` computes the greatest common divisor: it divides both numbers, and
/// every common divisor divides it.
pub proof fn lemma_gcd_is_greatest(a: nat, b: nat, d: nat)
    ensures
        spec_gcd(a, b) > 0 ==> a % spec_gcd(a, b) == 0 && b % spec_gcd(a, b) == 0,
        spec_gcd(a, b) == 0 <==> (a == 0 && b == 0),
        d > 0 && a % d == 0 && b % d == 0 ==> spec_gcd(a, b) % d == 0,
{
    lemma_gcd_divides(a, b);
    if d > 0 && a % d == 0 && b % d == 0 {
        lemma_common_divisor_divides_gcd(a, b, d);
    }
}

/// When `e` is coprime to `phi > 1`, `mod_inverse` gives the inverse of `e`
/// modulo `phi`, in `0..phi`.
pub proof fn lemma_mod_inverse_is_inverse(e: nat, phi: nat)
    requires
        phi > 1,
        spec_gcd(e, phi) == 1,
    ensures
        (e * spec_mod_inverse(e, phi)) % phi == 1,
        spec_mod_inverse(e, phi) < phi,
{
    let x = spec_bezout_coef(phi as int, e as int, 0, 1);
    lemma_bezout(e, phi);
    assert(abs(1) == 1 && abs(0) == 0);
    assert(abs(1) * phi + abs(0) * e == phi) by (nonlinear_arith)
        requires
            abs(1) == 1,
            abs(0) == 0,
    ;
    lemma_bezout_coef_bound(phi as int, e as int, 0, 1, phi as int);
    let d = spec_mod_inverse(e, phi);
    if x < 0 {
        assert(d == x + phi);
        lemma_divides_linear(phi as int, phi as int, x * e - 1, e as int);
        assert(d * e - 1 == e * phi + (x * e - 1)) by (nonlinear_arith)
            requires
                d == x + phi,
        ;
    } else {
        assert(d == x);
    }
    assert((d * e - 1) % (phi as int) == 0);
    lemma_congruent_one((d * e) as int, phi as int);
    lemma_small_mod(1, phi);
    assert(e * d == d * e) by (nonlinear_arith);
    if d == phi {
        lemma_mod_multiples_basic(e as int, phi as int);
    }
}

/// The RSA round trip: with distinct primes `p`, `q`, an exponent `e` coprime
/// to `(p - 1)(q - 1)`, and a message `m < p q`, decrypting the encryption of
/// `m` with the keys `gerar_chaves` makes gives back `m`.
pub proof fn lemma_rsa_round_trip(p: nat, q: nat, e: nat, m: nat)
    requires
        is_prime(p),
        is_prime(q),
        p != q,
        spec_gcd(e, ((p - 1) * (q - 1)) as nat) == 1,
        m < p * q,
    ensures
        spec_decrypt(spec_encrypt(m, spec_public_key(p, q, e)), spec_private_key(p, q, e)) == m,
{
    let n = p * q;
    let p1 = (p - 1) as nat;
    let q1 = (q - 1) as nat;
    let phi = (p1 * q1) as nat;
    assert(phi > 1) by (nonlinear_arith)
        requires
            p >= 2,
            q >= 2,
            p != q,
            phi == (p - 1) * (q - 1),
    ;
    assert(n > 0) by (nonlinear_arith)
        requires
            p >= 2,
            q >= 2,
            n == p * q,
    ;
    // e is not zero: gcd(0, phi) == phi
    if e == 0 {
        assert(spec_gcd(0, phi) == spec_gcd(phi, 0nat % phi));
        lemma_small_mod(0, phi);
    }
    let d = spec_mod_inverse(e, phi);
    lemma_mod_inverse_is_inverse(e, phi);
    if d == 0 {
        assert(e * d == 0) by (nonlinear_arith)
            requires
                d == 0,
        ;
        lemma_small_mod(0, phi);
    }
    // the encryption and the decryption
    let c = (pow(m as int, e) % (n as int)) as nat;
    lemma_mod_bound(pow(m as int, e), n as int);
    assert(spec_encrypt(m, spec_public_key(p, q, e)) == c);
    assert(spec_decrypt(c, spec_private_key(p, q, e)) == (pow(c as int, d) % (n as int)) as nat);
    lemma_pow_mod_noop(pow(m as int, e), d, n as int);
    lemma_pow_multiplies(m as int, e, d);
    // e d == 1 + k phi
    let k = (e * d) / phi;
    lemma_fundamental_div_mod((e * d) as int, phi as int);
    assert(e * d == 1 + (k * q1) * p1) by (nonlinear_arith)
        requires
            (e * d) as int == phi as int * k + 1,
            phi == p1 * q1,
    ;
    assert(e * d == 1 + (k * p1) * q1) by (nonlinear_arith)
        requires
            (e * d) as int == phi as int * k + 1,
            phi == p1 * q1,
    ;
    lemma_fermat_power(p, m, (k * q1) as nat);
    lemma_fermat_power(q, m, (k * p1) as nat);
    lemma_pow_nonnegative(m as int, e * d);
    let y = pow(m as int, e * d) as nat;
    lemma_two_primes(p, q, y, m);
}

// ------------------------------------------------------------------
// Where square-and-multiply stays within 64 bits
// ------------------------------------------------------------------

/// The loop of `mod_pow`, from the accumulator `result`, the reduced base
/// `base` and the exponent `exp`, never forms a product above `u64::MAX`: each
/// round multiplies the accumulator by the base when the exponent is odd, and
/// squares the base, before reducing both modulo `modulo`.
pub open spec fn mod_pow_cabe(result: nat, base: nat, exp: nat, modulo: nat) -> bool
    decreases exp,
{
    if exp == 0 {
        true
    } else {
        &&& (exp % 2 == 1 ==> result * base <= u64::MAX)
        &&& base * base <= u64::MAX
        &&& mod_pow_cabe(
            if exp % 2 == 1 {
                (result * base) % modulo
            } else {
                result
            },
            (base * base) % modulo,
            exp / 2,
            modulo,
        )
    }
}

/// With a modulus of at most 2^32 every product of the loop fits in 64 bits.
pub proof fn lemma_mod_pow_cabe(result: nat, base: nat, exp: nat, modulo: nat)
    requires
        0 < modulo <= 0x1_0000_0000,
        result < modulo || result == 1,
        base < modulo,
    ensures
        mod_pow_cabe(result, base, exp, modulo),
    decreases exp,
{
    if exp > 0 {
        assert(result * base <= 0xffff_ffff_ffff_ffff) by (nonlinear_arith)
            requires
                result < modulo || result == 1,
                base < modulo,
                modulo <= 0x1_0000_0000,
        ;
        assert(base * base <= 0xffff_ffff_ffff_ffff) by (nonlinear_arith)
            requires
                base < modulo,
                modulo <= 0x1_0000_0000,
        ;
        let r2 = if exp % 2 == 1 {
            (result * base) % modulo
        } else {
            result
        };
        lemma_mod_bound((base * base) as int, modulo as int);
        if exp % 2 == 1 {
            lemma_mod_bound((result * base) as int, modulo as int);
        }
        lemma_mod_pow_cabe(r2, (base * base) % modulo, exp / 2, modulo);
    }
}

// ------------------------------------------------------------------
// The functions
// ------------------------------------------------------------------

/// Whether `mod_pow(base, exp, modulo)` keeps every product within 64 bits:
/// the same loop, with checked products.
pub fn mod_pow_sem_estouro(base: u64, exp: u64, modulo: u64) -> (r: bool)
    requires
        modulo > 0,
    ensures
        r == mod_pow_cabe((1u64 % modulo) as nat, (base % modulo) as nat, exp as nat, modulo as nat),
{
    let mut b = base % modulo;
    let mut e = exp;
    let mut acc = 1u64 % modulo;
    while e > 0
        invariant
            modulo > 0,
            mod_pow_cabe((1u64 % modulo) as nat, (base % modulo) as nat, exp as nat, modulo as nat)
                == mod_pow_cabe(acc as nat, b as nat, e as nat, modulo as nat),
        decreases e,
    {
        if e % 2 == 1 {
            match acc.checked_mul(b) {
                None => {
                    return false;
                },
                Some(v) => {
                    acc = v % modulo;
                },
            }
        }
        match b.checked_mul(b) {
            None => {
                return false;
            },
            Some(v) => {
                b = v % modulo;
            },
        }
        e /= 2;
    }
    true
}

/// `base^exp mod modulo` by square-and-multiply. The products are formed in
/// 64 bits, so the modulus must not be zero and they must fit (as they always
/// do for a modulus of at most 2^32, by `lemma_mod_pow_cabe`).
pub fn mod_pow(base: u64, exp: u64, modulo: u64) -> (r: u64)
    requires
        modulo > 0,
        mod_pow_cabe((1u64 % modulo) as nat, (base % modulo) as nat, exp as nat, modulo as nat),
    ensures
        r == spec_mod_pow(base as nat, exp as nat, modulo as nat),
{
    let ghost b0 = base;
    let ghost e0 = exp;
    let mut base = base;
    let mut exp = exp;
    let mut result = 1 % modulo;
    base %= modulo;
    proof {
        lemma_pow_mod_noop(b0 as int, e0 as nat, modulo as int);
        lemma_mul_mod_noop_left(1, pow(base as int, e0 as nat), modulo as int);
    }
    while exp > 0
        invariant
            0 < modulo,
            base < modulo,
            result < modulo,
            mod_pow_cabe(result as nat, base as nat, exp as nat, modulo as nat),
            (result * pow(base as int, exp as nat)) % (modulo as int) == pow(b0 as int, e0 as nat)
                % (modulo as int),
        decreases exp,
    {
        proof {
            lemma_mod_pow_step(result as int, base as int, exp as nat, modulo as int);
        }
        if exp % 2 == 1 {
            result = result * base % modulo;
        }
        exp /= 2;
        base = base * base % modulo;
    }
    proof {
        lemma_pow0(base as int);
        lemma_small_mod(result as nat, modulo as nat);
    }
    result
}

/// Greatest common divisor by Euclid's algorithm.
pub fn gcd(a: u64, b: u64) -> (r: u64)
    ensures
        r == spec_gcd(a as nat, b as nat),
    decreases b,
{
    if b == 0 {
        a
    } else {
        gcd(b, a % b)
    }
}

/// The inverse of `e` modulo `phi` by the extended Euclidean algorithm
/// (the Bézout coefficient of `e`, brought into `0..phi` when negative).
pub fn mod_inverse(e: u64, phi: u64) -> (d: u64)
    requires
        e <= 0x7fff_ffff_ffff_ffff,
        phi <= 0x7fff_ffff_ffff_ffff,
    ensures
        d == spec_mod_inverse(e as nat, phi as nat),
{
    let mut old_r = phi as i64;
    let mut r = e as i64;
    let mut old_s = 0i64;
    let mut s = 1i64;
    assert(old_r == phi);
    assert(abs(s as int) * old_r + abs(old_s as int) * r == phi) by {
        assert(abs(s as int) == 1);
        assert(abs(old_s as int) == 0);
        assert(1 * old_r == old_r);
        assert(0 * r == 0);
    }
    while r != 0
        invariant
            0 <= old_r,
            0 <= r,
            phi <= 0x7fff_ffff_ffff_ffff,
            spec_bezout_coef(old_r as int, r as int, old_s as int, s as int) == spec_bezout_coef(
                phi as int,
                e as int,
                0,
                1,
            ),
            abs(s as int) * old_r + abs(old_s as int) * r == phi,
            old_s * s <= 0,
            abs(old_s as int) <= phi || abs(old_s as int) <= 1,
            abs(s as int) <= phi || abs(s as int) <= 1,
            old_s < 0 ==> -old_s <= phi,
            s < 0 ==> -s <= phi,
        decreases r,
    {
        proof {
            lemma_ext_euclid_step(old_r as int, r as int, old_s as int, s as int, phi as int);
        }
        let q = old_r / r;
        let novo_r = old_r - q * r;
        old_r = r;
        r = novo_r;
        let novo_s = old_s - q * s;
        old_s = s;
        s = novo_s;
    }
    if old_s < 0 {
        (old_s + phi as i64) as u64
    } else {
        old_s as u64
    }
}

/// Generates the key pair of the primes `p`, `q` and the public exponent `e`.
pub fn gerar_chaves(p: u64, q: u64, e: u64) -> (chaves: (PublicKey, PrivateKey))
    requires
        p >= 1,
        q >= 1,
        p * q <= u64::MAX,
        (p - 1) * (q - 1) <= 0x7fff_ffff_ffff_ffff,
        e <= 0x7fff_ffff_ffff_ffff,
        spec_gcd(e as nat, ((p - 1) * (q - 1)) as nat) == 1,
    ensures
        (chaves.0.n as nat, chaves.0.e as nat) == spec_public_key(p as nat, q as nat, e as nat),
        (chaves.1.n as nat, chaves.1.d as nat) == spec_private_key(p as nat, q as nat, e as nat),
{
    let n = p * q;
    proof {
        assert((p - 1) * (q - 1) <= p * q) by (nonlinear_arith)
            requires
                p >= 1,
                q >= 1,
        ;
    }
    let phi = (p - 1) * (q - 1);
    let g = gcd(e, phi);
    assert(g == 1);
    let d = mod_inverse(e, phi);
    (PublicKey { n, e }, PrivateKey { n, d })
}

/// Encrypts the number `m` (which must be below `n`): `m^e mod n`.
pub fn cifrar(m: u64, pub_key: &PublicKey) -> (c: u64)
    requires
        m < pub_key.n,
        mod_pow_cabe((1u64 % pub_key.n) as nat, m as nat, pub_key.e as nat, pub_key.n as nat),
    ensures
        c == spec_encrypt(m as nat, (pub_key.n as nat, pub_key.e as nat)),
{
    proof {
        lemma_small_mod(m as nat, pub_key.n as nat);
    }
    mod_pow(m, pub_key.e, pub_key.n)
}

/// Decrypts the number `c`: `c^d mod n`.
pub fn decifrar(c: u64, priv_key: &PrivateKey) -> (m: u64)
    requires
        0 < priv_key.n,
        mod_pow_cabe(
            (1u64 % priv_key.n) as nat,
            (c % priv_key.n) as nat,
            priv_key.d as nat,
            priv_key.n as nat,
        ),
    ensures
        m == spec_decrypt(c as nat, (priv_key.n as nat, priv_key.d as nat)),
{
    mod_pow(c, priv_key.d, priv_key.n)
}

} // verus!
