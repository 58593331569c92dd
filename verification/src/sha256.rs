//! SHA-256 (FIPS 180-4), written from the standard and proved equal to it.
use vstd::prelude::*;

verus! {

// ------------------------------------------------------------------
// The standard, as spec functions
// ------------------------------------------------------------------

/// The round constants of SHA-256 (FIPS 180-4, section 4.2.2).
pub const K: [u32; 64] = [
    0x428a2f98, 0x71374491, 0xb5c0fbcf, 0xe9b5dba5,
    0x3956c25b, 0x59f111f1, 0x923f82a4, 0xab1c5ed5,
    0xd807aa98, 0x12835b01, 0x243185be, 0x550c7dc3,
    0x72be5d74, 0x80deb1fe, 0x9bdc06a7, 0xc19bf174,
    0xe49b69c1, 0xefbe4786, 0x0fc19dc6, 0x240ca1cc,
    0x2de92c6f, 0x4a7484aa, 0x5cb0a9dc, 0x76f988da,
    0x983e5152, 0xa831c66d, 0xb00327c8, 0xbf597fc7,
    0xc6e00bf3, 0xd5a79147, 0x06ca6351, 0x14292967,
    0x27b70a85, 0x2e1b2138, 0x4d2c6dfc, 0x53380d13,
    0x650a7354, 0x766a0abb, 0x81c2c92e, 0x92722c85,
    0xa2bfe8a1, 0xa81a664b, 0xc24b8b70, 0xc76c51a3,
    0xd192e819, 0xd6990624, 0xf40e3585, 0x106aa070,
    0x19a4c116, 0x1e376c08, 0x2748774c, 0x34b0bcb5,
    0x391c0cb3, 0x4ed8aa4a, 0x5b9cca4f, 0x682e6ff3,
    0x748f82ee, 0x78a5636f, 0x84c87814, 0x8cc70208,
    0x90befffa, 0xa4506ceb, 0xbef9a3f7, 0xc67178f2,
];

/// The initial hash value H(0) (FIPS 180-4, section 5.3.3).
pub open spec fn spec_h0() -> Seq<u32> {
    seq![
        0x6a09e667u32, 0xbb67ae85u32, 0x3c6ef372u32, 0xa54ff53au32,
        0x510e527fu32, 0x9b05688cu32, 0x1f83d9abu32, 0x5be0cd19u32,
    ]
}

/// Addition modulo 2^32 (see `lemma_add32_is_addition_mod`).
pub open spec fn add32(a: u32, b: u32) -> u32 {
    a.wrapping_add(b)
}

/// ROTR^n(x) (FIPS 180-4, section 3.2).
pub open spec fn spec_rotr(x: u32, n: u32) -> u32 {
    (x >> n) | (x << ((32 - n) as u32))
}

/// SHR^n(x) (FIPS 180-4, section 3.2).
pub open spec fn spec_shr(x: u32, n: u32) -> u32 {
    x >> n
}

/// σ0 (FIPS 180-4, 4.1.2).
pub open spec fn spec_sig0(x: u32) -> u32 {
    spec_rotr(x, 7) ^ spec_rotr(x, 18) ^ spec_shr(x, 3)
}

/// σ1 (FIPS 180-4, 4.1.2).
pub open spec fn spec_sig1(x: u32) -> u32 {
    spec_rotr(x, 17) ^ spec_rotr(x, 19) ^ spec_shr(x, 10)
}

/// Σ0 (FIPS 180-4, 4.1.2).
pub open spec fn spec_bsig0(x: u32) -> u32 {
    spec_rotr(x, 2) ^ spec_rotr(x, 13) ^ spec_rotr(x, 22)
}

/// Σ1 (FIPS 180-4, 4.1.2).
pub open spec fn spec_bsig1(x: u32) -> u32 {
    spec_rotr(x, 6) ^ spec_rotr(x, 11) ^ spec_rotr(x, 25)
}

/// Ch(e, f, g) (FIPS 180-4, 4.1.2).
pub open spec fn spec_ch(e: u32, f: u32, g: u32) -> u32 {
    (e & f) ^ (!e & g)
}

/// Maj(a, b, c) (FIPS 180-4, 4.1.2).
pub open spec fn spec_maj(a: u32, b: u32, c: u32) -> u32 {
    (a & b) ^ (a & c) ^ (b & c)
}

/// The big-endian 32-bit word made of the bytes `s[i..i + 4]`.
pub open spec fn spec_be_word(s: Seq<u8>, i: int) -> u32 {
    (s[i] as int * 0x100_0000 + s[i + 1] as int * 0x1_0000 + s[i + 2] as int * 0x100
        + s[i + 3] as int) as u32
}

/// The four big-endian bytes of a 32-bit word.
pub open spec fn spec_be_bytes32(x: u32) -> Seq<u8> {
    seq![
        (x / 0x100_0000) as u8,
        ((x / 0x1_0000) % 0x100) as u8,
        ((x / 0x100) % 0x100) as u8,
        (x % 0x100) as u8,
    ]
}

/// The eight big-endian bytes of a 64-bit word.
pub open spec fn spec_be_bytes64(x: u64) -> Seq<u8> {
    seq![
        (x / 0x100_0000_0000_0000) as u8,
        ((x / 0x1_0000_0000_0000) % 0x100) as u8,
        ((x / 0x100_0000_0000) % 0x100) as u8,
        ((x / 0x1_0000_0000) % 0x100) as u8,
        ((x / 0x100_0000) % 0x100) as u8,
        ((x / 0x1_0000) % 0x100) as u8,
        ((x / 0x100) % 0x100) as u8,
        (x % 0x100) as u8,
    ]
}

/// The number k of zero bytes of the padding: the least k >= 0 with
/// len + 1 + k congruent to 56 modulo 64 (FIPS 180-4, 5.1.1, in bytes).
pub open spec fn spec_zero_count(len: nat) -> nat {
    ((119 - (len % 64) as int) % 64) as nat
}

/// `k` zero bytes after the message and the byte 0x80 leave exactly the
/// eight bytes of the length field before a 64-byte boundary.
pub open spec fn fills_to_length_field(len: nat, k: nat) -> bool {
    (len + 1 + k) % 64 == 56
}

/// The padded message (FIPS 180-4, 5.1.1): the message, the byte 0x80, k zero
/// bytes, and the message length in bits as a big-endian 64-bit integer.
pub open spec fn spec_padding(m: Seq<u8>) -> Seq<u8> {
    m + seq![0x80u8] + Seq::new(spec_zero_count(m.len()), |i: int| 0u8) + spec_be_bytes64(
        (8 * m.len()) as u64,
    )
}

/// The message schedule W_t of one 64-byte block (FIPS 180-4, 6.2.2 step 1).
#[verifier::opaque]
pub open spec fn spec_schedule(block: Seq<u8>, t: nat) -> u32
    decreases t,
{
    if t < 16 {
        spec_be_word(block, (4 * t) as int)
    } else {
        add32(
            add32(
                add32(spec_sig1(spec_schedule(block, (t - 2) as nat)), spec_schedule(block, (t - 7) as nat)),
                spec_sig0(spec_schedule(block, (t - 15) as nat)),
            ),
            spec_schedule(block, (t - 16) as nat),
        )
    }
}

/// One round of the compression function on the working variables a..h
/// (FIPS 180-4, 6.2.2 step 3).
pub open spec fn spec_round(v: Seq<u32>, k: u32, w: u32) -> Seq<u32> {
    let t1 = add32(add32(add32(add32(v[7], spec_bsig1(v[4])), spec_ch(v[4], v[5], v[6])), k), w);
    let t2 = add32(spec_bsig0(v[0]), spec_maj(v[0], v[1], v[2]));
    seq![add32(t1, t2), v[0], v[1], v[2], add32(v[3], t1), v[4], v[5], v[6]]
}

/// The working variables after the first `t` rounds, starting from `h`.
#[verifier::opaque]
pub open spec fn spec_rounds(h: Seq<u32>, w: Seq<u32>, t: nat) -> Seq<u32>
    decreases t,
{
    if t == 0 {
        h
    } else {
        spec_round(spec_rounds(h, w, (t - 1) as nat), K@[t - 1], w[t - 1])
    }
}

/// The intermediate hash value after one block, given its schedule `w`
/// (FIPS 180-4, 6.2.2 step 4).
pub open spec fn spec_compress_schedule(h: Seq<u32>, w: Seq<u32>) -> Seq<u32> {
    let v = spec_rounds(h, w, 64);
    Seq::new(8, |i: int| add32(h[i], v[i]))
}

/// The schedule W_0..W_63 of a block.
pub open spec fn spec_schedule_seq(block: Seq<u8>) -> Seq<u32> {
    Seq::new(64, |t: int| spec_schedule(block, t as nat))
}

/// The intermediate hash value after one 64-byte block.
pub open spec fn spec_compress(h: Seq<u32>, block: Seq<u8>) -> Seq<u32> {
    spec_compress_schedule(h, spec_schedule_seq(block))
}

/// The hash value after the first `n` blocks of the padded message `p`.
#[verifier::opaque]
pub open spec fn spec_process(p: Seq<u8>, n: nat) -> Seq<u32>
    decreases n,
{
    if n == 0 {
        spec_h0()
    } else {
        spec_compress(spec_process(p, (n - 1) as nat), p.subrange(64 * (n - 1), (64 * n) as int))
    }
}

/// The 32-byte digest of a final hash value: its eight words, big-endian.
pub open spec fn spec_digest(h: Seq<u32>) -> Seq<u8> {
    Seq::new(32, |i: int| spec_be_bytes32(h[i / 4])[i % 4])
}

/// SHA-256 of a message (FIPS 180-4, section 6.2).
pub open spec fn spec_sha256(m: Seq<u8>) -> Seq<u8> {
    let p = spec_padding(m);
    spec_digest(spec_process(p, p.len() / 64))
}

// ------------------------------------------------------------------
// Lemmas
// ------------------------------------------------------------------

/// `add32` is addition modulo 2^32.
pub proof fn lemma_add32_is_addition_mod(a: u32, b: u32)
    ensures
        add32(a, b) == (a as int + b as int) % 0x1_0000_0000,
{
}

/// Rotating right by `n` and then by `32 - n` gives the word back.
pub proof fn lemma_rotr_inverse(x: u32, n: u32)
    requires
        1 <= n <= 31,
    ensures
        spec_rotr(spec_rotr(x, n), (32 - n) as u32) == x,
{
    assert(((((x >> n) | (x << ((32 - n) as u32))) >> ((32 - n) as u32)) | (((x >> n) | (x << ((
    32 - n) as u32))) << ((32 - ((32 - n) as u32)) as u32))) == x) by (bit_vector)
        requires
            1 <= n <= 31,
    ;
}

/// The majority of three words does not depend on their order, and two equal
/// words decide it.
pub proof fn lemma_maj_symmetric(a: u32, b: u32, c: u32)
    ensures
        spec_maj(a, b, c) == spec_maj(b, a, c),
        spec_maj(a, b, c) == spec_maj(a, c, b),
        spec_maj(a, a, c) == a,
{
    assert((a & b) ^ (a & c) ^ (b & c) == (b & a) ^ (b & c) ^ (a & c)) by (bit_vector);
    assert((a & b) ^ (a & c) ^ (b & c) == (a & c) ^ (a & b) ^ (c & b)) by (bit_vector);
    assert((a & a) ^ (a & c) ^ (a & c) == a) by (bit_vector);
}

/// `len + x` modulo 64 depends only on `len % 64` and `x`.
proof fn lemma_mod64_shift(len: nat, x: int)
    requires
        x >= 0,
    ensures
        (len + x) % 64 == ((len % 64) as int + x) % 64,
{
    let q = len as int / 64;
    vstd::arithmetic::div_mod::lemma_fundamental_div_mod(len as int, 64);
    vstd::arithmetic::div_mod::lemma_mod_multiples_vanish(q, (len % 64) as int + x, 64);
}

/// The zero count makes `len + 1 + k` reach the length field exactly, and no
/// smaller count does.
pub proof fn lemma_zero_count_least(len: nat)
    ensures
        spec_zero_count(len) < 64,
        fills_to_length_field(len, spec_zero_count(len)),
        forall|k: nat| k < spec_zero_count(len) ==> !#[trigger] fills_to_length_field(len, k),
{
    let r = (len % 64) as int;
    let k = spec_zero_count(len);
    if r <= 55 {
        assert(k == 55 - r);
    } else {
        assert(k == 119 - r);
    }
    lemma_mod64_shift(len, 1 + k as int);
    assert forall|k2: nat| k2 < spec_zero_count(len) implies !#[trigger] fills_to_length_field(
        len,
        k2,
    ) by {
        lemma_mod64_shift(len, 1 + k2 as int);
    }
}

/// The padded message is a whole number of 64-byte blocks, starts with the
/// message followed by the byte 0x80.
pub proof fn lemma_padding_shape(m: Seq<u8>)
    ensures
        spec_padding(m).len() == m.len() + 1 + spec_zero_count(m.len()) + 8,
        spec_padding(m).len() % 64 == 0,
        spec_padding(m).subrange(0, m.len() as int) == m,
        spec_padding(m)[m.len() as int] == 0x80u8,
{
    let p = spec_padding(m);
    let k = spec_zero_count(m.len());
    lemma_zero_count_least(m.len());
    lemma_mod64_shift(m.len(), 1 + k as int);
    lemma_mod64_shift(m.len(), 1 + k as int + 8);
    assert(p.subrange(0, m.len() as int) =~= m);
}

/// The number that eight bytes denote, most significant first.
pub open spec fn valor_be(b: Seq<u8>) -> int {
    b[0] as int * 0x100_0000_0000_0000 + b[1] as int * 0x1_0000_0000_0000 + b[2] as int
        * 0x100_0000_0000 + b[3] as int * 0x1_0000_0000 + b[4] as int * 0x100_0000 + b[5] as int
        * 0x1_0000 + b[6] as int * 0x100 + b[7] as int
}

/// Dividing by `d` splits into dividing by `256 d` and the next byte.
proof fn lemma_div_byte(x: int, d: int)
    requires
        x >= 0,
        d > 0,
    ensures
        x / d == (x / (d * 256)) * 256 + (x / d) % 256,
{
    vstd::arithmetic::div_mod::lemma_fundamental_div_mod(x / d, 256);
    vstd::arithmetic::div_mod::lemma_div_denominator(x, d, 256);
}

/// The eight big-endian bytes of a 64-bit word denote the word.
proof fn lemma_be_bytes64_valor(x: u64)
    ensures
        valor_be(spec_be_bytes64(x)) == x,
{
    let v = x as int;
    lemma_div_byte(v, 1);
    lemma_div_byte(v, 0x100);
    lemma_div_byte(v, 0x1_0000);
    lemma_div_byte(v, 0x100_0000);
    lemma_div_byte(v, 0x1_0000_0000);
    lemma_div_byte(v, 0x100_0000_0000);
    lemma_div_byte(v, 0x1_0000_0000_0000);
    assert(v / 0x100_0000_0000_0000 < 0x100);
}

/// What padding does, field by field (FIPS 180-4, 5.1.1): the padded message
/// is a whole number of 64-byte blocks, between 9 and 72 bytes longer than
/// the message; it starts with the message, then the byte 0x80, then only
/// zero bytes up to its last eight, which denote the full length of the
/// message in bits as a big-endian number.
pub proof fn lemma_padding_campos(m: Seq<u8>)
    requires
        m.len() < 0x2000_0000_0000_0000,
    ensures
        spec_padding(m).len() % 64 == 0,
        m.len() + 9 <= spec_padding(m).len() <= m.len() + 72,
        forall|i: int| 0 <= i < m.len() ==> #[trigger] spec_padding(m)[i] == m[i],
        spec_padding(m)[m.len() as int] == 0x80u8,
        forall|i: int|
            m.len() < i < spec_padding(m).len() - 8 ==> #[trigger] spec_padding(m)[i] == 0u8,
        valor_be(spec_padding(m).subrange(spec_padding(m).len() - 8, spec_padding(m).len() as int))
            == 8 * m.len(),
{
    let p = spec_padding(m);
    let k = spec_zero_count(m.len());
    lemma_padding_shape(m);
    lemma_zero_count_least(m.len());
    assert forall|i: int| 0 <= i < m.len() implies #[trigger] p[i] == m[i] by {
        assert(p.subrange(0, m.len() as int)[i] == p[i]);
    }
    let x = (8 * m.len()) as u64;
    lemma_be_bytes64_valor(x);
    assert(p.subrange(p.len() - 8, p.len() as int) =~= spec_be_bytes64(x));
}

// ------------------------------------------------------------------
// The functions of the algorithm
// ------------------------------------------------------------------

/// Rotates `x` right by `n` bits: ROTR^n(x).
fn rotr(x: u32, n: u32) -> (r: u32)
    requires
        0 < n < 32,
    ensures
        r == spec_rotr(x, n),
{
    proof {
        assert((x << ((32 - n) as u32)) | (x >> n) == (x >> n) | (x << ((32 - n) as u32)))
            by (bit_vector);
    }
    (x << (32 - n)) | (x >> n)
}

/// Shifts `x` right by `n` bits: SHR^n(x).
fn shr(x: u32, n: u32) -> (r: u32)
    requires
        n < 32,
    ensures
        r == spec_shr(x, n),
{
    x >> n
}

/// σ0, used in the message schedule.
fn sig0(x: u32) -> (r: u32)
    ensures
        r == spec_sig0(x),
{
    rotr(x, 7) ^ rotr(x, 18) ^ shr(x, 3)
}

/// σ1, used in the message schedule.
fn sig1(x: u32) -> (r: u32)
    ensures
        r == spec_sig1(x),
{
    rotr(x, 17) ^ rotr(x, 19) ^ shr(x, 10)
}

/// Σ0, used in the compression (a, b, c, d).
fn bsig0(x: u32) -> (r: u32)
    ensures
        r == spec_bsig0(x),
{
    rotr(x, 2) ^ rotr(x, 13) ^ rotr(x, 22)
}

/// Σ1, used in the compression (e, f, g, h).
fn bsig1(x: u32) -> (r: u32)
    ensures
        r == spec_bsig1(x),
{
    rotr(x, 6) ^ rotr(x, 11) ^ rotr(x, 25)
}

/// Choose: for each bit, `e` chooses between `f` (e = 1) and `g` (e = 0).
fn ch(e: u32, f: u32, g: u32) -> (r: u32)
    ensures
        r == spec_ch(e, f, g),
{
    (e & f) ^ ((!e) & g)
}

/// Majority: each bit is 1 when most of `a`, `b`, `c` have it set.
fn maj(a: u32, b: u32, c: u32) -> (r: u32)
    ensures
        r == spec_maj(a, b, c),
{
    (a & b) ^ (a & c) ^ (b & c)
}

/// The big-endian word made of four bytes.
fn word_from_be_bytes(b0: u8, b1: u8, b2: u8, b3: u8) -> (r: u32)
    ensures
        r == spec_be_word(seq![b0, b1, b2, b3], 0),
{
    let r = ((b0 as u32) << 24) | ((b1 as u32) << 16) | ((b2 as u32) << 8) | (b3 as u32);
    assert(r == (b0 as u32) * 0x100_0000 + (b1 as u32) * 0x1_0000 + (b2 as u32) * 0x100
        + (b3 as u32)) by (bit_vector)
        requires
            r == ((b0 as u32) << 24) | ((b1 as u32) << 16) | ((b2 as u32) << 8) | (b3 as u32),
    ;
    r
}

/// The four big-endian bytes of a word.
fn word_to_be_bytes(x: u32) -> (r: [u8; 4])
    ensures
        r@ == spec_be_bytes32(x),
{
    let r = [(x >> 24) as u8, (x >> 16) as u8, (x >> 8) as u8, x as u8];
    assert((x >> 24) as u8 == (x / 0x100_0000) as u8) by (bit_vector);
    assert((x >> 16) as u8 == ((x / 0x1_0000) % 0x100) as u8) by (bit_vector);
    assert((x >> 8) as u8 == ((x / 0x100) % 0x100) as u8) by (bit_vector);
    assert(x as u8 == (x % 0x100) as u8) by (bit_vector);
    assert(r@ =~= spec_be_bytes32(x));
    r
}

/// The eight big-endian bytes of a 64-bit integer.
fn u64_to_be_bytes(x: u64) -> (r: [u8; 8])
    ensures
        r@ == spec_be_bytes64(x),
{
    let r = [
        (x >> 56) as u8,
        (x >> 48) as u8,
        (x >> 40) as u8,
        (x >> 32) as u8,
        (x >> 24) as u8,
        (x >> 16) as u8,
        (x >> 8) as u8,
        x as u8,
    ];
    assert((x >> 56) as u8 == (x / 0x100_0000_0000_0000) as u8) by (bit_vector);
    assert((x >> 48) as u8 == ((x / 0x1_0000_0000_0000) % 0x100) as u8) by (bit_vector);
    assert((x >> 40) as u8 == ((x / 0x100_0000_0000) % 0x100) as u8) by (bit_vector);
    assert((x >> 32) as u8 == ((x / 0x1_0000_0000) % 0x100) as u8) by (bit_vector);
    assert((x >> 24) as u8 == ((x / 0x100_0000) % 0x100) as u8) by (bit_vector);
    assert((x >> 16) as u8 == ((x / 0x1_0000) % 0x100) as u8) by (bit_vector);
    assert((x >> 8) as u8 == ((x / 0x100) % 0x100) as u8) by (bit_vector);
    assert(x as u8 == (x % 0x100) as u8) by (bit_vector);
    assert(r@ =~= spec_be_bytes64(x));
    r
}

/// The message schedule W_0..W_63 of the block `resultado[inicio..inicio + 64]`.
fn expand_schedule(resultado: &Vec<u8>, inicio: usize) -> (w: [u32; 64])
    requires
        inicio + 64 <= resultado@.len(),
    ensures
        w@ == spec_schedule_seq(resultado@.subrange(inicio as int, inicio + 64)),
{
    let ghost bloco = resultado@.subrange(inicio as int, inicio + 64);
    let mut w: [u32; 64] = [0u32; 64];
    let n = resultado.len();

    // W[0..15]: the block's words, four bytes each
    for i in 0..16
        invariant
            n == resultado@.len(),
            inicio + 64 <= n,
            bloco == resultado@.subrange(inicio as int, inicio + 64),
            forall|t: int| 0 <= t < i ==> w[t] == spec_schedule(bloco, t as nat),
    {
        w[i] = word_from_be_bytes(
            resultado[inicio + i * 4],
            resultado[inicio + i * 4 + 1],
            resultado[inicio + i * 4 + 2],
            resultado[inicio + i * 4 + 3],
        );
        proof {
            reveal(spec_schedule);
            assert(bloco[4 * i] == resultado@[inicio + 4 * i]);
            assert(bloco[4 * i + 1] == resultado@[inicio + 4 * i + 1]);
            assert(bloco[4 * i + 2] == resultado@[inicio + 4 * i + 2]);
            assert(bloco[4 * i + 3] == resultado@[inicio + 4 * i + 3]);
        }
    }

    // W[16..63]: the expansion, modulo 2^32
    for i in 16..64
        invariant
            forall|t: int| 0 <= t < i ==> w[t] == spec_schedule(bloco, t as nat),
    {
        w[i] = sig1(w[i - 2]).wrapping_add(w[i - 7]).wrapping_add(sig0(w[i - 15])).wrapping_add(
            w[i - 16],
        );
        proof {
            reveal(spec_schedule);
        }
    }
    assert(w@ =~= spec_schedule_seq(bloco));
    w
}

/// The intermediate hash value after the block whose schedule is `w`.
fn compress(h: [u32; 8], w: &[u32; 64]) -> (novo: [u32; 8])
    ensures
        novo@ == spec_compress_schedule(h@, w@),
{
    let mut h = h;
    let ghost h_antes = h@;
    let mut vars = h;
    let mut t1: u32;
    let mut t2: u32;

    proof {
        reveal_with_fuel(spec_rounds, 1);
    }
    for i in 0..64
        invariant
            vars@ == spec_rounds(h_antes, w@, i as nat),
    {
        let h_temp = vars[7];

        t1 = h_temp.wrapping_add(bsig1(vars[4])).wrapping_add(
            ch(vars[4], vars[5], vars[6]),
        ).wrapping_add(K[i]).wrapping_add(w[i]);

        t2 = bsig0(vars[0]).wrapping_add(maj(vars[0], vars[1], vars[2]));

        let ghost antes = vars@;
        // update of the working variables
        vars[7] = vars[6];  // h = g
        vars[6] = vars[5];  // g = f
        vars[5] = vars[4];  // f = e
        vars[4] = vars[3].wrapping_add(t1);  // e = d + T1
        vars[3] = vars[2];  // d = c
        vars[2] = vars[1];  // c = b
        vars[1] = vars[0];  // b = a
        vars[0] = t1.wrapping_add(t2);  // a = T1 + T2
        assert(vars@ =~= spec_round(antes, K@[i as int], w@[i as int]));
        proof {
            reveal_with_fuel(spec_rounds, 1);
        }
    }

    // back into h
    h[0] = h[0].wrapping_add(vars[0]);
    h[1] = h[1].wrapping_add(vars[1]);
    h[2] = h[2].wrapping_add(vars[2]);
    h[3] = h[3].wrapping_add(vars[3]);
    h[4] = h[4].wrapping_add(vars[4]);
    h[5] = h[5].wrapping_add(vars[5]);
    h[6] = h[6].wrapping_add(vars[6]);
    h[7] = h[7].wrapping_add(vars[7]);
    assert(h@ =~= spec_compress_schedule(h_antes, w@));
    h
}

/// The padded message: the message, the byte 0x80, zero bytes up to 56
/// modulo 64, and the length in bits as a big-endian 64-bit integer.
fn pad(message: &[u8]) -> (resultado: Vec<u8>)
    requires
        message@.len() < 0x2000_0000_0000_0000,
        message@.len() + 72 <= usize::MAX,
    ensures
        resultado@ == spec_padding(message@),
{
    let mut resultado: Vec<u8> = Vec::new();
    let len_message: u64 = (message.len() as u64) * 8;  // length in bits

    resultado.extend_from_slice(message);  // the message
    assert(resultado@ =~= message@);
    resultado.push(0x80);  // the mandatory '1' bit
    assert(resultado@ =~= message@ + seq![0x80u8]);

    let zeros: usize = (120 - (resultado.len() % 64)) % 64;
    let preenchimento: Vec<u8> = vec![0u8; zeros];
    resultado.extend_from_slice(preenchimento.as_slice());  // zero bytes
    assert(resultado@ =~= message@ + seq![0x80u8] + Seq::new(zeros as nat, |i: int| 0u8));
    let tamanho = u64_to_be_bytes(len_message);
    resultado.extend_from_slice(&tamanho);  // 64-bit big-endian length

    proof {
        let m = message@;
        assert(zeros == spec_zero_count(m.len())) by {
            lemma_mod64_shift(m.len(), 1);
        }
        assert(resultado@ =~= spec_padding(m));
    }
    resultado
}

/// SHA-256 of `message` (FIPS 180-4).
pub fn sha256(message: &[u8]) -> (hash: [u8; 32])
    requires
        message@.len() < 0x2000_0000_0000_0000,
        message@.len() + 72 <= usize::MAX,
    ensures
        hash@ == spec_sha256(message@),
{
    // initial registers: square roots of the first eight primes
    let mut h: [u32; 8] = [
        0x6a09e667, 0xbb67ae85, 0x3c6ef372, 0xa54ff53a,
        0x510e527f, 0x9b05688c, 0x1f83d9ab, 0x5be0cd19,
    ];
    assert(h@ =~= spec_h0());

    // padding
    let resultado = pad(message);
    let ghost p = spec_padding(message@);
    proof {
        lemma_padding_shape(message@);
        reveal(spec_process);
    }

    // each block of 512 bits (64 bytes)
    let num_blocos: usize = resultado.len() / 64;
    let mut j: usize = 0;
    while j < num_blocos
        invariant
            resultado@ == p,
            num_blocos == p.len() / 64,
            p.len() <= usize::MAX,
            p.len() % 64 == 0,
            j <= num_blocos,
            h@ == spec_process(p, j as nat),
        decreases num_blocos - j,
    {
        proof {
            assert(j * 64 + 64 <= p.len()) by (nonlinear_arith)
                requires
                    j < num_blocos,
                    num_blocos == p.len() / 64,
            ;
        }
        let inicio: usize = j * 64;
        let w = expand_schedule(&resultado, inicio);
        h = compress(h, &w);
        proof {
            reveal(spec_process);
            assert(spec_process(p, (j + 1) as nat) == spec_compress(
                spec_process(p, j as nat),
                p.subrange(64 * j, 64 * (j + 1)),
            ));
        }
        j += 1;
    }

    // the final digest
    let mut hash_final: [u8; 32] = [0u8; 32];

    for i in 0..8
        invariant
            forall|k: int| 0 <= k < 4 * i ==> hash_final[k] == spec_digest(h@)[k],
    {
        let bytes = word_to_be_bytes(h[i]);
        hash_final[i * 4] = bytes[0];
        hash_final[i * 4 + 1] = bytes[1];
        hash_final[i * 4 + 2] = bytes[2];
        hash_final[i * 4 + 3] = bytes[3];
    }
    assert(hash_final@ =~= spec_digest(h@));
    hash_final
}

} // verus!
