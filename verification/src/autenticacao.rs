//! File authentication by digest: the SHA-256 of a file's contents in lowercase
//! hexadecimal, and the check of a file's contents against a given digest.
use crate::sha256::{sha256, spec_sha256};
use vstd::prelude::*;

verus! {

/// The lowercase hexadecimal digit of a value below 16: '0' to '9', then 'a' to 'f'.
pub open spec fn spec_hex_digit(v: int) -> char {
    if v < 10 {
        (48 + v) as char
    } else {
        (87 + v) as char
    }
}

/// The lowercase hexadecimal text of some bytes: two digits per byte, the high
/// four bits first.
pub open spec fn spec_hex_lower(data: Seq<u8>) -> Seq<char> {
    Seq::new(
        2 * data.len(),
        |i: int|
            if i % 2 == 0 {
                spec_hex_digit((data[i / 2] / 16) as int)
            } else {
                spec_hex_digit((data[i / 2] % 16) as int)
            },
    )
}

/// The hexadecimal digest that `calcular_hash` gives for a file's contents.
pub open spec fn spec_hash_hex(message: Seq<u8>) -> Seq<char> {
    spec_hex_lower(spec_sha256(message))
}

/// Whether `hash` is the digest of the contents `message`.
pub open spec fn spec_verificar(message: Seq<u8>, hash: Seq<char>) -> bool {
    hash == spec_hash_hex(message)
}

/// `hex::encode`: for each byte, the lowercase hexadecimal digit of its high
/// four bits, then that of its low four bits.
#[verifier::external_body]
fn hex_encode(data: &[u8]) -> (s: String)
    ensures
        s@ == spec_hex_lower(data@),
{
    hex::encode(data)
}

/// The SHA-256 digest of a file's contents, in lowercase hexadecimal.
pub fn calcular_hash(message: &[u8]) -> (hash: String)
    requires
        message@.len() < 0x2000_0000_0000_0000,
        message@.len() + 72 <= usize::MAX,
    ensures
        hash@ == spec_hash_hex(message@),
{
    let hash: [u8; 32] = sha256(message);
    hex_encode(&hash)
}

/// Whether the file's contents have the given digest: the SHA-256 of the
/// contents, in lowercase hexadecimal, is exactly `hash`.
pub fn verificar(message: &[u8], hash: &str) -> (autentico: bool)
    requires
        message@.len() < 0x2000_0000_0000_0000,
        message@.len() + 72 <= usize::MAX,
    ensures
        autentico == spec_verificar(message@, hash@),
{
    let hash_caminho: [u8; 32] = sha256(message);
    let esperado: String = hash.to_owned();
    esperado == hex_encode(&hash_caminho)
}

/// Distinct values below 16 have distinct digits.
proof fn lemma_hex_digit_injective(v: int, w: int)
    requires
        0 <= v < 16,
        0 <= w < 16,
        spec_hex_digit(v) == spec_hex_digit(w),
    ensures
        v == w,
{
    let cv = if v < 10 { 48 + v } else { 87 + v };
    let cw = if w < 10 { 48 + w } else { 87 + w };
    assert(spec_hex_digit(v) as int == cv);
    assert(spec_hex_digit(w) as int == cw);
}

/// Two byte strings with the same hexadecimal text are equal.
pub proof fn lemma_hex_injective(a: Seq<u8>, b: Seq<u8>)
    requires
        spec_hex_lower(a) == spec_hex_lower(b),
    ensures
        a == b,
{
    assert(spec_hex_lower(a).len() == 2 * a.len());
    assert(spec_hex_lower(b).len() == 2 * b.len());
    assert(a.len() == b.len());
    assert forall|i: int| 0 <= i < a.len() implies a[i] == b[i] by {
        assert(0 <= 2 * i + 1 < 2 * a.len());
        assert((2 * i) / 2 == i && (2 * i) % 2 == 0);
        assert((2 * i + 1) / 2 == i && (2 * i + 1) % 2 == 1);
        assert(spec_hex_lower(a)[2 * i] == spec_hex_digit((a[i] / 16) as int));
        assert(spec_hex_lower(b)[2 * i] == spec_hex_digit((b[i] / 16) as int));
        assert(spec_hex_lower(a)[2 * i + 1] == spec_hex_digit((a[i] % 16) as int));
        assert(spec_hex_lower(b)[2 * i + 1] == spec_hex_digit((b[i] % 16) as int));
        let hi_a = a[i] / 16;
        let hi_b = b[i] / 16;
        let lo_a = a[i] % 16;
        let lo_b = b[i] % 16;
        assert(spec_hex_digit(hi_a as int) == spec_hex_digit(hi_b as int));
        assert(spec_hex_digit(lo_a as int) == spec_hex_digit(lo_b as int));
        lemma_hex_digit_injective(hi_a as int, hi_b as int);
        lemma_hex_digit_injective(lo_a as int, lo_b as int);
        assert(hi_a == hi_b);
        assert(lo_a == lo_b);
    }
    assert(a =~= b);
}

/// A file is authentic against the digest `calcular_hash` gives for it; that
/// digest has 64 characters; and a file is authentic against the digest of
/// another file only when the two have the same SHA-256.
pub proof fn lemma_own_digest_authenticates(message: Seq<u8>, other: Seq<u8>)
    ensures
        spec_verificar(message, spec_hash_hex(message)),
        spec_hash_hex(message).len() == 64,
        spec_verificar(message, spec_hash_hex(other)) ==> spec_sha256(message) == spec_sha256(other),
{
    if spec_verificar(message, spec_hash_hex(other)) {
        lemma_hex_injective(spec_sha256(message), spec_sha256(other));
    }
}

/// The code of the lowercase hexadecimal digit of a value below 16.
pub open spec fn codigo_hex(v: int) -> int {
    if v < 10 {
        48 + v
    } else {
        87 + v
    }
}

/// A check succeeds exactly on the digest `calcular_hash` gives for the same
/// contents, and on nothing else: not on a prefix, not in uppercase, not with
/// anything around it. Character by character, the accepted text has 64
/// characters, the lowercase hexadecimal digits of the SHA-256 of the
/// contents, high four bits of each byte first.
pub proof fn lemma_verificar_exato(message: Seq<u8>, hash: Seq<char>)
    ensures
        spec_verificar(message, hash) <==> hash == spec_hash_hex(message),
        spec_verificar(message, hash) ==> hash.len() == 64,
        spec_verificar(message, hash) <==> (hash.len() == 64 && forall|i: int|
            0 <= i < 64 ==> #[trigger] hash[i] as int == codigo_hex(
                if i % 2 == 0 {
                    (spec_sha256(message)[i / 2] / 16) as int
                } else {
                    (spec_sha256(message)[i / 2] % 16) as int
                },
            )),
{
    let d = spec_sha256(message);
    let h = spec_hash_hex(message);
    assert(d.len() == 32);
    assert(h.len() == 64);
    assert forall|i: int| 0 <= i < 64 implies #[trigger] h[i] as int == codigo_hex(
        if i % 2 == 0 {
            (d[i / 2] / 16) as int
        } else {
            (d[i / 2] % 16) as int
        },
    ) by {
        let v: int = if i % 2 == 0 {
            (d[i / 2] / 16) as int
        } else {
            (d[i / 2] % 16) as int
        };
        assert(0 <= v < 16);
        assert(h[i] == spec_hex_digit(v));
    }
    if hash.len() == 64 && forall|i: int|
        0 <= i < 64 ==> #[trigger] hash[i] as int == codigo_hex(
            if i % 2 == 0 {
                (d[i / 2] / 16) as int
            } else {
                (d[i / 2] % 16) as int
            },
        ) {
        assert forall|i: int| 0 <= i < 64 implies hash[i] == h[i] by {
            assert(hash[i] as int == h[i] as int);
        }
        assert(hash =~= h);
    }
}

} // verus!
