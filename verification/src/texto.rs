//! The text of the RSA command line: whitespace, splitting at commas, reading
//! and writing decimal numbers, and encrypting or decrypting a text byte by byte.
use crate::rsa::{
    cifrar, decifrar, is_prime, lemma_rsa_round_trip, mod_pow_cabe, spec_decrypt, spec_encrypt, spec_gcd,
    spec_private_key, spec_public_key, PrivateKey, PublicKey,
};
use vstd::prelude::*;

verus! {

// ------------------------------------------------------------------
// Specifications
// ------------------------------------------------------------------

/// The characters with the Unicode property White_Space (those that
/// `char::is_whitespace` accepts).
pub open spec fn spec_is_whitespace(c: char) -> bool {
    let v = c as u32;
    ||| 0x09 <= v <= 0x0d
    ||| v == 0x20
    ||| v == 0x85
    ||| v == 0xa0
    ||| v == 0x1680
    ||| 0x2000 <= v <= 0x200a
    ||| v == 0x2028
    ||| v == 0x2029
    ||| v == 0x202f
    ||| v == 0x205f
    ||| v == 0x3000
}

/// The text without its leading whitespace.
pub open spec fn spec_trim_start(s: Seq<char>) -> Seq<char>
    decreases s.len(),
{
    if s.len() > 0 && spec_is_whitespace(s[0]) {
        spec_trim_start(s.drop_first())
    } else {
        s
    }
}

/// The text without its trailing whitespace.
pub open spec fn spec_trim_end(s: Seq<char>) -> Seq<char>
    decreases s.len(),
{
    if s.len() > 0 && spec_is_whitespace(s.last()) {
        spec_trim_end(s.drop_last())
    } else {
        s
    }
}

/// The text without leading and trailing whitespace (`str::trim`).
pub open spec fn spec_trim(s: Seq<char>) -> Seq<char> {
    spec_trim_end(spec_trim_start(s))
}

/// The pieces of a text before its last comma, and the piece after it.
pub open spec fn spec_split_parts(s: Seq<char>) -> (Seq<Seq<char>>, Seq<char>)
    decreases s.len(),
{
    if s.len() == 0 {
        (seq![], seq![])
    } else {
        let (done, cur) = spec_split_parts(s.drop_last());
        if s.last() == ',' {
            (done.push(cur), seq![])
        } else {
            (done, cur.push(s.last()))
        }
    }
}

/// The pieces of a text between its commas (`str::split(',')`).
pub open spec fn spec_split_commas(s: Seq<char>) -> Seq<Seq<char>> {
    let (done, cur) = spec_split_parts(s);
    done.push(cur)
}

/// A decimal digit.
pub open spec fn spec_is_digit(c: char) -> bool {
    '0' <= c <= '9'
}

/// The value of a string of decimal digits.
pub open spec fn spec_decimal_value(ds: Seq<char>) -> nat
    decreases ds.len(),
{
    if ds.len() == 0 {
        0
    } else {
        spec_decimal_value(ds.drop_last()) * 10 + (ds.last() as nat - 48) as nat
    }
}

/// The digits of a number text: the text without a leading '+'.
pub open spec fn spec_unsigned_digits(s: Seq<char>) -> Seq<char> {
    if s.len() > 0 && s[0] == '+' {
        s.drop_first()
    } else {
        s
    }
}

/// The number a text denotes as a `u64` (`str::parse::<u64>`): an optional
/// '+', then at least one decimal digit and nothing else, of value at most
/// `u64::MAX`.
pub open spec fn spec_parse_u64(s: Seq<char>) -> Option<u64> {
    let ds = spec_unsigned_digits(s);
    if ds.len() > 0 && (forall|i: int| 0 <= i < ds.len() ==> spec_is_digit(#[trigger] ds[i]))
        && spec_decimal_value(ds) <= u64::MAX {
        Some(spec_decimal_value(ds) as u64)
    } else {
        None
    }
}

/// Every piece of the text, trimmed, is a number.
pub open spec fn spec_all_numbers(pieces: Seq<Seq<char>>) -> bool {
    forall|i: int| 0 <= i < pieces.len() ==> #[trigger] spec_parse_u64(spec_trim(pieces[i])) is Some
}

/// The numbers of a comma-separated list, or `None` when a piece is not one.
pub open spec fn spec_ler_numeros(s: Seq<char>) -> Option<Seq<u64>> {
    let pieces = spec_split_commas(s);
    if spec_all_numbers(pieces) {
        Some(Seq::new(pieces.len(), |i: int| spec_parse_u64(spec_trim(pieces[i]))->0))
    } else {
        None
    }
}

/// The digit character of a value below 10.
pub open spec fn spec_digit_char(v: nat) -> char {
    (48 + v) as char
}

/// The decimal text of a number, without leading zeros (`u64::to_string`).
pub open spec fn spec_decimal_text(v: nat) -> Seq<char>
    decreases v,
{
    if v < 10 {
        seq![spec_digit_char(v)]
    } else {
        spec_decimal_text(v / 10).push(spec_digit_char(v % 10))
    }
}

/// The texts joined with commas between them (`join(",")`).
pub open spec fn spec_join_commas(ts: Seq<Seq<char>>) -> Seq<char>
    decreases ts.len(),
{
    if ts.len() == 0 {
        seq![]
    } else if ts.len() == 1 {
        ts[0]
    } else {
        spec_join_commas(ts.drop_last()) + seq![','] + ts.last()
    }
}

/// The comma-separated decimal list of some numbers.
pub open spec fn spec_formatar_numeros(ns: Seq<u64>) -> Seq<char> {
    spec_join_commas(Seq::new(ns.len(), |i: int| spec_decimal_text(ns[i] as nat)))
}

/// The byte-by-byte encryption of a text.
pub open spec fn spec_cifrar_texto(bytes: Seq<u8>, key: (nat, nat)) -> Seq<u64> {
    Seq::new(bytes.len(), |i: int| spec_encrypt(bytes[i] as nat, key) as u64)
}

/// The character of the low byte of a decrypted number.
pub open spec fn spec_char_of(v: nat) -> char {
    ((v % 256) as u8) as char
}

/// The number-by-number decryption of a list, each result read as the
/// character of its low byte.
pub open spec fn spec_decifrar_texto(cs: Seq<u64>, key: (nat, nat)) -> Seq<char> {
    Seq::new(cs.len(), |i: int| spec_char_of(spec_decrypt(cs[i] as nat, key)))
}

// ------------------------------------------------------------------
// Functions
// ------------------------------------------------------------------

/// `String::push`: appends the character to the end of the string.
#[verifier::external_body]
pub(crate) fn string_push(s: &mut String, c: char)
    ensures
        final(s)@ == old(s)@.push(c),
{
    s.push(c);
}

/// Appends the text `t` to `s`.
pub(crate) fn anexar(s: &mut String, t: &str)
    ensures
        final(s)@ == old(s)@ + t@,
{
    let ghost inicio = s@;
    for c in it: t.chars()
        invariant
            s@ == inicio + it.seq().take(it.index() as int),
    {
        string_push(s, c);
        proof {
            assert(inicio + it.seq().take(it.index() + 1) =~= (inicio + it.seq().take(
                it.index() as int,
            )).push(c));
        }
    }
    assert(s@ =~= inicio + t@);
}

/// The characters of a string, in order.
pub fn caracteres(texto: &str) -> (cs: Vec<char>)
    ensures
        cs@ == texto@,
{
    let mut cs: Vec<char> = Vec::new();
    for c in it: texto.chars()
        invariant
            cs@ == it.seq().take(it.index() as int),
    {
        cs.push(c);
    }
    assert(cs@ =~= texto@);
    cs
}

/// Whether a character is Unicode whitespace.
pub fn e_espaco(c: char) -> (r: bool)
    ensures
        r == spec_is_whitespace(c),
{
    let v = c as u32;
    (0x09 <= v && v <= 0x0d) || v == 0x20 || v == 0x85 || v == 0xa0 || v == 0x1680 || (0x2000
        <= v && v <= 0x200a) || v == 0x2028 || v == 0x2029 || v == 0x202f || v == 0x205f || v
        == 0x3000
}


// ------------------------------------------------------------------
// Lemmas for the loops
// ------------------------------------------------------------------

proof fn lemma_subrange_drop_first(s: Seq<char>, a: int, b: int)
    requires
        0 <= a < b <= s.len(),
    ensures
        s.subrange(a, b).drop_first() == s.subrange(a + 1, b),
        s.subrange(a, b)[0] == s[a],
{
    assert(s.subrange(a, b).drop_first() =~= s.subrange(a + 1, b));
}

proof fn lemma_subrange_drop_last(s: Seq<char>, a: int, b: int)
    requires
        0 <= a < b <= s.len(),
    ensures
        s.subrange(a, b).drop_last() == s.subrange(a, b - 1),
        s.subrange(a, b).last() == s[b - 1],
{
    assert(s.subrange(a, b).drop_last() =~= s.subrange(a, b - 1));
}

/// The value of a digit string is at least the value of any of its prefixes.
proof fn lemma_decimal_prefix(ds: Seq<char>, k: int)
    requires
        0 <= k <= ds.len(),
        forall|i: int| 0 <= i < ds.len() ==> spec_is_digit(#[trigger] ds[i]),
    ensures
        spec_decimal_value(ds) >= spec_decimal_value(ds.subrange(0, k)),
    decreases ds.len(),
{
    if k < ds.len() {
        let dl = ds.drop_last();
        assert(dl.subrange(0, k) =~= ds.subrange(0, k));
        lemma_decimal_prefix(dl, k);
        assert(spec_decimal_value(ds) >= spec_decimal_value(dl));
    } else {
        assert(ds.subrange(0, k) =~= ds);
    }
}

/// Splitting a longer text keeps the finished pieces of a shorter prefix.
proof fn lemma_split_parts_prefix(s: Seq<char>, k: int)
    requires
        0 <= k <= s.len(),
    ensures
        spec_split_parts(s.take(k)).0.len() <= spec_split_parts(s).0.len(),
        forall|j: int|
            0 <= j < spec_split_parts(s.take(k)).0.len() ==> spec_split_parts(s).0[j]
                == #[trigger] spec_split_parts(s.take(k)).0[j],
    decreases s.len(),
{
    if k < s.len() {
        let dl = s.drop_last();
        assert(dl.take(k) =~= s.take(k));
        lemma_split_parts_prefix(dl, k);
    } else {
        assert(s.take(k) =~= s);
    }
}

// ------------------------------------------------------------------
// Reading
// ------------------------------------------------------------------

/// The bounds of `cs[ini..fim]` without its leading and trailing whitespace.
fn aparar(cs: &Vec<char>, ini: usize, fim: usize) -> (r: (usize, usize))
    requires
        ini <= fim <= cs@.len(),
    ensures
        ini <= r.0 <= r.1 <= fim,
        cs@.subrange(r.0 as int, r.1 as int) == spec_trim(cs@.subrange(ini as int, fim as int)),
{
    let mut a = ini;
    while a < fim && e_espaco(cs[a])
        invariant
            ini <= a <= fim <= cs@.len(),
            spec_trim_start(cs@.subrange(ini as int, fim as int)) == spec_trim_start(
                cs@.subrange(a as int, fim as int),
            ),
        decreases fim - a,
    {
        proof {
            lemma_subrange_drop_first(cs@, a as int, fim as int);
        }
        a += 1;
    }
    proof {
        if a < fim {
            lemma_subrange_drop_first(cs@, a as int, fim as int);
        }
    }
    let mut b = fim;
    while b > a && e_espaco(cs[b - 1])
        invariant
            ini <= a <= b <= fim <= cs@.len(),
            spec_trim_end(cs@.subrange(a as int, fim as int)) == spec_trim_end(
                cs@.subrange(a as int, b as int),
            ),
        decreases b - a,
    {
        proof {
            lemma_subrange_drop_last(cs@, a as int, b as int);
        }
        b -= 1;
    }
    proof {
        if b > a {
            lemma_subrange_drop_last(cs@, a as int, b as int);
        }
    }
    (a, b)
}

/// The `u64` that `cs[a..b]` denotes, if any.
fn ler_u64_faixa(cs: &Vec<char>, a: usize, b: usize) -> (r: Option<u64>)
    requires
        a <= b <= cs@.len(),
    ensures
        r == spec_parse_u64(cs@.subrange(a as int, b as int)),
{
    let ghost s = cs@.subrange(a as int, b as int);
    let mut i = a;
    if i < b && cs[i] == '+' {
        i += 1;
    }
    let ghost i0 = i as int;
    let ghost ds = spec_unsigned_digits(s);
    proof {
        if a < b {
            lemma_subrange_drop_first(cs@, a as int, b as int);
        }
        assert(ds == cs@.subrange(i0, b as int));
    }
    if i == b {
        return None;
    }
    let mut valor: u64 = 0;
    while i < b
        invariant
            a <= i0 <= i <= b <= cs@.len(),
            ds == cs@.subrange(i0, b as int),
            s == cs@.subrange(a as int, b as int),
            ds == spec_unsigned_digits(s),
            ds.len() > 0,
            forall|j: int| i0 <= j < i ==> spec_is_digit(#[trigger] cs@[j]),
            valor == spec_decimal_value(cs@.subrange(i0, i as int)),
        decreases b - i,
    {
        let c = cs[i];
        if !('0' <= c && c <= '9') {
            proof {
                assert(ds[i - i0] == c);
                assert(!spec_is_digit(ds[i - i0]));
            }
            return None;
        }
        let d: u64 = (c as u32 - 48) as u64;
        proof {
            lemma_subrange_drop_last(cs@, i0, i + 1);
            assert(spec_decimal_value(cs@.subrange(i0, i + 1)) == valor * 10 + d);
        }
        match valor.checked_mul(10) {
            None => {
                proof {
                    if forall|j: int| 0 <= j < ds.len() ==> spec_is_digit(#[trigger] ds[j]) {
                        assert(ds.subrange(0, i + 1 - i0) =~= cs@.subrange(i0, i + 1));
                        lemma_decimal_prefix(ds, i + 1 - i0);
                    }
                }
                return None;
            },
            Some(v) => {
                match v.checked_add(d) {
                    None => {
                        proof {
                            if forall|j: int| 0 <= j < ds.len() ==> spec_is_digit(#[trigger] ds[j]) {
                                assert(ds.subrange(0, i + 1 - i0) =~= cs@.subrange(i0, i + 1));
                                lemma_decimal_prefix(ds, i + 1 - i0);
                            }
                        }
                        return None;
                    },
                    Some(v2) => {
                        valor = v2;
                    },
                }
            },
        }
        i += 1;
    }
    proof {
        assert(cs@.subrange(i0, i as int) == ds);
        assert forall|j: int| 0 <= j < ds.len() implies spec_is_digit(#[trigger] ds[j]) by {
            assert(ds[j] == cs@[i0 + j]);
        }
    }
    Some(valor)
}

/// The `u64` a text denotes (as `str::parse::<u64>` reads it), if any.
pub fn ler_u64(texto: &str) -> (r: Option<u64>)
    ensures
        r == spec_parse_u64(texto@),
{
    let cs = caracteres(texto);
    proof {
        assert(cs@.subrange(0, cs@.len() as int) =~= cs@);
    }
    ler_u64_faixa(&cs, 0, cs.len())
}

/// The numbers of a comma-separated list, each piece trimmed of whitespace;
/// `None` when a piece is not a number.
pub fn ler_numeros(texto: &str) -> (r: Option<Vec<u64>>)
    ensures
        r matches Some(v) ==> spec_ler_numeros(texto@) == Some(v@),
        r is None ==> spec_ler_numeros(texto@) is None,
{
    let cs = caracteres(texto);
    let n = cs.len();
    let mut numeros: Vec<u64> = Vec::new();
    let mut inicio: usize = 0;
    let mut i: usize = 0;
    let ghost mut feitos: Seq<Seq<char>> = seq![];
    while i < n
        invariant
            n == cs@.len(),
            cs@ == texto@,
            inicio <= i <= n,
            spec_split_parts(cs@.take(i as int)) == (feitos, cs@.subrange(inicio as int, i as int)),
            numeros@.len() == feitos.len(),
            forall|j: int|
                0 <= j < feitos.len() ==> spec_parse_u64(spec_trim(#[trigger] feitos[j])) == Some(
                    numeros@[j],
                ),
        decreases n - i,
    {
        proof {
            assert(cs@.take(i + 1).drop_last() =~= cs@.take(i as int));
            assert(cs@.take(i + 1).last() == cs@[i as int]);
        }
        if cs[i] == ',' {
            let (a, b) = aparar(&cs, inicio, i);
            match ler_u64_faixa(&cs, a, b) {
                None => {
                    proof {
                        let pecas = spec_split_commas(cs@);
                        let k = feitos.len() as int;
                        lemma_split_parts_prefix(cs@, i + 1);
                        assert(spec_split_parts(cs@.take(i + 1)).0[k] == cs@.subrange(
                            inicio as int,
                            i as int,
                        ));
                        assert(pecas[k] == cs@.subrange(inicio as int, i as int));
                        assert(!(spec_parse_u64(spec_trim(pecas[k])) is Some));
                    }
                    return None;
                },
                Some(v) => {
                    numeros.push(v);
                },
            }
            proof {
                feitos = feitos.push(cs@.subrange(inicio as int, i as int));
                assert(cs@.subrange(i + 1, i + 1) =~= Seq::<char>::empty());
            }
            inicio = i + 1;
        } else {
            proof {
                assert(cs@.subrange(inicio as int, i + 1) =~= cs@.subrange(
                    inicio as int,
                    i as int,
                ).push(cs@[i as int]));
            }
        }
        i += 1;
    }
    proof {
        assert(cs@.take(n as int) =~= cs@);
    }
    let (a, b) = aparar(&cs, inicio, n);
    match ler_u64_faixa(&cs, a, b) {
        None => {
            proof {
                let pecas = spec_split_commas(cs@);
                assert(pecas[feitos.len() as int] == cs@.subrange(inicio as int, n as int));
            }
            None
        },
        Some(v) => {
            numeros.push(v);
            proof {
                let pecas = spec_split_commas(cs@);
                assert(pecas == feitos.push(cs@.subrange(inicio as int, n as int)));
                assert(spec_all_numbers(pecas));
                assert(numeros@ =~= Seq::new(
                    pecas.len(),
                    |j: int| spec_parse_u64(spec_trim(pecas[j]))->0,
                ));
            }
            Some(numeros)
        },
    }
}

// ------------------------------------------------------------------
// Writing
// ------------------------------------------------------------------

/// Appends the decimal text of `v` to `s`.
fn escrever_decimal(s: &mut String, v: u64)
    ensures
        final(s)@ == old(s)@ + spec_decimal_text(v as nat),
    decreases v,
{
    if v >= 10 {
        escrever_decimal(s, v / 10);
    }
    let d: u8 = (v % 10) as u8;
    let c: char = (48u8 + d) as char;
    string_push(s, c);
    proof {
        if v >= 10 {
            assert(spec_decimal_text(v as nat) == spec_decimal_text((v / 10) as nat).push(
                spec_digit_char((v % 10) as nat),
            ));
        }
    }
}

/// The numbers in decimal, separated by commas (what the encrypting command prints).
pub fn formatar_numeros(numeros: &[u64]) -> (texto: String)
    ensures
        texto@ == spec_formatar_numeros(numeros@),
{
    let ghost ts = Seq::new(numeros@.len(), |i: int| spec_decimal_text(numeros@[i] as nat));
    let mut texto = String::new();
    let n = numeros.len();
    for i in 0..n
        invariant
            n == numeros@.len(),
            ts == Seq::new(numeros@.len(), |i: int| spec_decimal_text(numeros@[i] as nat)),
            texto@ == spec_join_commas(ts.take(i as int)),
    {
        proof {
            assert(ts.take(i + 1).drop_last() =~= ts.take(i as int));
        }
        if i > 0 {
            string_push(&mut texto, ',');
        }
        escrever_decimal(&mut texto, numeros[i]);
        proof {
            if i == 0 {
                assert(ts.take(1) =~= seq![ts[0]]);
            }
        }
    }
    proof {
        assert(ts.take(n as int) =~= ts);
    }
    texto
}

// ------------------------------------------------------------------
// What trimming does
// ------------------------------------------------------------------

/// Trimming the start leaves a suffix of the text that does not start with
/// whitespace, and everything cut off is whitespace.
proof fn lemma_trim_start(s: Seq<char>)
    ensures
        exists|a: int|
            #![trigger s.subrange(a, s.len() as int)]
            0 <= a <= s.len() && spec_trim_start(s) == s.subrange(a, s.len() as int) && (forall|i: int|
                0 <= i < a ==> spec_is_whitespace(#[trigger] s[i])) && (a < s.len()
                ==> !spec_is_whitespace(s[a])),
    decreases s.len(),
{
    if s.len() > 0 && spec_is_whitespace(s[0]) {
        let t = s.drop_first();
        lemma_trim_start(t);
        let a = choose|a: int|
            #![trigger t.subrange(a, t.len() as int)]
            0 <= a <= t.len() && spec_trim_start(t) == t.subrange(a, t.len() as int) && (forall|i: int|
                0 <= i < a ==> spec_is_whitespace(#[trigger] t[i])) && (a < t.len()
                ==> !spec_is_whitespace(t[a]));
        assert(t.subrange(a, t.len() as int) =~= s.subrange(a + 1, s.len() as int));
        assert forall|i: int| 0 <= i < a + 1 implies spec_is_whitespace(#[trigger] s[i]) by {
            if i > 0 {
                assert(s[i] == t[i - 1]);
            }
        }
    } else {
        assert(s.subrange(0, s.len() as int) =~= s);
    }
}

/// Trimming the end leaves a prefix of the text that does not end with
/// whitespace, and everything cut off is whitespace.
proof fn lemma_trim_end(s: Seq<char>)
    ensures
        exists|b: int|
            #![trigger s.subrange(0, b)]
            0 <= b <= s.len() && spec_trim_end(s) == s.subrange(0, b) && (forall|i: int|
                b <= i < s.len() ==> spec_is_whitespace(#[trigger] s[i])) && (0 < b
                ==> !spec_is_whitespace(s[b - 1])),
    decreases s.len(),
{
    if s.len() > 0 && spec_is_whitespace(s.last()) {
        let t = s.drop_last();
        lemma_trim_end(t);
        let b = choose|b: int|
            #![trigger t.subrange(0, b)]
            0 <= b <= t.len() && spec_trim_end(t) == t.subrange(0, b) && (forall|i: int|
                b <= i < t.len() ==> spec_is_whitespace(#[trigger] t[i])) && (0 < b
                ==> !spec_is_whitespace(t[b - 1]));
        assert(t.subrange(0, b) =~= s.subrange(0, b));
        assert forall|i: int| b <= i < s.len() implies spec_is_whitespace(#[trigger] s[i]) by {
            if i < s.len() - 1 {
                assert(s[i] == t[i]);
            }
        }
    } else {
        assert(s.subrange(0, s.len() as int) =~= s);
    }
}

/// What `str::trim` does: it keeps the stretch `s[a..b]` of the text, cuts
/// only whitespace around it, and what it keeps neither starts nor ends with
/// whitespace (so it is empty exactly when the text is all whitespace).
pub proof fn lemma_trim(s: Seq<char>)
    ensures
        exists|a: int, b: int|
            #![trigger s.subrange(a, b)]
            {
                &&& 0 <= a <= b <= s.len()
                &&& spec_trim(s) == s.subrange(a, b)
                &&& forall|i: int| 0 <= i < a ==> spec_is_whitespace(#[trigger] s[i])
                &&& forall|i: int| b <= i < s.len() ==> spec_is_whitespace(#[trigger] s[i])
                &&& a < b ==> !spec_is_whitespace(s[a]) && !spec_is_whitespace(s[b - 1])
                &&& a == b ==> forall|i: int| 0 <= i < s.len() ==> spec_is_whitespace(#[trigger] s[i])
            },
{
    lemma_trim_start(s);
    let a = choose|a: int|
        #![trigger s.subrange(a, s.len() as int)]
        0 <= a <= s.len() && spec_trim_start(s) == s.subrange(a, s.len() as int) && (forall|i: int|
            0 <= i < a ==> spec_is_whitespace(#[trigger] s[i])) && (a < s.len()
            ==> !spec_is_whitespace(s[a]));
    let t = s.subrange(a, s.len() as int);
    lemma_trim_end(t);
    let b = choose|b: int|
        #![trigger t.subrange(0, b)]
        0 <= b <= t.len() && spec_trim_end(t) == t.subrange(0, b) && (forall|i: int|
            b <= i < t.len() ==> spec_is_whitespace(#[trigger] t[i])) && (0 < b
            ==> !spec_is_whitespace(t[b - 1]));
    assert(t.subrange(0, b) =~= s.subrange(a, a + b));
    assert forall|i: int| a + b <= i < s.len() implies spec_is_whitespace(#[trigger] s[i]) by {
        assert(s[i] == t[i - a]);
    }
    if b > 0 {
        assert(s[a + b - 1] == t[b - 1]);
    }
    if b == 0 {
        assert forall|i: int| 0 <= i < s.len() implies spec_is_whitespace(#[trigger] s[i]) by {
            if i >= a {
                assert(s[i] == t[i - a]);
            }
        }
    }
    assert(spec_trim(s) == s.subrange(a, a + b));
}

/// Whitespace around a text does not change how it trims: `str::trim`
/// removes every leading and trailing whitespace character, however many.
pub proof fn lemma_trim_ignora_espacos(w1: Seq<char>, s: Seq<char>, w2: Seq<char>)
    requires
        forall|i: int| 0 <= i < w1.len() ==> spec_is_whitespace(#[trigger] w1[i]),
        forall|i: int| 0 <= i < w2.len() ==> spec_is_whitespace(#[trigger] w2[i]),
    ensures
        spec_trim(w1 + s + w2) == spec_trim(s),
    decreases w1.len() + w2.len(),
{
    if w1.len() > 0 {
        let r = w1.drop_first();
        lemma_trim_ignora_espacos(r, s, w2);
        assert((w1 + s + w2).drop_first() =~= r + s + w2);
        assert((w1 + s + w2)[0] == w1[0]);
    } else if w2.len() > 0 {
        let r = w2.drop_last();
        lemma_trim_ignora_espacos(w1, s, r);
        assert(w1 + s + w2 =~= s + w2);
        assert(w1 + s + r =~= s + r);
        lemma_trim_end_append(s, w2);
    } else {
        assert(w1 + s + w2 =~= s);
    }
}

/// Trimming the end of a text followed by whitespace: the whitespace goes too.
proof fn lemma_trim_end_append(s: Seq<char>, w: Seq<char>)
    requires
        forall|i: int| 0 <= i < w.len() ==> spec_is_whitespace(#[trigger] w[i]),
    ensures
        spec_trim(s + w) == spec_trim(s),
{
    lemma_trim_start_append(s, w);
    let t = spec_trim_start(s);
    if t.len() > 0 {
        lemma_trim_end_ws(t, w);
    } else {
        lemma_trim_start_ws(w);
    }
}

/// Trailing whitespace makes no difference to trimming the end.
proof fn lemma_trim_end_ws(x: Seq<char>, w: Seq<char>)
    requires
        forall|i: int| 0 <= i < w.len() ==> spec_is_whitespace(#[trigger] w[i]),
    ensures
        spec_trim_end(x + w) == spec_trim_end(x),
    decreases w.len(),
{
    if w.len() > 0 {
        let r = w.drop_last();
        lemma_trim_end_ws(x, r);
        assert((x + w).drop_last() =~= x + r);
        assert((x + w).last() == w.last());
    } else {
        assert(x + w =~= x);
    }
}

/// A text of whitespace trims to nothing.
proof fn lemma_trim_start_ws(w: Seq<char>)
    requires
        forall|i: int| 0 <= i < w.len() ==> spec_is_whitespace(#[trigger] w[i]),
    ensures
        spec_trim_start(w).len() == 0,
    decreases w.len(),
{
    if w.len() > 0 {
        assert(spec_is_whitespace(w[0]));
        let r = w.drop_first();
        assert forall|i: int| 0 <= i < r.len() implies spec_is_whitespace(#[trigger] r[i]) by {
            assert(r[i] == w[i + 1]);
        }
        lemma_trim_start_ws(r);
    }
}

/// Trimming the start of a text followed by whitespace.
proof fn lemma_trim_start_append(s: Seq<char>, w: Seq<char>)
    requires
        forall|i: int| 0 <= i < w.len() ==> spec_is_whitespace(#[trigger] w[i]),
    ensures
        spec_trim_start(s + w) == if spec_trim_start(s).len() > 0 {
            spec_trim_start(s) + w
        } else {
            spec_trim_start(w)
        },
    decreases s.len(),
{
    if s.len() > 0 && spec_is_whitespace(s[0]) {
        lemma_trim_start_append(s.drop_first(), w);
        assert((s + w).drop_first() =~= s.drop_first() + w);
    } else if s.len() > 0 {
        assert((s + w)[0] == s[0]);
    } else {
        assert(s + w =~= w);
    }
}

// ------------------------------------------------------------------
// Writing, then reading
// ------------------------------------------------------------------

/// The decimal text of a number is a nonempty string of digits whose value is
/// the number.
pub proof fn lemma_decimal_text(v: nat)
    ensures
        spec_decimal_text(v).len() > 0,
        forall|i: int|
            0 <= i < spec_decimal_text(v).len() ==> spec_is_digit(#[trigger] spec_decimal_text(v)[i]),
        spec_decimal_value(spec_decimal_text(v)) == v,
    decreases v,
{
    let t = spec_decimal_text(v);
    if v < 10 {
        assert(t.drop_last() =~= Seq::<char>::empty());
        assert(spec_decimal_value(t.drop_last()) == 0);
        assert(t.last() == spec_digit_char(v));
        assert((48 + v) as char as nat == 48 + v);
        assert(spec_decimal_value(t) == (t.last() as nat - 48) as nat);
    } else {
        lemma_decimal_text(v / 10);
        let r = v % 10;
        assert(t.drop_last() == spec_decimal_text(v / 10));
        assert((48 + r) as char as nat == 48 + r);
        assert(spec_decimal_value(t) == spec_decimal_value(spec_decimal_text(v / 10)) * 10 + r);
        assert((v / 10) * 10 + r == v);
    }
}

/// Reading the decimal text of a `u64`, trimmed or not, gives the number back.
pub proof fn lemma_parse_decimal_text(v: u64)
    ensures
        spec_trim(spec_decimal_text(v as nat)) == spec_decimal_text(v as nat),
        spec_parse_u64(spec_decimal_text(v as nat)) == Some(v),
{
    let t = spec_decimal_text(v as nat);
    lemma_decimal_text(v as nat);
    assert(!spec_is_whitespace(t[0]));
    assert(!spec_is_whitespace(t.last()));
    assert(spec_trim_start(t) == t);
    assert(spec_trim_end(t) == t);
    assert(spec_unsigned_digits(t) == t);
}

/// Splitting a text followed by a comma-free tail: the tail extends the last piece.
proof fn lemma_split_parts_append(s: Seq<char>, t: Seq<char>)
    requires
        forall|i: int| 0 <= i < t.len() ==> #[trigger] t[i] != ',',
    ensures
        spec_split_parts(s + t) == (spec_split_parts(s).0, spec_split_parts(s).1 + t),
    decreases t.len(),
{
    if t.len() == 0 {
        assert(s + t =~= s);
        assert(spec_split_parts(s).1 + t =~= spec_split_parts(s).1);
    } else {
        let tl = t.drop_last();
        lemma_split_parts_append(s, tl);
        assert((s + t).drop_last() =~= s + tl);
        assert((s + t).last() == t.last());
        assert(spec_split_parts(s).1 + t =~= (spec_split_parts(s).1 + tl).push(t.last()));
    }
}

/// Splitting joined comma-free pieces gives the pieces back.
proof fn lemma_split_parts_join(ts: Seq<Seq<char>>)
    requires
        ts.len() > 0,
        forall|i: int, j: int|
            0 <= i < ts.len() && 0 <= j < ts[i].len() ==> #[trigger] ts[i][j] != ',',
    ensures
        spec_split_parts(spec_join_commas(ts)) == (ts.drop_last(), ts.last()),
    decreases ts.len(),
{
    let last = ts.last();
    assert forall|j: int| 0 <= j < last.len() implies #[trigger] last[j] != ',' by {
        assert(ts[ts.len() - 1][j] != ',');
    }
    if ts.len() == 1 {
        lemma_split_parts_append(seq![], last);
        assert(Seq::<char>::empty() + last =~= last);
        assert(spec_split_parts(Seq::<char>::empty()) == (Seq::<Seq<char>>::empty(), Seq::<char>::empty()));
        assert(Seq::<char>::empty() + last =~= last);
        assert(ts.drop_last() =~= Seq::<Seq<char>>::empty());
    } else {
        let init = ts.drop_last();
        assert forall|i: int, j: int|
            0 <= i < init.len() && 0 <= j < init[i].len() implies #[trigger] init[i][j] != ',' by {
            assert(init[i] == ts[i]);
        }
        lemma_split_parts_join(init);
        let a = spec_join_commas(init) + seq![','];
        assert(a.drop_last() =~= spec_join_commas(init));
        assert(spec_split_parts(a) == (init.drop_last().push(init.last()), Seq::<char>::empty()));
        assert(init.drop_last().push(init.last()) =~= init);
        lemma_split_parts_append(a, last);
        assert(Seq::<char>::empty() + last =~= last);
    }
}

/// Splitting comma-free pieces joined with commas gives the pieces back.
pub proof fn lemma_split_join(ts: Seq<Seq<char>>)
    requires
        ts.len() > 0,
        forall|i: int, j: int|
            0 <= i < ts.len() && 0 <= j < ts[i].len() ==> #[trigger] ts[i][j] != ',',
    ensures
        spec_split_commas(spec_join_commas(ts)) == ts,
{
    lemma_split_parts_join(ts);
    assert(ts.drop_last().push(ts.last()) =~= ts);
}

/// Reading back a nonempty list of numbers written with `formatar_numeros`
/// gives the same numbers. (An empty list is written as the empty text, which
/// does not read as a list.)
pub proof fn lemma_ler_formatar(ns: Seq<u64>)
    requires
        ns.len() > 0,
    ensures
        spec_ler_numeros(spec_formatar_numeros(ns)) == Some(ns),
{
    let ts = Seq::new(ns.len(), |i: int| spec_decimal_text(ns[i] as nat));
    assert forall|i: int, j: int| 0 <= i < ts.len() && 0 <= j < ts[i].len() implies #[trigger] ts[i][j]
        != ',' by {
        lemma_decimal_text(ns[i] as nat);
        assert(spec_is_digit(spec_decimal_text(ns[i] as nat)[j]));
    }
    lemma_split_join(ts);
    let pieces = spec_split_commas(spec_formatar_numeros(ns));
    assert(pieces == ts);
    assert forall|i: int| 0 <= i < pieces.len() implies #[trigger] spec_parse_u64(spec_trim(pieces[i]))
        == Some(ns[i]) by {
        lemma_parse_decimal_text(ns[i]);
    }
    assert(spec_all_numbers(pieces));
    assert(Seq::new(pieces.len(), |i: int| spec_parse_u64(spec_trim(pieces[i]))->0) =~= ns);
}

/// Reading a list whose numbers are written in decimal with any whitespace
/// around each of them gives the numbers: the whitespace around a piece never
/// matters, however much there is.
pub proof fn lemma_ler_com_espacos(ns: Seq<u64>, antes: Seq<Seq<char>>, depois: Seq<Seq<char>>)
    requires
        ns.len() > 0,
        antes.len() == ns.len(),
        depois.len() == ns.len(),
        forall|i: int, j: int|
            0 <= i < antes.len() && 0 <= j < antes[i].len() ==> spec_is_whitespace(#[trigger] antes[i][j]),
        forall|i: int, j: int|
            0 <= i < depois.len() && 0 <= j < depois[i].len() ==> spec_is_whitespace(
                #[trigger] depois[i][j],
            ),
    ensures
        spec_ler_numeros(
            spec_join_commas(
                Seq::new(ns.len(), |i: int| antes[i] + spec_decimal_text(ns[i] as nat) + depois[i]),
            ),
        ) == Some(ns),
{
    let ts = Seq::new(ns.len(), |i: int| antes[i] + spec_decimal_text(ns[i] as nat) + depois[i]);
    assert forall|i: int, j: int| 0 <= i < ts.len() && 0 <= j < ts[i].len() implies #[trigger] ts[i][j]
        != ',' by {
        let d = spec_decimal_text(ns[i] as nat);
        lemma_decimal_text(ns[i] as nat);
        if j < antes[i].len() {
            assert(ts[i][j] == antes[i][j]);
            assert(spec_is_whitespace(antes[i][j]));
        } else if j < antes[i].len() + d.len() {
            assert(ts[i][j] == d[j - antes[i].len()]);
            assert(spec_is_digit(d[j - antes[i].len()]));
        } else {
            assert(ts[i][j] == depois[i][j - antes[i].len() - d.len()]);
            assert(spec_is_whitespace(depois[i][j - antes[i].len() - d.len()]));
        }
    }
    lemma_split_join(ts);
    let pieces = spec_split_commas(spec_join_commas(ts));
    assert forall|i: int| 0 <= i < pieces.len() implies #[trigger] spec_parse_u64(spec_trim(pieces[i]))
        == Some(ns[i]) by {
        assert forall|j: int| 0 <= j < antes[i].len() implies spec_is_whitespace(#[trigger] antes[i][j]) by {}
        assert forall|j: int| 0 <= j < depois[i].len() implies spec_is_whitespace(#[trigger] depois[i][j]) by {}
        lemma_trim_ignora_espacos(antes[i], spec_decimal_text(ns[i] as nat), depois[i]);
        lemma_parse_decimal_text(ns[i]);
    }
    assert(spec_all_numbers(pieces));
    assert(Seq::new(pieces.len(), |i: int| spec_parse_u64(spec_trim(pieces[i]))->0) =~= ns);
}

/// The command line's round trip: a text whose bytes are below `n`, encrypted
/// byte by byte with the key of distinct primes `p`, `q` and an exponent `e`
/// coprime to `(p - 1)(q - 1)`, decrypts to each byte as a character; written
/// as a comma-separated list, it reads back as the same numbers unless the
/// text is empty.
pub proof fn lemma_texto_ida_e_volta(p: nat, q: nat, e: nat, bytes: Seq<u8>)
    requires
        is_prime(p),
        is_prime(q),
        p != q,
        spec_gcd(e, ((p - 1) * (q - 1)) as nat) == 1,
        p * q <= u64::MAX,
        forall|i: int| 0 <= i < bytes.len() ==> bytes[i] < p * q,
    ensures
        bytes.len() > 0 ==> spec_ler_numeros(
            spec_formatar_numeros(spec_cifrar_texto(bytes, spec_public_key(p, q, e))),
        ) == Some(spec_cifrar_texto(bytes, spec_public_key(p, q, e))),
        spec_decifrar_texto(
            spec_cifrar_texto(bytes, spec_public_key(p, q, e)),
            spec_private_key(p, q, e),
        ) == Seq::new(bytes.len(), |i: int| bytes[i] as char),
{
    let pk = spec_public_key(p, q, e);
    let cs = spec_cifrar_texto(bytes, pk);
    if bytes.len() > 0 {
        lemma_ler_formatar(cs);
    }
    assert forall|i: int| 0 <= i < bytes.len() implies #[trigger] spec_char_of(
        spec_decrypt(cs[i] as nat, spec_private_key(p, q, e)),
    ) == bytes[i] as char by {
        let m = bytes[i] as nat;
        let c = spec_encrypt(m, pk);
        lemma_rsa_round_trip(p, q, e, m);
        assert(c < p * q) by {
            assert(p * q > 0) by (nonlinear_arith)
                requires p > 1, q > 1;
            vstd::arithmetic::div_mod::lemma_mod_bound(vstd::arithmetic::power::pow(m as int, e), (p * q) as int);
        }
        assert(cs[i] as nat == c);
        assert((m % 256) == m);
    }
    assert(spec_decifrar_texto(cs, spec_private_key(p, q, e)) =~= Seq::new(
        bytes.len(),
        |i: int| bytes[i] as char,
    ));
}

// ------------------------------------------------------------------
// Encrypting and decrypting texts
// ------------------------------------------------------------------

/// Encrypts each byte of the text with the public key. Each byte must be
/// below `n`, and its exponentiation must stay within 64 bits (true for every
/// byte when `n` is at most 2^32).
pub fn cifrar_texto(texto: &[u8], pub_key: &PublicKey) -> (cifrados: Vec<u64>)
    requires
        forall|i: int| 0 <= i < texto@.len() ==> texto@[i] < pub_key.n,
        forall|i: int|
            0 <= i < texto@.len() ==> mod_pow_cabe(
                (1u64 % pub_key.n) as nat,
                #[trigger] texto@[i] as nat,
                pub_key.e as nat,
                pub_key.n as nat,
            ),
    ensures
        cifrados@ == spec_cifrar_texto(texto@, (pub_key.n as nat, pub_key.e as nat)),
{
    let mut cifrados: Vec<u64> = Vec::new();
    for i in 0..texto.len()
        invariant
            forall|j: int| 0 <= j < texto@.len() ==> texto@[j] < pub_key.n,
            forall|j: int|
                0 <= j < texto@.len() ==> mod_pow_cabe(
                    (1u64 % pub_key.n) as nat,
                    #[trigger] texto@[j] as nat,
                    pub_key.e as nat,
                    pub_key.n as nat,
                ),
            cifrados@ == spec_cifrar_texto(texto@, (pub_key.n as nat, pub_key.e as nat)).take(
                i as int,
            ),
    {
        let c = cifrar(texto[i] as u64, pub_key);
        cifrados.push(c);
        proof {
            assert(cifrados@ =~= spec_cifrar_texto(texto@, (pub_key.n as nat, pub_key.e as nat)).take(
                i + 1,
            ));
        }
    }
    proof {
        assert(cifrados@ =~= spec_cifrar_texto(texto@, (pub_key.n as nat, pub_key.e as nat)));
    }
    cifrados
}

/// Decrypts each number with the private key, and reads each result as the
/// character of its low byte. Each exponentiation must stay within 64 bits
/// (true for every number when `n` is at most 2^32).
pub fn decifrar_texto(cifrados: &[u64], priv_key: &PrivateKey) -> (texto: String)
    requires
        0 < priv_key.n,
        forall|i: int|
            0 <= i < cifrados@.len() ==> mod_pow_cabe(
                (1u64 % priv_key.n) as nat,
                (#[trigger] cifrados@[i] % priv_key.n) as nat,
                priv_key.d as nat,
                priv_key.n as nat,
            ),
    ensures
        texto@ == spec_decifrar_texto(cifrados@, (priv_key.n as nat, priv_key.d as nat)),
{
    let mut texto = String::new();
    for i in 0..cifrados.len()
        invariant
            0 < priv_key.n,
            forall|j: int|
                0 <= j < cifrados@.len() ==> mod_pow_cabe(
                    (1u64 % priv_key.n) as nat,
                    (#[trigger] cifrados@[j] % priv_key.n) as nat,
                    priv_key.d as nat,
                    priv_key.n as nat,
                ),
            texto@ == spec_decifrar_texto(cifrados@, (priv_key.n as nat, priv_key.d as nat)).take(
                i as int,
            ),
    {
        let m = decifrar(cifrados[i], priv_key);
        let b = m as u8;
        proof {
            assert(b == (m % 256) as u8) by (bit_vector)
                requires
                    b == m as u8,
            ;
        }
        string_push(&mut texto, b as char);
        proof {
            assert(texto@ =~= spec_decifrar_texto(
                cifrados@,
                (priv_key.n as nat, priv_key.d as nat),
            ).take(i + 1));
        }
    }
    proof {
        assert(texto@ =~= spec_decifrar_texto(cifrados@, (priv_key.n as nat, priv_key.d as nat)));
    }
    texto
}

} // verus!
