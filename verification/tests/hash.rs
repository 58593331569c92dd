use cripto::autenticacao::{calcular_hash, verificar};
use cripto::sha256::sha256;

fn hex(bytes: &[u8]) -> String {
    let mut s = String::new();
    for b in bytes {
        s.push_str(&format!("{:02x}", b));
    }
    s
}

#[test]
fn sha256_mensagem_vazia() {
    assert_eq!(
        hex(&sha256(b"")),
        "e3b0c44298fc1c149afbf4c8996fb92427ae41e4649b934ca495991b7852b855"
    );
}

#[test]
fn sha256_abc() {
    assert_eq!(
        hex(&sha256(b"abc")),
        "ba7816bf8f01cfea414140de5dae2223b00361a396177a9cb410ff61f20015ad"
    );
}

#[test]
fn sha256_dois_blocos() {
    let m = b"abcdbcdecdefdefgefghfghighijhijkijkljklmklmnlmnomnopnopq";
    assert_eq!(
        hex(&sha256(m)),
        "248d6a61d20638b8e5c026930c3e6039a33ce45964ff2167f6ecedd419db06c1"
    );
}

#[test]
fn sha256_raposa() {
    assert_eq!(
        hex(&sha256(b"The quick brown fox jumps over the lazy dog")),
        "d7a8fbb307d7809469ca9abcb0082e4f8d5651e46d3cdb762d02d0bf37c9e592"
    );
}

// Lengths around the block boundaries: 55 bytes still fit the padding in one
// block, 56 need a second one.
#[test]
fn sha256_55_bytes() {
    assert_eq!(
        hex(&sha256(&[b'a'; 55])),
        "9f4390f8d30c2dd92ec9f095b65e2b9ae9b0a925a5258e241c9f1e910f734318"
    );
}

#[test]
fn sha256_56_bytes() {
    assert_eq!(
        hex(&sha256(&[b'a'; 56])),
        "b35439a4ac6f0948b6d6f9e3c6af0f5f590ce20f1bde7090ef7970686ec6738a"
    );
}

#[test]
fn sha256_64_bytes() {
    assert_eq!(
        hex(&sha256(&[b'a'; 64])),
        "ffe054fe7ae0cb6dc65c3af9b61d5209f439851db43d0ba5997337df154668eb"
    );
}

#[test]
fn sha256_119_bytes() {
    assert_eq!(
        hex(&sha256(&[b'a'; 119])),
        "31eba51c313a5c08226adf18d4a359cfdfd8d2e816b13f4af952f7ea6584dcfb"
    );
}

#[test]
fn sha256_120_bytes() {
    assert_eq!(
        hex(&sha256(&[b'a'; 120])),
        "2f3d335432c70b580af0e8e1b3674a7c020d683aa5f73aaaedfdc55af904c21c"
    );
}

#[test]
fn sha256_mil_bytes() {
    assert_eq!(
        hex(&sha256(&[b'a'; 1000])),
        "41edece42d63e8d9bf515a9ba6932e1c20cbc9f5a5d134645adb5db1b9737ea3"
    );
}

#[test]
fn calcular_hash_em_hex_minusculo() {
    assert_eq!(
        calcular_hash(b"abc"),
        "ba7816bf8f01cfea414140de5dae2223b00361a396177a9cb410ff61f20015ad"
    );
    assert_eq!(calcular_hash(b"").len(), 64);
}

#[test]
fn verificar_arquivo_autentico() {
    let conteudo = b"conteudo do documento\n";
    let hash = calcular_hash(conteudo);
    assert!(verificar(conteudo, &hash));
}

#[test]
fn verificar_arquivo_alterado() {
    let hash = calcular_hash(b"conteudo do documento\n");
    assert!(!verificar(b"conteudo do documento!\n", &hash));
}

#[test]
fn verificar_hash_errado() {
    assert!(!verificar(b"abc", "000000"));
    assert!(!verificar(b"abc", ""));
}

#[test]
fn verificar_compara_o_texto_exato() {
    // The digest is compared as lowercase hex text: uppercase does not match.
    assert!(verificar(
        b"abc",
        "ba7816bf8f01cfea414140de5dae2223b00361a396177a9cb410ff61f20015ad"
    ));
    assert!(!verificar(
        b"abc",
        "BA7816BF8F01CFEA414140DE5DAE2223B00361A396177A9CB410FF61F20015AD"
    ));
}
