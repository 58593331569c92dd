use cripto::rsa::gerar_chaves;
use cripto::texto::{cifrar_texto, decifrar_texto, e_espaco, formatar_numeros, ler_numeros, ler_u64};

fn ler_como_parse(texto: &str) -> Option<Vec<u64>> {
    let mut v = Vec::new();
    for peca in texto.split(',') {
        match peca.trim().parse::<u64>() {
            Ok(n) => v.push(n),
            Err(_) => return None,
        }
    }
    Some(v)
}

#[test]
fn ler_u64_valores() {
    assert_eq!(ler_u64("0"), Some(0));
    assert_eq!(ler_u64("67591"), Some(67591));
    assert_eq!(ler_u64("+12"), Some(12));
    assert_eq!(ler_u64("007"), Some(7));
    assert_eq!(ler_u64("18446744073709551615"), Some(u64::MAX));
}

#[test]
fn ler_u64_recusa() {
    assert_eq!(ler_u64(""), None);
    assert_eq!(ler_u64("+"), None);
    assert_eq!(ler_u64("-1"), None);
    assert_eq!(ler_u64(" 7"), None);
    assert_eq!(ler_u64("7 "), None);
    assert_eq!(ler_u64("12a"), None);
    assert_eq!(ler_u64("++1"), None);
    assert_eq!(ler_u64("18446744073709551616"), None);
    assert_eq!(ler_u64("99999999999999999999"), None);
}

#[test]
fn ler_u64_como_str_parse() {
    let casos = [
        "", "0", "1", "+", "+0", "-0", "42", " 42", "4 2", "١٢", "18446744073709551615",
        "18446744073709551616", "000000000000000000000000018", "abc", "+-1", "9x",
    ];
    for c in casos {
        assert_eq!(ler_u64(c), c.parse::<u64>().ok(), "{:?}", c);
    }
}

#[test]
fn e_espaco_como_char_is_whitespace() {
    for v in 0u32..0x3100 {
        if let Some(c) = char::from_u32(v) {
            assert_eq!(e_espaco(c), c.is_whitespace(), "{:#x}", v);
        }
    }
    assert!(!e_espaco('\u{feff}'));
    assert!(!e_espaco('\u{200b}'));
}

#[test]
fn ler_numeros_valores() {
    assert_eq!(ler_numeros("1,2,3"), Some(vec![1, 2, 3]));
    assert_eq!(ler_numeros(" 1, 2 ,3\n"), Some(vec![1, 2, 3]));
    assert_eq!(ler_numeros("\u{3000}5\t"), Some(vec![5]));
    assert_eq!(ler_numeros("12844,4603"), Some(vec![12844, 4603]));
}

#[test]
fn ler_numeros_recusa() {
    assert_eq!(ler_numeros(""), None);
    assert_eq!(ler_numeros(","), None);
    assert_eq!(ler_numeros("1,,2"), None);
    assert_eq!(ler_numeros("1,2,"), None);
    assert_eq!(ler_numeros("1,x"), None);
    assert_eq!(ler_numeros("1;2"), None);
}

#[test]
fn ler_numeros_como_split_trim_parse() {
    let casos = [
        "", " ", "1", "1,2", " 1 , 2 ", "1,,2", ",1", "1,", "a,1", "1 2", "+3, 4",
        "\u{85}7,\u{a0}8", "18446744073709551616,1",
    ];
    for c in casos {
        assert_eq!(ler_numeros(c), ler_como_parse(c), "{:?}", c);
    }
}

#[test]
fn formatar_numeros_valores() {
    assert_eq!(formatar_numeros(&[1, 20, 300]), "1,20,300");
    assert_eq!(formatar_numeros(&[0]), "0");
    assert_eq!(formatar_numeros(&[]), "");
    assert_eq!(formatar_numeros(&[u64::MAX, 10]), "18446744073709551615,10");
}

#[test]
fn formatar_e_ler_de_volta() {
    let ns = vec![0, 9, 10, 99, 100, 67590, u64::MAX];
    assert_eq!(ler_numeros(&formatar_numeros(&ns)), Some(ns));
}

#[test]
fn lista_vazia_nao_volta() {
    // The empty list is written as the empty text, which reads as no list.
    assert_eq!(ler_numeros(&formatar_numeros(&[])), None);
}

#[test]
fn cifrar_texto_ola() {
    let (pub_key, _) = gerar_chaves(257, 263, 17);
    assert_eq!(cifrar_texto(b"ola", &pub_key), vec![4603, 33626, 29021]);
    assert_eq!(formatar_numeros(&cifrar_texto(b"ola", &pub_key)), "4603,33626,29021");
}

#[test]
fn decifrar_texto_ola() {
    let (_, priv_key) = gerar_chaves(257, 263, 17);
    assert_eq!(decifrar_texto(&[4603, 33626, 29021], &priv_key), "ola");
}

#[test]
fn linha_de_comando_ida_e_volta() {
    let (pub_key, priv_key) = gerar_chaves(257, 263, 17);
    let mensagem = "Mensagem secreta: 42!";
    let linha = formatar_numeros(&cifrar_texto(mensagem.as_bytes(), &pub_key));
    let numeros = ler_numeros(&linha).unwrap();
    assert_eq!(decifrar_texto(&numeros, &priv_key), mensagem);
}

#[test]
fn bytes_nao_ascii_voltam_como_latin1() {
    let (pub_key, priv_key) = gerar_chaves(257, 263, 17);
    let bytes = "é".as_bytes();
    let texto = decifrar_texto(&cifrar_texto(bytes, &pub_key), &priv_key);
    assert_eq!(texto, "\u{c3}\u{a9}");
}

#[test]
fn decifrar_usa_o_byte_baixo() {
    // A number that decrypts to a value above 255 is read by its low byte.
    let (pub_key, priv_key) = gerar_chaves(257, 263, 17);
    let c = cripto::rsa::cifrar(256 + 65, &pub_key);
    assert_eq!(decifrar_texto(&[c], &priv_key), "A");
}

#[test]
fn cifrar_texto_com_modulo_grande() {
    let pub_key = cripto::rsa::PublicKey { n: 1u64 << 40, e: 1 };
    assert_eq!(cifrar_texto(b"hi", &pub_key), vec![104, 105]);
    let priv_key = cripto::rsa::PrivateKey { n: 1u64 << 40, d: 1 };
    assert_eq!(decifrar_texto(&[104, 105], &priv_key), "hi");
}
