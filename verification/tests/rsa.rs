use cripto::rsa::{
    cifrar, decifrar, gcd, gerar_chaves, mod_inverse, mod_pow, mod_pow_sem_estouro, PrivateKey,
    PublicKey,
};

#[test]
fn chaves_do_exemplo() {
    let (pub_key, priv_key) = gerar_chaves(257, 263, 17);
    assert_eq!(pub_key.n, 67591);
    assert_eq!(pub_key.e, 17);
    assert_eq!(priv_key.n, 67591);
    assert_eq!(priv_key.d, 47345);
    // d is the inverse of e modulo phi = 256 * 262.
    assert_eq!((17u64 * priv_key.d) % 67072, 1);
}

#[test]
fn mod_pow_valores() {
    assert_eq!(mod_pow(4, 13, 497), 445);
    assert_eq!(mod_pow(2, 10, 1000), 24);
    assert_eq!(mod_pow(3, 0, 7), 1);
    assert_eq!(mod_pow(10, 1, 7), 3);
    assert_eq!(mod_pow(0, 5, 7), 0);
}

#[test]
fn mod_pow_modulo_um() {
    // Everything is 0 modulo 1, a zero exponent included.
    assert_eq!(mod_pow(5, 0, 1), 0);
    assert_eq!(mod_pow(5, 3, 1), 0);
    assert_eq!(mod_pow(0, 0, 7), 1);
}

#[test]
fn mod_pow_sem_estouro_valores() {
    assert!(mod_pow_sem_estouro(12345, 47345, 67591));
    assert!(mod_pow_sem_estouro(u64::MAX, u64::MAX, 1u64 << 32));
    // A modulus above 2^32: squaring 2^39 does not fit in 64 bits.
    assert!(!mod_pow_sem_estouro(1u64 << 39, 2, 1u64 << 40));
    // With exponent 1 the base is still squared once.
    assert!(mod_pow_sem_estouro(1000, 1, 1u64 << 40));
    assert!(!mod_pow_sem_estouro((1u64 << 40) - 1, 1, 1u64 << 40));
    assert_eq!(mod_pow(1000, 1, 1u64 << 40), 1000);
}

#[test]
fn mod_pow_modulo_grande() {
    let m: u64 = 4_294_967_291; // the largest prime below 2^32
    assert_eq!(mod_pow(m - 1, 2, m), 1);
    assert_eq!(mod_pow(2, 32, 1u64 << 32), 0);
    assert_eq!(mod_pow(u64::MAX, 1, 1u64 << 32), (1u64 << 32) - 1);
}

#[test]
fn gcd_valores() {
    assert_eq!(gcd(48, 18), 6);
    assert_eq!(gcd(18, 48), 6);
    assert_eq!(gcd(17, 0), 17);
    assert_eq!(gcd(0, 5), 5);
    assert_eq!(gcd(0, 0), 0);
    assert_eq!(gcd(17, 67072), 1);
}

#[test]
fn mod_inverse_valores() {
    assert_eq!(mod_inverse(17, 67072), 47345);
    assert_eq!(mod_inverse(3, 11), 4);
    assert_eq!(mod_inverse(7, 40), 23);
    assert_eq!(mod_inverse(1, 10), 1);
}

#[test]
fn cifrar_valores() {
    let pub_key = PublicKey { n: 67591, e: 17 };
    assert_eq!(cifrar(65, &pub_key), 12844);
    assert_eq!(cifrar(b'o' as u64, &pub_key), 4603);
    assert_eq!(cifrar(b'l' as u64, &pub_key), 33626);
    assert_eq!(cifrar(b'a' as u64, &pub_key), 29021);
    assert_eq!(cifrar(0, &pub_key), 0);
    assert_eq!(cifrar(1, &pub_key), 1);
}

#[test]
fn decifrar_valores() {
    let priv_key = PrivateKey { n: 67591, d: 47345 };
    assert_eq!(decifrar(12844, &priv_key), 65);
    assert_eq!(decifrar(4603, &priv_key), b'o' as u64);
}

#[test]
fn ida_e_volta_de_todos_os_bytes() {
    let (pub_key, priv_key) = gerar_chaves(257, 263, 17);
    for m in 0..256u64 {
        assert_eq!(decifrar(cifrar(m, &pub_key), &priv_key), m);
    }
}

#[test]
fn ida_e_volta_de_todo_o_modulo() {
    let (pub_key, priv_key) = gerar_chaves(61, 53, 17);
    assert_eq!(pub_key.n, 3233);
    assert_eq!(priv_key.d, 2753);
    for m in 0..3233u64 {
        assert_eq!(decifrar(cifrar(m, &pub_key), &priv_key), m);
    }
}
