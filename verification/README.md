# cripto

Educational cryptography in Rust, with its behaviour stated in contracts and
proved by Verus.

- `src/sha256.rs`: SHA-256, proved equal to a specification written from
  FIPS 180-4 (padding, message schedule, compression, digest).
- `src/autenticacao.rs`: the hexadecimal digest of a file's contents and the
  check of contents against a digest.
- `src/rsa.rs`: textbook RSA (square-and-multiply, Euclid, the extended
  Euclidean inverse, key generation), with the proof that decryption undoes
  encryption for keys made from two distinct primes.
- `src/teoria.rs`: the number theory behind that proof (Bézout, Euclid's
  lemma, the binomial theorem, Fermat's little theorem).
- `src/texto.rs`: the text of the RSA command line: reading and writing
  comma-separated decimal lists, byte-by-byte encryption of a text.
- `src/servidor.rs`: the decisions of a blind relay for end-to-end encrypted
  chat: registration of public keys, key lookup, routing of messages it never
  reads, and presence lists.
- `app/`: the programs around the library: `hash`, `verificar`, `cifrar`,
  `decifrar` and the WebSocket `servidor`.
