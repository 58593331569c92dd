//! Educational cryptography: SHA-256, textbook RSA, file authentication by
//! digest, and the decision logic of a blind end-to-end-encrypted chat relay.

pub mod sha256;
pub mod rsa;
pub mod teoria;
pub mod autenticacao;
pub mod texto;
pub mod servidor;
