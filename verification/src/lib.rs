//! The AES block cipher and the modes of operation ECB, CBC, OFB, CFB and
//! CTR over any block cipher.
//!
//! - `gf256`: arithmetic in the field GF(2^8).
//! - `tables`: the substitution tables and the round constants.
//! - `aes`: the key schedule, the round transforms, the cipher.
//! - `mode_spec`: what each mode computes, on byte sequences.
//! - `mode`: the block cipher trait with the modes, and the CTR counter.
//! - `mode_laws`: each mode's decryption undoes its encryption.
//! - `aes_ni`: what the processor's identification says of AES instructions.

pub mod gf256;
pub mod tables;
pub mod aes;
pub mod mode_spec;
pub mod mode;
pub mod mode_laws;
pub mod aes_ni;
