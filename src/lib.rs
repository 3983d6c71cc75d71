//! Format-preserving encryption: the FF1 and FF3-1 modes of NIST SP 800-38G
//! over AES. A text over an alphabet of `radix` characters encrypts to a
//! text of the same length over the same alphabet.
//!
//! Each engine's `encrypt` and `decrypt` are proved equal to a
//! mathematical statement of the mode (`ff1::ff1_cipher`,
//! `ff3_1::ff3_cipher`), and decryption is proved to invert encryption
//! (`ff1::lemma_ff1_round_trip`, `ff3_1::lemma_ff3_round_trip`).

pub mod error;
pub mod bignum;
pub mod aes;
pub mod alphabet;
pub mod codec;
pub mod ffx;
pub mod ff1;
pub mod ff3_1;
