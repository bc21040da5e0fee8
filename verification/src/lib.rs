//! Statistical cryptanalysis of repeating-key XOR ciphertext.
//!
//! The crate estimates the key length of a repeating-key XOR cipher from
//! repeated-byte coincidences, recovers candidate keys from a hypothesized
//! most-frequent plaintext byte, and scores the resulting plaintext
//! candidates for validity against a target character set.

pub mod args;
pub mod charset;
pub mod error;
pub mod fitness;
pub mod hist;
pub mod keylen;
pub mod keys;
pub mod routine;
pub mod score;
pub mod tool_xor;
