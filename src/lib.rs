//! A Caesar (shift) cipher over the 26-letter Latin alphabet, together with two
//! ways to recover its key: a ciphertext-only attack that ranks every shift by
//! letter statistics, and a known-plaintext attack by index arithmetic.
//!
//! Frequencies and scores are exact: a frequency is a count over a total, and
//! the English reference table and every score are kept in thousandths.

pub mod caesar;
pub mod english;
pub mod shift;

pub use caesar::{decrypt, encrypt};
pub use shift::{deduce_key, frequency_analysis, letter_frequency, phi, FrequencyProfile};
