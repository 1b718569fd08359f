//! Classical cipher engine: Vigenère over a 36-symbol alphabet, ADFGVX and
//! International Morse Code, with the text primitives they share and the
//! choices of an interactive session that runs them.
pub mod adfgvx;
pub mod error;
pub mod morse;
pub mod session;
pub mod text;
pub mod vigenere;
