//! Stage 1: source text -> tokens.
//!
//! [`meaning`] states what a source says and [`scan`] reads it; [`chars`] holds
//! what is known of a character on its own, [`order`] that tokens come in the order
//! they were written in, [`faithful`] that each says what its characters say,
//! [`spelled`] how each is written, [`refused`] what is said of characters that say
//! nothing, and
//! [`joined`] that a line ends what it holds. Every malformed token
//! that the lexer can still find its footing after is reported.

pub mod chars;
pub mod faithful;
pub mod joined;
pub mod meaning;
pub mod order;
pub mod refused;
pub mod scan;
pub mod spelled;

pub use scan::lex;
