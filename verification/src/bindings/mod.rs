//! What the language bindings have in common: options, errors and transactions as plain values.
pub mod errors;
pub mod integers;
pub mod operations;
pub mod options;
pub mod session;
pub mod word_laws;
