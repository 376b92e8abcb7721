//! Interning of token data: each distinct byte string gets one key.

pub mod default_interner;
pub mod key;
pub mod traits;
