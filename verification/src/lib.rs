//! A 16-ary prefix tree keyed by sequences of hexadecimal digits.
//!
//! Keys are strings of hexadecimal characters; every digit selects one of
//! sixteen child slots, so each digit occupies its own level of the tree.

pub mod diagram;
pub mod laws;
pub mod model;
pub mod nibbles;
pub mod node;
