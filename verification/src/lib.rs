//! Verified solutions to a collection of small daily puzzles.
//!
//! The centrepiece is the `tower` module: it assembles a weighted tree from
//! out-of-order facts, infers the root, aggregates subtree weights, and
//! locates the node whose children are out of balance.  The remaining
//! modules are independent puzzle utilities, each verified against an
//! exact mathematical contract.

pub mod captcha;
pub mod facts;
pub mod jumps;
pub mod memory;
pub mod passphrase;
pub mod registers;
pub mod spiral;
pub mod spreadsheet;
pub mod stream;
pub mod tower;
