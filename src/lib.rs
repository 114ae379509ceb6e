//! A small content-addressed object model: loose object encoding, canonical
//! trees and commits, delta resolution and pack extraction, all verified.
pub mod checkout;
pub mod delta;
pub mod error;
pub mod objects;
pub mod pack;
pub mod primitives;
pub mod protocol;
pub mod tree;
