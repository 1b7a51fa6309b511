//! Symbol-addressable storage over packed words, and the sponge mixing
//! combinators built on it.
pub mod word;
pub mod spongos;
pub mod binary;
pub mod ternary;
pub mod span;
