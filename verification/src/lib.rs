//! Buffo: a compact binary container for an ordered sequence of UTF-8
//! strings, with O(1) random access to any element.
//!
//! The layout is, byte-exact and little-endian throughout:
//!
//! ```text
//! [count: u32] [count x (offset: u32, length: u32)] [data blob]
//! ```
//!
//! Each `offset` points into the data blob; each `length` counts the
//! string's UTF-8 bytes plus the one NUL terminator appended at encode
//! time. `layout` states the format mathematically and proves its laws;
//! `buffo` holds the encoder and the decoder.

pub mod buffo;
pub mod layout;

pub use buffo::Buffo;
