//! Succinct storage of strictly increasing integer sequences.
//!
//! [`Bits`] is a packed bit vector with append, rank-based selection and
//! bounded-width extraction.  [`EliasFano`] stores a strictly increasing
//! sequence of integers in two such vectors, close to the least number of bits
//! that can tell such sequences apart, and answers lookups by rank and
//! successor queries on the encoded form.  Both can be written out as bytes
//! and opened again in place over the written buffer.
//!
//! Every function states what it computes over plain sequences of bits and
//! integers: [`bitseq`] holds rank and select on sequences of bits,
//! [`layout`] and [`unary`] say where each value is stored, and [`encoded`]
//! says what the queries read from what is stored and proves that they read
//! back what was encoded.

pub mod bits;
pub mod bitseq;
pub mod bytes;
pub mod elias_fano;
pub mod encoded;
pub mod errors;
pub mod layout;
pub mod store;
pub mod unary;
pub mod word;

pub use crate::bits::Bits;
pub use crate::elias_fano::EliasFano;
pub use crate::errors::{Error, ErrorKind};
