//! Numeric core of a decoder-only transformer: view-based tensors, the
//! operator kernels, a key/value cache, the forward pass and the generation
//! loop.
//!
//! The library is generic over the element type and never computes on an
//! element itself. Arithmetic is supplied by an implementation of
//! [`arith::Arith`], random numbers by one of [`sampling::Draw`]. What the
//! library holds, and what is proved of it, is the indexing, the shape
//! rules, the bookkeeping of the cache, and which operation is applied to
//! which elements in what order.

pub mod arith;
pub mod error;
pub mod generate;
pub mod kvcache;
pub mod layout;
pub mod model;
pub mod operators;
pub mod sampling;
pub mod tensor;
