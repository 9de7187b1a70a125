//! An in-memory semantic retrieval core.
//!
//! Embeddings and scores are carried as IEEE 754 single-precision bit
//! patterns (`u32`), so that every ranking decision is a statement about
//! integers. Floating-point arithmetic (scoring a pair of vectors, training
//! a classifier) is supplied by the caller as a function value.
pub mod errors;

pub use errors::Error;
pub mod sent_transform;
pub mod vector_index;
pub mod registry;
pub mod request;
