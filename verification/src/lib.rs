//! A storage engine for domain models that maintains primary records together
//! with declared secondary indices (unique and non-unique, including composite
//! indices), keeping the two consistent across insert, update and delete.
//!
//! A model type declares its identifier, its table name and its indices
//! ([`model`]); a store holds records and serves indexed lookups under the
//! contract of [`store::DatabaseLike`]. Two reference backends come with the
//! engine: an in-memory one, verified down to its index-consistency invariant
//! ([`memory`]), and a relational one, whose per-operation statement plans and
//! outcome translations are verified pure functions ([`relational`]) while
//! their execution belongs to the embedding application. [`laws`] states and
//! proves the engine's cross-operation guarantees once, over the ghost
//! semantics every backend contract uses.

pub mod blob;
pub mod database;
pub mod error;
pub mod index_value;
pub mod laws;
pub mod memory;
pub mod model;
pub mod models;
pub mod record_id;
pub mod relational;
pub mod slug;
pub mod store;
pub mod text;
