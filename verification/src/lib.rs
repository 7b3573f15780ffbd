//! An in-memory key/value store with arbitrarily nested transactions and a
//! constant-time count of how many keys currently hold a given value.
//!
//! The abstract state of a database is a stack of layer maps: the base layer
//! at the front, the innermost open transaction at the back. Each layer maps
//! the keys it has touched to `Some(value)` or to a tombstone (`None`), and a
//! later layer's entry shadows an earlier one's. `model` defines this state
//! and the transitions, `store` holds the executable structures, and `laws`
//! proves the store's general properties over the model.

pub mod laws;
pub mod model;
pub mod store;
