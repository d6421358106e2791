//! Index-consistency layer for package metadata held in a key-value store.
//!
//! Every table maps identifiers to store keys (`prefix:id`), and every write
//! of a record together with its secondary indexes is a single batch of
//! store operations whose effect is stated over `store::StoreModel`.

pub mod data_store;
pub mod error;
pub mod ident;
pub mod keys;
pub mod order;
pub mod origin_keys;
pub mod origins;
pub mod packages;
pub mod store;
pub mod views;
