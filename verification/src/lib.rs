//! One-way reconciliation of event logs between two stores.
//!
//! A pass copies what is new in every bucket of a source store into a
//! mirrored, namespaced bucket of a destination store. Stores are reached
//! through the `AccessMethod` contract; everything a pass decides is
//! stated over a mathematical model of the stores and proved.
//!
//! - `models`: buckets and events, `json`: their payloads;
//! - `naming`: how a mirror is named and stamped;
//! - `timeline`: what reading from and writing to a bucket mean;
//! - `store`: the contract of a store, `memory`: a store that meets it;
//! - `transfer`: what is made of fetched events;
//! - `sync`: the pass;
//! - `laws`: what holds of every pass.

pub mod json;
pub mod laws;
pub mod memory;
pub mod models;
pub mod naming;
pub mod store;
pub mod sync;
pub mod timeline;
pub mod transfer;

pub use crate::memory::MemoryStore;
pub use crate::models::{Bucket, Event};
pub use crate::store::{AccessMethod, StoreError};
pub use crate::sync::{log_buckets, sync_bucket, sync_datastores, BucketReport, SyncOutcome};
