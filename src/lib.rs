//! A registry of managed records with range-queryable indices.
//!
//! Records get ids from a counter and are registered under their address
//! (`registry`). Every index is an ordered set of `(bytes, id)` keys with
//! bounded, resumable range scans (`index`), over keys that typed values are
//! encoded into (`codec`, `keys`). On top of it stand updatable attribute
//! indices (`attributes`), weighted tags (`tags`) and a relation graph with
//! forward and inverse entries (`relations`), updated together by
//! `update` and read by `query`. Batch migrations walk the records in
//! pages, dispatch upgrades and reconcile their replies (`migrate`).
//! Properties relating several operations are proved in `laws`.

pub mod keys;
pub mod codec;
pub mod index;
pub mod tags;
pub mod relations;
pub mod attributes;
pub mod util;
pub mod msg;
pub mod error;
pub mod math;
pub mod registry;
pub mod update;
pub mod migrate;
pub mod query;
pub mod laws;
