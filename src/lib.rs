//! An embedded, schema-driven document store: append-only shards with an
//! offset directory, a staging layer drained by reconciliation, a row codec,
//! a schema validator, hash indexes over composite keys and a query planner.
use vstd::prelude::*;

pub mod bytes;
pub mod codec;
pub mod engine;
pub mod index;
pub mod search;
pub mod shard;
pub mod table;
pub mod temp_shard;
pub mod types;

verus! {

} // verus!
