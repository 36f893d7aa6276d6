//! A storage controller: the registry of streaming collections, the accounting of their
//! read holds and write frontiers over totally ordered timestamps, the compaction directives
//! derived from read policies, and the checks around appends to the durable store.

use vstd::prelude::*;

pub mod frontier;
pub mod order;
pub mod shard;
pub mod controller;
pub mod laws;

verus! {

} // verus!
