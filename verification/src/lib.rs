//! A Byzantine-fault-tolerant framework for operation-based CRDTs.
//!
//! Each peer keeps a content-addressed causal history, a hash graph of
//! operation nodes, and interprets a node only once it is structurally and
//! semantically valid.  Two concrete CRDTs are built on the framework: an
//! observed-remove set and a replicated growable array.

pub mod bft_crdt;
pub mod bft_orset;
pub mod bft_rga;
pub mod hash_graph;
pub mod lexorder;
pub mod ordered_list;
pub mod orset;
pub mod rga;
pub mod serialize;
pub mod trace;
