//! Operation-queue engine for a cross-chain relaying framework.
//!
//! Relay work is modeled as a queue of hierarchical operations. Out-of-process
//! plugins inspect, claim, and rewrite portions of the queue through a narrow
//! contract of two verbs (filter new operations, process claimed ones); the
//! engine routes operations, merges each plugin's optimization result back into
//! the live queue under optimistic revision checks, and enforces a namespaced
//! tagging scheme so plugins cannot claim or mutate each other's work.

pub mod op;
pub mod tag;
pub mod queue;
pub mod merge;
pub mod engine;
pub mod registry;
pub mod chain;
pub mod cache;
