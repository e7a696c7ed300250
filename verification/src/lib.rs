//! State-based CRDTs for a replicated, offline-editable list.
//!
//! Every replica holds a local copy of the data; local edits never
//! coordinate with other replicas.  Reconciliation is a pure merge:
//! each structure forms a join semilattice, so merging any two
//! snapshots, in any order, any number of times, converges.
//!
//! The lattice core, leaves first:
//! - [`counter::BoundedPNCounterv2`]: a per-replica grow/shrink counter
//!   whose derived value never goes negative;
//! - [`awset::AWSet`]: an add-wins observed-remove set with a compacted
//!   causal context;
//! - [`list::ShoppingList`]: item names bound to one counter each,
//!   membership gated by the set;
//! - [`dual::ShoppingListCRDTV2`]: the same with two counter buckets
//!   ("needed" and "purchased") and transfer operations.
//!
//! The merge laws (commutativity, associativity, idempotence) are
//! stated and proved as public proof functions beside each structure.

pub mod awset;
pub mod counter;
pub mod dual;
mod ids;
pub mod list;
pub mod maps;
pub mod simple;
