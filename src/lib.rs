use vstd::prelude::*;

pub mod log;
pub mod rpc;
pub mod servers;
pub mod followers;
pub mod config;
pub mod state_machine;
pub mod raft;

verus! {

/// A logical clock, one value per leadership epoch.
pub type Term = u64;

/// A 1-based position in the replicated log.
pub type Index = usize;

/// The identity of a log entry: its term and its index.
#[derive(Clone, Copy, Debug, PartialEq, Eq, Structural, Hash)]
pub struct TermIndex(pub Term, pub Index);

} // verus!
