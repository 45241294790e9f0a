//! Identities that the scheduler orders calls by.

use crate::ring::RingKey;
use vstd::prelude::*;

verus! {

/// What identifies a plugin while it is loaded. Two live plugins never share a key.
pub type PluginKey = usize;

/// One chain of calls within a dispatch session, and how deep in the plugin graph it runs.
#[derive(Clone, Copy, Debug, PartialEq, Eq, Hash, Structural)]
pub struct ExecutionPathId {
    pub serial: u64,
    pub depth: usize,
}

impl RingKey for ExecutionPathId {
    fn same(&self, other: &Self) -> (result: bool) {
        self.serial == other.serial && self.depth == other.depth
    }
}

} // verus!
