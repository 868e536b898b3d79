//! Watching an operation: counters, problems and tasks.

pub mod collect;
pub mod counters;

use crate::errors::Error;
use vstd::prelude::*;

verus! {

/// Something that went wrong during an operation and did not stop it.
#[derive(Debug, PartialEq, Eq)]
pub struct Problem {
    /// What went wrong.
    pub error: Error,
}

/// A piece of work that was announced to a monitor, with its progress.
#[derive(Debug, PartialEq, Eq)]
pub struct Task {
    /// What the work is.
    pub name: String,
    /// How far it has come, in units of its own.
    pub done: usize,
}

impl Task {
    /// Records `n` more units of progress. The count stops at the largest
    /// number that it can hold.
    pub fn increment(&mut self, n: usize)
        ensures
            final(self).name == old(self).name,
            final(self).done == old(self).done.saturating_add(n),
    {
        self.done = self.done.saturating_add(n);
    }
}

} // verus!
