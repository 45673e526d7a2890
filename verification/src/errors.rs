//! Failure reporting: one pipeline run keeps at most one failure, the first
//! reported, in a single write-once slot; across input streams, success is
//! the conjunction of every stream's result.

use vstd::prelude::*;

verus! {

/// The single-slot error channel of one pipeline run.  The source and the
/// sink both report into it; the first report wins and every later one is
/// discarded.
pub struct ErrorSlot {
    /// The first failure reported, if any.
    pub first_failure: Option<String>,
}

impl ErrorSlot {
    /// An empty slot: no failure reported yet.
    pub fn new() -> (s: ErrorSlot)
        ensures
            s.first_failure is None,
    {
        ErrorSlot { first_failure: None }
    }

    /// Report a failure: kept only while the slot is still empty, so the
    /// first failure of a run wins and later ones are discarded.
    pub fn report(&mut self, message: String)
        ensures
            old(self).first_failure is None ==> final(self).first_failure == Some(message),
            old(self).first_failure is Some ==> final(self).first_failure == old(
                self,
            ).first_failure,
    {
        if self.first_failure.is_none() {
            self.first_failure = Some(message);
        }
    }

    /// Whether the run failed: true exactly when some stage reported.
    pub fn failed(&self) -> (b: bool)
        ensures
            b == (self.first_failure is Some),
    {
        self.first_failure.is_some()
    }

    /// The run's verdict and its failure, consumed at pipeline teardown.
    pub fn into_first_failure(self) -> (r: Option<String>)
        ensures
            r == self.first_failure,
    {
        self.first_failure
    }
}

/// Overall success across input streams: true exactly when every stream's
/// pipeline succeeded.
pub fn all_succeeded(results: &Vec<bool>) -> (r: bool)
    ensures
        r == forall|i: int| 0 <= i < results@.len() ==> results@[i],
{
    let mut i: usize = 0;
    while i < results.len()
        invariant
            i <= results@.len(),
            forall|j: int| 0 <= j < i ==> results@[j],
        decreases results@.len() - i,
    {
        if !results[i] {
            return false;
        }
        i = i + 1;
    }
    true
}

} // verus!
