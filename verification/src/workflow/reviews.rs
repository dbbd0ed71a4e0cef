//! The workflows that wait for a review of the terms that they found.
use crate::ids::JobId;
use vstd::prelude::*;

verus! {

/// The workflows that wait.
pub struct PendingReviews {
    pub waiting: Vec<JobId>,
}

/// Why a workflow does not go on.
#[derive(Clone, Copy, Debug, PartialEq, Eq, Structural)]
pub enum ResumeFault {
    /// It waits for no review.
    NotAwaiting,
    /// It was stopped while it waited.
    Stopped,
}

impl ResumeFault {
    /// What is said of the fault to the user.
    pub fn message(self) -> (r: &'static str)
        ensures
            r@ == match self {
                ResumeFault::NotAwaiting => "workflow is not awaiting glossary review"@,
                ResumeFault::Stopped => "workflow stopped before review completed"@,
            },
    {
        match self {
            ResumeFault::NotAwaiting => "workflow is not awaiting glossary review",
            ResumeFault::Stopped => "workflow stopped before review completed",
        }
    }
}

impl PendingReviews {
    /// The workflow waits.
    pub open spec fn waits(self, job: JobId) -> bool {
        self.waiting@.contains(job)
    }

    /// No workflow waits.
    pub fn new() -> (r: Self)
        ensures
            forall|job: JobId| !r.waits(job),
    {
        PendingReviews { waiting: Vec::new() }
    }

    /// A workflow begins to wait.
    pub fn open(&mut self, job: JobId)
        ensures
            forall|other: JobId| #[trigger]
                final(self).waits(other) <==> other == job || old(self).waits(other),
    {
        let ghost before = self.waiting@;
        self.waiting.push(job);
        proof {
            assert forall|other: JobId| #[trigger]
                self.waiting@.contains(other) <==> other == job || before.contains(other) by {
                if before.contains(other) {
                    let i = choose|i: int| 0 <= i < before.len() && before[i] == other;
                    assert(self.waiting@[i] == other);
                }
                assert(self.waiting@[before.len() as int] == job);
            }
        }
    }

    /// A workflow waits no longer. Gives whether it did.
    pub fn close(&mut self, job: JobId) -> (r: bool)
        ensures
            r == old(self).waits(job),
            forall|other: JobId| #[trigger]
                final(self).waits(other) <==> other != job && old(self).waits(other),
    {
        let mut kept: Vec<JobId> = Vec::new();
        let mut waited = false;
        let mut i: usize = 0;
        while i < self.waiting.len()
            invariant
                i <= self.waiting@.len(),
                self == old(self),
                waited == (exists|k: int| 0 <= k < i && #[trigger] self.waiting@[k] == job),
                forall|k: int|
                    0 <= k < i && self.waiting@[k] != job ==> kept@.contains(
                        #[trigger] self.waiting@[k],
                    ),
                forall|k: int|
                    0 <= k < kept@.len() ==> #[trigger] kept@[k] != job && old(self).waits(kept@[k]),
            decreases self.waiting@.len() - i,
        {
            let other = self.waiting[i];
            if other == job {
                waited = true;
                assert(self.waiting@[i as int] == job);
            } else {
                let ghost had = kept@;
                kept.push(other);
                proof {
                    assert(self.waiting@[i as int] == other);
                    assert forall|k: int| 0 <= k <= i && self.waiting@[k] != job implies kept@.contains(
                        #[trigger] self.waiting@[k],
                    ) by {
                        if k < i {
                            let j = choose|j: int| 0 <= j < had.len() && had[j] == self.waiting@[k];
                            assert(kept@[j] == self.waiting@[k]);
                        } else {
                            assert(kept@[had.len() as int] == other);
                        }
                    }
                }
            }
            i += 1;
        }
        self.waiting = kept;
        waited
    }

    /// The review of a workflow has ended, so that it goes on. Whether it still listens was found by
    /// telling it. No workflow is told twice of one review.
    pub fn resume(&mut self, job: JobId, listens: bool) -> (r: Result<(), ResumeFault>)
        ensures
            r == if !old(self).waits(job) {
                Err::<(), _>(ResumeFault::NotAwaiting)
            } else if !listens {
                Err(ResumeFault::Stopped)
            } else {
                Ok(())
            },
            forall|other: JobId| #[trigger]
                final(self).waits(other) <==> other != job && old(self).waits(other),
    {
        if !self.close(job) {
            return Err(ResumeFault::NotAwaiting);
        }
        if listens {
            Ok(())
        } else {
            Err(ResumeFault::Stopped)
        }
    }
}

} // verus!
