//! The task dispatcher model: pending background jobs keyed by view and
//! kind. Submitting a job that is already pending coalesces with it.

use vstd::prelude::*;

verus! {

/// What a background job does.
#[derive(Debug, Clone, Copy, PartialEq, Eq, Structural)]
pub enum JobKind {
    /// Map every invalidated document of the view.
    Update,
    /// Check the view's stored version against the schema.
    Integrity,
}

/// The pending background jobs of one database, keyed by view index and
/// kind; duplicates coalesce.
#[derive(Debug)]
pub struct TaskQueue {
    pub jobs: Vec<(usize, JobKind)>,
}

impl View for TaskQueue {
    type V = Seq<(usize, JobKind)>;

    open spec fn view(&self) -> Seq<(usize, JobKind)> {
        self.jobs@
    }
}

impl TaskQueue {
    /// No job key is pending twice.
    pub open spec fn wf(&self) -> bool {
        forall|i: int, j: int| 0 <= i < j < self@.len() ==> self@[i] != self@[j]
    }

    /// Creates an empty queue.
    pub fn new() -> (r: Self)
        ensures
            r.wf(),
            r@ =~= Seq::<(usize, JobKind)>::empty(),
    {
        TaskQueue { jobs: Vec::new() }
    }

    /// Whether a job with this key is pending.
    pub fn is_pending(&self, view: usize, kind: JobKind) -> (r: bool)
        ensures
            r == self@.contains((view, kind)),
    {
        let mut i: usize = 0;
        while i < self.jobs.len()
            invariant
                0 <= i <= self@.len(),
                forall|j: int| 0 <= j < i ==> self@[j] != (view, kind),
            decreases self@.len() - i,
        {
            if self.jobs[i].0 == view && self.jobs[i].1 == kind {
                return true;
            }
            i += 1;
        }
        false
    }

    /// Submits a job; an equal pending job coalesces and nothing changes.
    pub fn submit(&mut self, view: usize, kind: JobKind)
        requires
            old(self).wf(),
        ensures
            final(self).wf(),
            old(self)@.contains((view, kind)) ==> final(self)@ == old(self)@,
            !old(self)@.contains((view, kind)) ==> final(self)@ == old(self)@.push((view, kind)),
            forall|k: (usize, JobKind)| #[trigger]
                final(self)@.contains(k) == (old(self)@.contains(k) || k == (view, kind)),
    {
        let ghost old_view = self@;
        if !self.is_pending(view, kind) {
            self.jobs.push((view, kind));
            proof {
                assert forall|k: (usize, JobKind)| #[trigger]
                    self@.contains(k) == (old_view.contains(k) || k == (view, kind)) by {
                    if old_view.contains(k) {
                        let j = choose|j: int| 0 <= j < old_view.len() && old_view[j] == k;
                        assert(self@[j] == k);
                    } else if k == (view, kind) {
                        assert(self@[old_view.len() as int] == k);
                    } else if self@.contains(k) {
                        let j = choose|j: int| 0 <= j < self@.len() && self@[j] == k;
                        if j < old_view.len() {
                            assert(old_view[j] == k);
                        }
                    }
                }
            }
        }
    }

    /// Takes the oldest pending job, if any.
    pub fn take_next(&mut self) -> (r: Option<(usize, JobKind)>)
        requires
            old(self).wf(),
        ensures
            final(self).wf(),
            match r {
                Some(k) => old(self)@.len() > 0 && k == old(self)@[0] && final(self)@ == old(
                    self,
                )@.drop_first(),
                None => old(self)@.len() == 0 && final(self)@ == old(self)@,
            },
    {
        if self.jobs.len() == 0 {
            return None;
        }
        let job = self.jobs.remove(0);
        proof {
            assert(self@ =~= old(self)@.drop_first());
            assert forall|a: int, b: int| 0 <= a < b < self@.len() implies self@[a] != self@[b] by {
                assert(self@[a] == old(self)@[a + 1] && self@[b] == old(self)@[b + 1]);
            }
        }
        Some(job)
    }
}

} // verus!
