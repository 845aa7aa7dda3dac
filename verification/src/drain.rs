//! Settling the fetches that resolved since the last frame.

use vstd::prelude::*;
use crate::registry::ResourceRegistry;
use crate::view::{Completion, Settlement, Upload};

verus! {

/// What settling a list of completions did.
pub struct DrainReport<R> {
    /// The meshes that became loaded, with the GPU identifiers they were
    /// given, in the order of their completions.
    pub loaded: Vec<Upload>,
    /// The resources that came for meshes that were not loading. The
    /// registry did not take them: the caller destroys them.
    pub rejected: Vec<R>,
}

impl<H, R> ResourceRegistry<H, R> {
    /// Settles the fetches that resolved since the last frame, in the order
    /// given: every loading mesh among them makes exactly one transition, to
    /// loaded or to failed, and nothing else changes.
    ///
    /// Call it once per frame, before the reclaim pass and before the scene
    /// is assembled.
    pub fn drain_completed_loads(&mut self, completions: Vec<Completion<R>>) -> (report: DrainReport<
        R,
    >)
        requires
            old(self).wf(),
        ensures
            final(self).wf(),
            final(self)@ == old(self)@.drain(completions@),
            report.loaded@ == old(self)@.loaded(completions@),
            report.rejected@ == old(self)@.rejected(completions@),
    {
        let mut loaded: Vec<Upload> = Vec::new();
        let mut rejected: Vec<R> = Vec::new();
        let ghost start = self@;
        let ghost all = completions@;
        for completion in it: completions
            invariant
                it.seq() == all,
                self.wf(),
                self@ == start.drain(all.take(it.index())),
                loaded@ == start.loaded(all.take(it.index())),
                rejected@ == start.rejected(all.take(it.index())),
        {
            proof {
                let upto = all.take(it.index() + 1);
                assert(upto.drop_last() =~= all.take(it.index()));
                assert(upto.last() == completion);
            }
            let id = completion.id;
            match self.settle(id, completion.outcome) {
                Settlement::Loaded(gpu) => {
                    loaded.push(Upload { id, gpu });
                },
                Settlement::Failed => {},
                Settlement::Ignored(Some(resource)) => {
                    rejected.push(resource);
                },
                Settlement::Ignored(None) => {},
            }
        }
        proof {
            assert(all.take(all.len() as int) =~= all);
        }
        DrainReport { loaded, rejected }
    }
}

} // verus!
