//! Listings of the registry, for a caller that shows or polls its meshes.

use vstd::prelude::*;
use crate::ids::{GpuMeshId, LogicalMeshId};
use crate::keyed::{lemma_selects_skip, lemma_selects_take, position, rising, selects, sits_at, Ranked};
use crate::registry::{entry_key, lemma_entry, lemma_slot, slot_key, MeshEntry, ResourceRegistry};

verus! {

/// Whether `list` holds exactly the logical identifiers that satisfy
/// `wanted`, in increasing order.
pub open spec fn lists(list: Seq<LogicalMeshId>, wanted: spec_fn(LogicalMeshId) -> bool) -> bool {
    &&& forall|a: int, b: int| 0 <= a < b < list.len() ==> list[a].0 < list[b].0
    &&& forall|id: LogicalMeshId| #[trigger] wanted(id) <==> list.contains(id)
}

/// Whether `list` holds exactly the GPU identifiers that satisfy `wanted`,
/// in increasing order.
pub open spec fn lists_gpu(list: Seq<GpuMeshId>, wanted: spec_fn(GpuMeshId) -> bool) -> bool {
    &&& forall|a: int, b: int| 0 <= a < b < list.len() ==> list[a].0 < list[b].0
    &&& forall|gpu: GpuMeshId| #[trigger] wanted(gpu) <==> list.contains(gpu)
}

/// A selection of entries lists the identifiers of the entries it picks.
proof fn lemma_listing<H>(
    entries: Seq<MeshEntry<H>>,
    picked: spec_fn(int) -> bool,
    origin: Seq<int>,
    list: Seq<LogicalMeshId>,
    wanted: spec_fn(LogicalMeshId) -> bool,
)
    requires
        rising(entries),
        selects(origin, entries.len() as int, picked),
        list.len() == origin.len(),
        forall|k: int| 0 <= k < list.len() ==> #[trigger] list[k] == entries[origin[k]].id,
        forall|id: LogicalMeshId| #[trigger]
            wanted(id) <==> exists|j: int| sits_at(entries, entry_key(), id, j) && picked(j),
    ensures
        lists(list, wanted),
{
    assert forall|a: int, b: int| 0 <= a < b < list.len() implies list[a].0 < list[b].0 by {
        assert(list[a] == entries[origin[a]].id);
        assert(list[b] == entries[origin[b]].id);
        assert(origin[a] < origin[b]);
        assert(entries[origin[a]].rank() < entries[origin[b]].rank());
    }
    assert forall|id: LogicalMeshId| #[trigger] wanted(id) <==> list.contains(id) by {
        if wanted(id) {
            let j = choose|j: int| sits_at(entries, entry_key(), id, j) && picked(j);
            let k = choose|k: int| 0 <= k < origin.len() && #[trigger] origin[k] == j;
            assert(list[k] == id);
        }
        if list.contains(id) {
            let k = choose|k: int| 0 <= k < list.len() && list[k] == id;
            assert(list[k] == entries[origin[k]].id);
            assert(sits_at(entries, entry_key(), id, origin[k]) && picked(origin[k]));
        }
    }
}

impl<H, R> ResourceRegistry<H, R> {
    /// The identifiers of all tracked meshes, in the order they were
    /// requested.
    pub fn ids(&self) -> (ids: Vec<LogicalMeshId>)
        requires
            self.wf(),
        ensures
            lists(ids@, |id: LogicalMeshId| self@.contains(id)),
    {
        proof {
            self.lemma_unfold();
        }
        let mut ids: Vec<LogicalMeshId> = Vec::new();
        let ghost mut origin: Seq<int> = Seq::empty();
        let mut i: usize = 0;
        while i < self.entries.len()
            invariant
                i <= self.entries.len(),
                ids.len() == origin.len(),
                selects(origin, i as int, |j: int| true),
                forall|k: int| 0 <= k < ids.len() ==> #[trigger] ids[k] == self.entries[origin[k]].id,
            decreases self.entries.len() - i,
        {
            ids.push(self.entries[i].id);
            proof {
                lemma_selects_take(origin, i as int, |j: int| true);
                origin = origin.push(i as int);
            }
            i = i + 1;
        }
        proof {
            let entries = self.entries@;
            assert forall|id: LogicalMeshId|
                self@.contains(id) <==> exists|j: int|
                    sits_at(entries, entry_key(), id, j) && true by {}
            lemma_listing(
                entries,
                |j: int| true,
                origin,
                ids@,
                |id: LogicalMeshId| self@.contains(id),
            );
        }
        ids
    }

    /// The identifiers of the meshes whose fetch is under way, in the order
    /// they were requested: the fetches to poll.
    pub fn pending(&self) -> (ids: Vec<LogicalMeshId>)
        requires
            self.wf(),
        ensures
            lists(ids@, |id: LogicalMeshId| self@.is_loading(id)),
    {
        proof {
            self.lemma_unfold();
        }
        let mut ids: Vec<LogicalMeshId> = Vec::new();
        let ghost mut origin: Seq<int> = Seq::empty();
        let ghost entries = self.entries@;
        let mut i: usize = 0;
        while i < self.entries.len()
            invariant
                entries == self.entries@,
                i <= self.entries.len(),
                ids.len() == origin.len(),
                selects(origin, i as int, |j: int| entries[j].state is Loading),
                forall|k: int| 0 <= k < ids.len() ==> #[trigger] ids[k] == self.entries[origin[k]].id,
            decreases self.entries.len() - i,
        {
            if self.entries[i].state.is_loading() {
                ids.push(self.entries[i].id);
                proof {
                    lemma_selects_take(origin, i as int, |j: int| entries[j].state is Loading);
                    origin = origin.push(i as int);
                }
            } else {
                proof {
                    lemma_selects_skip(origin, i as int, |j: int| entries[j].state is Loading);
                }
            }
            i = i + 1;
        }
        proof {
            assert forall|id: LogicalMeshId|
                self@.is_loading(id) <==> exists|j: int|
                    sits_at(entries, entry_key(), id, j) && entries[j].state is Loading by {
                if self@.is_loading(id) {
                    let j = position(entries, entry_key(), id);
                    assert(sits_at(entries, entry_key(), id, j));
                    lemma_entry(entries, j);
                }
                if exists|j: int|
                    sits_at(entries, entry_key(), id, j) && entries[j].state is Loading {
                    let j = choose|j: int|
                        sits_at(entries, entry_key(), id, j) && entries[j].state is Loading;
                    lemma_entry(entries, j);
                }
            }
            lemma_listing(
                entries,
                |j: int| entries[j].state is Loading,
                origin,
                ids@,
                |id: LogicalMeshId| self@.is_loading(id),
            );
        }
        ids
    }

    /// The GPU identifiers under which a resource is held, in increasing
    /// order.
    pub fn live(&self) -> (gpus: Vec<GpuMeshId>)
        requires
            self.wf(),
        ensures
            lists_gpu(gpus@, |gpu: GpuMeshId| self@.is_live(gpu)),
    {
        proof {
            self.lemma_unfold();
        }
        let mut gpus: Vec<GpuMeshId> = Vec::new();
        let mut j: usize = 0;
        while j < self.slots.len()
            invariant
                j <= self.slots.len(),
                gpus.len() == j,
                forall|k: int| 0 <= k < j ==> #[trigger] gpus[k] == self.slots[k].id,
            decreases self.slots.len() - j,
        {
            gpus.push(self.slots[j].id);
            j = j + 1;
        }
        proof {
            let slots = self.slots@;
            assert forall|a: int, b: int| 0 <= a < b < gpus.len() implies gpus[a].0 < gpus[b].0 by {
                assert(slots[a].rank() < slots[b].rank());
            }
            assert forall|gpu: GpuMeshId| self@.is_live(gpu) <==> gpus@.contains(gpu) by {
                if self@.is_live(gpu) {
                    let k = position(slots, slot_key(), gpu);
                    assert(sits_at(slots, slot_key(), gpu, k));
                    assert(gpus[k] == gpu);
                }
                if gpus@.contains(gpu) {
                    let k = choose|k: int| 0 <= k < gpus.len() && gpus[k] == gpu;
                    lemma_slot(slots, k);
                }
            }
        }
        gpus
    }
}

} // verus!
