//! The reclaim pass: mark the meshes that the objects refer to, sweep the
//! loaded meshes that nothing refers to, and free their resources.

use vstd::prelude::*;
use crate::ids::{GpuMeshId, LogicalMeshId};
use crate::keyed::{
    dropped_keys,
    lemma_selection,
    marked,
    position,
    rising,
    selects,
    sits_at,
    split,
    unmarked,
    Ranked,
};
use crate::registry::{
    entry_key,
    entry_val,
    lemma_entries_distinct,
    lemma_entry,
    lemma_slot,
    lemma_slots_distinct,
    meshes_of,
    resources_of,
    slot_key,
    slot_val,
    MeshEntry,
    ResourceRegistry,
};
use crate::scene::{referenced, refers, SceneObject};
use crate::state::MeshLoadState;
use crate::validity::{lemma_clear_wf, lemma_reclaim_wf};
use crate::view::{GpuMesh, RegistryView};

verus! {

/// Whether one of the first `n` objects refers to `id`.
spec fn referred_below(objects: Seq<SceneObject>, n: int, id: LogicalMeshId) -> bool {
    exists|j: int| 0 <= j < n && refers(objects, j, id)
}

/// Whether the entry at index `i` is loaded under `gpu` and not marked.
spec fn dooms<H>(entries: Seq<MeshEntry<H>>, marks: Seq<bool>, i: int, gpu: GpuMeshId) -> bool {
    0 <= i < entries.len() && entries[i].state == MeshLoadState::<H>::Loaded(gpu) && !marks[i]
}

/// Whether one of the first `n` entries is loaded under `gpu` and not
/// marked.
spec fn doomed_below<H>(entries: Seq<MeshEntry<H>>, marks: Seq<bool>, n: int, gpu: GpuMeshId) -> bool {
    exists|i: int| i < n && dooms(entries, marks, i, gpu)
}

/// The sweep with the given marks is the reclaim pass of the model.
proof fn lemma_sweep<H, R>(
    model: RegistryView<H, R>,
    refs: Set<LogicalMeshId>,
    entries: Seq<MeshEntry<H>>,
    slots: Seq<GpuMesh<R>>,
    gone_entries: Seq<bool>,
    gone_slots: Seq<bool>,
    kept_entries: Seq<MeshEntry<H>>,
    entry_origin: Seq<int>,
    kept_slots: Seq<GpuMesh<R>>,
    slot_origin: Seq<int>,
    freed: Seq<GpuMesh<R>>,
    freed_origin: Seq<int>,
)
    requires
        model.wf(),
        rising(entries),
        rising(slots),
        model.meshes == meshes_of(entries),
        model.resources == resources_of(slots),
        gone_entries.len() == entries.len(),
        gone_slots.len() == slots.len(),
        forall|i: int|
            0 <= i < entries.len() ==> (#[trigger] gone_entries[i] <==> model.evictable(
                refs,
                entries[i].id,
            )),
        forall|j: int|
            0 <= j < slots.len() ==> (#[trigger] gone_slots[j] <==> model.freed(refs, slots[j].id)),
        selects(entry_origin, entries.len() as int, unmarked(gone_entries)),
        kept_entries.len() == entry_origin.len(),
        forall|k: int|
            0 <= k < kept_entries.len() ==> #[trigger] kept_entries[k] == entries[entry_origin[k]],
        selects(slot_origin, slots.len() as int, unmarked(gone_slots)),
        kept_slots.len() == slot_origin.len(),
        forall|k: int| 0 <= k < kept_slots.len() ==> #[trigger] kept_slots[k] == slots[slot_origin[k]],
        selects(freed_origin, slots.len() as int, marked(gone_slots)),
        freed.len() == freed_origin.len(),
        forall|k: int| 0 <= k < freed.len() ==> #[trigger] freed[k] == slots[freed_origin[k]],
    ensures
        rising(kept_entries),
        rising(kept_slots),
        meshes_of(kept_entries) == model.reclaim(refs).meshes,
        resources_of(kept_slots) == model.reclaim(refs).resources,
        model.frees(refs, freed),
{
    lemma_entries_distinct(entries);
    lemma_slots_distinct(slots);
    lemma_selection(
        entries,
        entry_key(),
        entry_val(),
        kept_entries,
        entry_origin,
        unmarked(gone_entries),
    );
    lemma_selection(slots, slot_key(), slot_val(), kept_slots, slot_origin, unmarked(gone_slots));
    let dropped_ids = dropped_keys(entries, entry_key(), unmarked(gone_entries));
    let evictable = Set::new(|id: LogicalMeshId| model.evictable(refs, id));
    assert forall|id: LogicalMeshId| dropped_ids.contains(id) <==> evictable.contains(id) by {
        if dropped_ids.contains(id) {
            let i = choose|i: int|
                sits_at(entries, entry_key(), id, i) && !unmarked(gone_entries)(i);
            assert(gone_entries[i]);
        }
        if evictable.contains(id) {
            let i = position(entries, entry_key(), id);
            assert(sits_at(entries, entry_key(), id, i));
            assert(gone_entries[i]);
            assert(!unmarked(gone_entries)(i));
        }
    }
    assert(dropped_ids =~= evictable);
    let dropped_gpus = dropped_keys(slots, slot_key(), unmarked(gone_slots));
    let freed_gpus = Set::new(|gpu: GpuMeshId| model.freed(refs, gpu));
    assert forall|gpu: GpuMeshId| dropped_gpus.contains(gpu) <==> freed_gpus.contains(gpu) by {
        if dropped_gpus.contains(gpu) {
            let j = choose|j: int| sits_at(slots, slot_key(), gpu, j) && !unmarked(gone_slots)(j);
            assert(gone_slots[j]);
        }
        if freed_gpus.contains(gpu) {
            let id = choose|id: LogicalMeshId| model.evictable(refs, id) && model.loaded_as(id, gpu);
            assert(model.loaded_as(id, gpu));
            assert(model.is_live(gpu));
            let j = position(slots, slot_key(), gpu);
            assert(sits_at(slots, slot_key(), gpu, j));
            assert(gone_slots[j]);
            assert(!unmarked(gone_slots)(j));
        }
    }
    assert(dropped_gpus =~= freed_gpus);
    assert forall|k: int| 0 <= k < freed.len() implies model.freed(refs, #[trigger] freed[k].id)
        && model.is_live(freed[k].id) && model.resources[freed[k].id] == freed[k].resource by {
        let j = freed_origin[k];
        assert(freed[k] == slots[j]);
        assert(marked(gone_slots)(j));
        lemma_slot(slots, j);
    }
    assert forall|gpu: GpuMeshId| #[trigger] model.freed(refs, gpu) implies exists|k: int|
        0 <= k < freed.len() && #[trigger] freed[k].id == gpu by {
        assert(freed_gpus.contains(gpu));
        let j = choose|j: int| sits_at(slots, slot_key(), gpu, j) && !unmarked(gone_slots)(j);
        assert(marked(gone_slots)(j));
        let k = choose|k: int| 0 <= k < freed_origin.len() && #[trigger] freed_origin[k] == j;
        assert(freed[k] == slots[j]);
    }
    assert forall|a: int, b: int| 0 <= a < b < freed.len() implies freed[a].id.0 < freed[b].id.0 by {
        assert(freed[a] == slots[freed_origin[a]]);
        assert(freed[b] == slots[freed_origin[b]]);
        assert(freed_origin[a] < freed_origin[b]);
        assert(slots[freed_origin[a]].rank() < slots[freed_origin[b]].rank());
    }
}

impl<H, R> ResourceRegistry<H, R> {
    /// Marks the entries that at least one object refers to.
    fn mark_referenced(&self, objects: &Vec<SceneObject>) -> (marks: Vec<bool>)
        requires
            rising(self.entries@),
        ensures
            marks.len() == self.entries.len(),
            forall|i: int|
                0 <= i < marks.len() ==> (#[trigger] marks[i] <==> referenced(objects@).contains(
                    self.entries[i].id,
                )),
    {
        let mut marks: Vec<bool> = Vec::new();
        let mut i: usize = 0;
        while i < self.entries.len()
            invariant
                i <= self.entries.len(),
                marks.len() == i,
                forall|k: int| 0 <= k < i ==> !marks[k],
            decreases self.entries.len() - i,
        {
            marks.push(false);
            i = i + 1;
        }
        let mut n: usize = 0;
        while n < objects.len()
            invariant
                rising(self.entries@),
                n <= objects.len(),
                marks.len() == self.entries.len(),
                forall|i: int|
                    0 <= i < marks.len() ==> (#[trigger] marks[i] <==> referred_below(
                        objects@,
                        n as int,
                        self.entries[i].id,
                    )),
            decreases objects.len() - n,
        {
            let ghost earlier = marks@;
            let found = match objects[n].mesh_ref {
                Some(id) => self.find(id),
                None => None,
            };
            match found {
                Some(at) => {
                    marks.set(at, true);
                },
                None => {},
            }
            proof {
                self.lemma_unfold();
                assert forall|i: int| 0 <= i < marks.len() implies (#[trigger] marks[i]
                    <==> referred_below(objects@, n + 1, self.entries[i].id)) by {
                    let id = self.entries[i].id;
                    lemma_entry(self.entries@, i);
                    assert(earlier[i] <==> referred_below(objects@, n as int, id));
                    if found == Some(i as usize) {
                        assert(refers(objects@, n as int, id));
                    }
                    if earlier[i] {
                        let j = choose|j: int| 0 <= j < n && refers(objects@, j, id);
                        assert(0 <= j < n + 1 && refers(objects@, j, id));
                    }
                    if referred_below(objects@, n + 1, id) {
                        let j = choose|j: int| 0 <= j < n + 1 && refers(objects@, j, id);
                        if j == n {
                            let at = found.unwrap() as int;
                            if at < i {
                                assert(self.entries[at].rank() < self.entries[i].rank());
                            } else if i < at {
                                assert(self.entries[i].rank() < self.entries[at].rank());
                            }
                        } else {
                            assert(referred_below(objects@, n as int, id));
                        }
                    }
                }
            }
            n = n + 1;
        }
        proof {
            assert forall|i: int| 0 <= i < marks.len() implies (#[trigger] marks[i] <==> referenced(
                objects@,
            ).contains(self.entries[i].id)) by {
                let id = self.entries[i].id;
                assert(marks[i] <==> referred_below(objects@, n as int, id));
                if referenced(objects@).contains(id) {
                    let j = choose|j: int| refers(objects@, j, id);
                    assert(0 <= j < n && refers(objects@, j, id));
                }
            }
        }
        marks
    }

    /// Decides, from the marks of the entries, which entries and which
    /// slots the sweep takes out: a loaded entry that is not marked, and the
    /// slot of each such entry.
    fn plan_sweep(&self, marks: &Vec<bool>) -> (plan: (Vec<bool>, Vec<bool>))
        requires
            self.wf(),
            marks.len() == self.entries.len(),
        ensures
            plan.0.len() == self.entries.len(),
            forall|i: int|
                0 <= i < self.entries.len() ==> (#[trigger] plan.0[i] <==> self.entries[i].state is Loaded
                    && !marks[i]),
            plan.1.len() == self.slots.len(),
            forall|j: int|
                0 <= j < self.slots.len() ==> (#[trigger] plan.1[j] <==> doomed_below(
                    self.entries@,
                    marks@,
                    self.entries.len() as int,
                    self.slots[j].id,
                )),
    {
        proof {
            self.lemma_unfold();
        }
        let mut gone_slots: Vec<bool> = Vec::new();
        let mut j: usize = 0;
        while j < self.slots.len()
            invariant
                j <= self.slots.len(),
                gone_slots.len() == j,
                forall|k: int| 0 <= k < j ==> !gone_slots[k],
            decreases self.slots.len() - j,
        {
            gone_slots.push(false);
            j = j + 1;
        }
        let mut gone_entries: Vec<bool> = Vec::new();
        let mut i: usize = 0;
        while i < self.entries.len()
            invariant
                rising(self.slots@),
                self@.resources == resources_of(self.slots@),
                i <= self.entries.len(),
                marks.len() == self.entries.len(),
                gone_entries.len() == i,
                forall|k: int|
                    0 <= k < i ==> (#[trigger] gone_entries[k] <==> self.entries[k].state is Loaded
                        && !marks[k]),
                gone_slots.len() == self.slots.len(),
                forall|k: int|
                    0 <= k < self.slots.len() ==> (#[trigger] gone_slots[k] <==> doomed_below(
                        self.entries@,
                        marks@,
                        i as int,
                        self.slots[k].id,
                    )),
            decreases self.entries.len() - i,
        {
            let ghost earlier = gone_slots@;
            let ghost hit: int = -1;
            let loaded = self.entries[i].state.gpu_mesh();
            let evict = loaded.is_some() && !marks[i];
            if evict {
                match self.locate(loaded.unwrap()) {
                    Some(at) => {
                        gone_slots.set(at, true);
                        proof {
                            hit = at as int;
                        }
                    },
                    None => {},
                }
            }
            gone_entries.push(evict);
            proof {
                let entries = self.entries@;
                assert forall|k: int| 0 <= k < self.slots.len() implies (#[trigger] gone_slots[k]
                    <==> doomed_below(entries, marks@, i + 1, self.slots[k].id)) by {
                    let gpu = self.slots[k].id;
                    assert(earlier[k] <==> doomed_below(entries, marks@, i as int, gpu));
                    if k == hit {
                        assert(dooms(entries, marks@, i as int, gpu));
                    }
                    if earlier[k] {
                        let a = choose|a: int| a < i && dooms(entries, marks@, a, gpu);
                        assert(a < i + 1 && dooms(entries, marks@, a, gpu));
                    }
                    if doomed_below(entries, marks@, i + 1, gpu) {
                        let a = choose|a: int| a < i + 1 && dooms(entries, marks@, a, gpu);
                        if a == i {
                            lemma_slot(self.slots@, k);
                            if hit >= 0 && hit != k {
                                if hit < k {
                                    assert(self.slots[hit].rank() < self.slots[k].rank());
                                } else {
                                    assert(self.slots[k].rank() < self.slots[hit].rank());
                                }
                            }
                        } else {
                            assert(doomed_below(entries, marks@, i as int, gpu));
                        }
                    }
                }
            }
            i = i + 1;
        }
        (gone_entries, gone_slots)
    }

    /// The reclaim pass. Every loaded mesh that none of the objects refers
    /// to is evicted: it is no longer tracked, and its resource is handed
    /// back so that the caller destroys it. A mesh that an object refers to,
    /// and a mesh that is loading or failed, stays as it is.
    ///
    /// Call it once per frame, with the object list as it stands, after the
    /// resolved fetches were settled and before the scene is assembled.
    pub fn reclaim_unreferenced(&mut self, objects: &Vec<SceneObject>) -> (freed: Vec<GpuMesh<R>>)
        requires
            old(self).wf(),
        ensures
            final(self).wf(),
            final(self)@ == old(self)@.reclaim(referenced(objects@)),
            old(self)@.frees(referenced(objects@), freed@),
    {
        proof {
            self.lemma_unfold();
        }
        let marks = self.mark_referenced(objects);
        let (gone_entries, gone_slots) = self.plan_sweep(&marks);
        let ghost model = self@;
        let ghost refs = referenced(objects@);
        let ghost entries = self.entries@;
        let ghost slots = self.slots@;
        proof {
            lemma_reclaim_wf(model, refs);
            assert forall|i: int| 0 <= i < entries.len() implies (#[trigger] gone_entries[i]
                <==> model.evictable(refs, entries[i].id)) by {
                lemma_entry(entries, i);
            }
            assert forall|j: int| 0 <= j < slots.len() implies (#[trigger] gone_slots[j]
                <==> model.freed(refs, slots[j].id)) by {
                let gpu = slots[j].id;
                if gone_slots[j] {
                    let i = choose|i: int| i < entries.len() && dooms(entries, marks@, i, gpu);
                    lemma_entry(entries, i);
                    assert(model.evictable(refs, entries[i].id) && model.loaded_as(
                        entries[i].id,
                        gpu,
                    ));
                }
                if model.freed(refs, gpu) {
                    let id = choose|id: LogicalMeshId|
                        model.evictable(refs, id) && model.loaded_as(id, gpu);
                    let i = position(entries, entry_key(), id);
                    assert(sits_at(entries, entry_key(), id, i));
                    lemma_entry(entries, i);
                    assert(dooms(entries, marks@, i, gpu));
                }
            }
        }
        let (_, Ghost(entry_origin), _) = split(&mut self.entries, &gone_entries);
        let (freed, Ghost(slot_origin), Ghost(freed_origin)) = split(&mut self.slots, &gone_slots);
        proof {
            lemma_sweep(
                model,
                refs,
                entries,
                slots,
                gone_entries@,
                gone_slots@,
                self.entries@,
                entry_origin,
                self.slots@,
                slot_origin,
                freed@,
                freed_origin,
            );
            self.lemma_unfold();
        }
        freed
    }

    /// Drops every mesh and hands back every resource, so that the caller
    /// destroys them. The identifier counter keeps counting: no identifier
    /// is ever issued twice.
    pub fn clear(&mut self) -> (freed: Vec<GpuMesh<R>>)
        requires
            old(self).wf(),
        ensures
            final(self).wf(),
            final(self)@ == old(self)@.clear(),
            old(self)@.frees(Set::empty(), freed@),
    {
        proof {
            self.lemma_unfold();
        }
        let ghost model = self@;
        let ghost slots = self.slots@;
        let mut freed: Vec<GpuMesh<R>> = Vec::new();
        core::mem::swap(&mut self.slots, &mut freed);
        self.entries.clear();
        proof {
            lemma_clear_wf(model);
            self.lemma_unfold();
            assert(meshes_of(self.entries@) =~= Map::empty());
            assert(resources_of(self.slots@) =~= Map::empty());
            let none = Set::<LogicalMeshId>::empty();
            assert forall|k: int| 0 <= k < freed.len() implies model.freed(
                none,
                #[trigger] freed[k].id,
            ) && model.is_live(freed[k].id) && model.resources[freed[k].id]
                == freed[k].resource by {
                lemma_slot(slots, k);
                assert(model.is_live(freed[k].id));
                let id = choose|id: LogicalMeshId| model.loaded_as(id, freed[k].id);
                assert(model.evictable(none, id) && model.loaded_as(id, freed[k].id));
            }
            assert forall|gpu: GpuMeshId| #[trigger] model.freed(none, gpu) implies exists|k: int|
                0 <= k < freed.len() && #[trigger] freed[k].id == gpu by {
                let id = choose|id: LogicalMeshId|
                    model.evictable(none, id) && model.loaded_as(id, gpu);
                assert(model.is_live(gpu));
                let j = position(slots, slot_key(), gpu);
                assert(sits_at(slots, slot_key(), gpu, j));
                assert(freed[j].id == gpu);
            }
            assert forall|a: int, b: int| 0 <= a < b < freed.len() implies freed[a].id.0
                < freed[b].id.0 by {
                assert(slots[a].rank() < slots[b].rank());
            }
        }
        freed
    }
}

} // verus!
