//! The registry of requested meshes and of the GPU resources of the loaded
//! ones.

use vstd::prelude::*;
use crate::ids::{GpuMeshId, LogicalMeshId};
use crate::keyed::{
    as_map,
    bisect,
    distinct,
    lemma_item_in_map,
    lemma_map_push,
    lemma_map_update,
    lemma_rising_distinct,
    rising,
    Ranked,
};
use crate::state::MeshLoadState;
use crate::validity::{lemma_ceiling_unique, lemma_empty_wf, lemma_request_wf, lemma_settle_wf};
use crate::view::{ceiling_is, GpuMesh, MeshView, RegistryView, Settlement};

verus! {

/// One tracked mesh.
pub(crate) struct MeshEntry<H> {
    pub(crate) id: LogicalMeshId,
    pub(crate) source: String,
    pub(crate) state: MeshLoadState<H>,
}

impl<H> Ranked for MeshEntry<H> {
    open spec fn rank(&self) -> usize {
        self.id.0
    }

    fn rank_of(&self) -> (r: usize) {
        self.id.0
    }
}

impl<R> Ranked for GpuMesh<R> {
    open spec fn rank(&self) -> usize {
        self.id.0
    }

    fn rank_of(&self) -> (r: usize) {
        self.id.0
    }
}

/// Tracks every requested mesh from its fetch to its eviction, and owns the
/// GPU resource of every loaded one.
///
/// `H` is the handle of a pending fetch and `R` the GPU resource of a loaded
/// mesh; the registry keeps both and looks into neither. The meshes are kept
/// in increasing order of their logical identifiers and the resources in
/// increasing order of their GPU identifiers, so both are found by
/// bisection.
pub struct ResourceRegistry<H, R> {
    pub(crate) next_id: usize,
    pub(crate) entries: Vec<MeshEntry<H>>,
    pub(crate) slots: Vec<GpuMesh<R>>,
}

pub(crate) open spec fn entry_key<H>() -> spec_fn(MeshEntry<H>) -> LogicalMeshId {
    |e: MeshEntry<H>| e.id
}

pub(crate) open spec fn entry_val<H>() -> spec_fn(MeshEntry<H>) -> MeshView<H> {
    |e: MeshEntry<H>| MeshView { source: e.source@, state: e.state }
}

pub(crate) open spec fn slot_key<R>() -> spec_fn(GpuMesh<R>) -> GpuMeshId {
    |s: GpuMesh<R>| s.id
}

pub(crate) open spec fn slot_val<R>() -> spec_fn(GpuMesh<R>) -> R {
    |s: GpuMesh<R>| s.resource
}

/// The map of meshes that the entries stand for.
pub(crate) open spec fn meshes_of<H>(entries: Seq<MeshEntry<H>>) -> Map<LogicalMeshId, MeshView<H>> {
    as_map(entries, entry_key(), entry_val())
}

/// The map of resources that the slots stand for.
pub(crate) open spec fn resources_of<R>(slots: Seq<GpuMesh<R>>) -> Map<GpuMeshId, R> {
    as_map(slots, slot_key(), slot_val())
}

/// Entries in rising order have distinct identifiers.
pub(crate) proof fn lemma_entries_distinct<H>(entries: Seq<MeshEntry<H>>)
    requires
        rising(entries),
    ensures
        distinct(entries, entry_key()),
{
    lemma_rising_distinct(entries, entry_key());
}

/// Slots in rising order have distinct identifiers.
pub(crate) proof fn lemma_slots_distinct<R>(slots: Seq<GpuMesh<R>>)
    requires
        rising(slots),
    ensures
        distinct(slots, slot_key()),
{
    lemma_rising_distinct(slots, slot_key());
}

/// The entry at index `i` is what the map of meshes holds under its
/// identifier.
pub(crate) proof fn lemma_entry<H>(entries: Seq<MeshEntry<H>>, i: int)
    requires
        rising(entries),
        0 <= i < entries.len(),
    ensures
        meshes_of(entries).contains_key(entries[i].id),
        meshes_of(entries)[entries[i].id] == (MeshView {
            source: entries[i].source@,
            state: entries[i].state,
        }),
{
    lemma_entries_distinct(entries);
    lemma_item_in_map(entries, entry_key(), entry_val(), i);
}

/// The slot at index `j` is what the map of resources holds under its
/// identifier.
pub(crate) proof fn lemma_slot<R>(slots: Seq<GpuMesh<R>>, j: int)
    requires
        rising(slots),
        0 <= j < slots.len(),
    ensures
        resources_of(slots).contains_key(slots[j].id),
        resources_of(slots)[slots[j].id] == slots[j].resource,
{
    lemma_slots_distinct(slots);
    lemma_item_in_map(slots, slot_key(), slot_val(), j);
}

/// The ceiling of the resources is one more than the identifier of the last
/// slot, or zero if there is no slot.
pub(crate) proof fn lemma_slots_ceiling<R>(slots: Seq<GpuMesh<R>>)
    requires
        rising(slots),
    ensures
        crate::view::ceiling(resources_of(slots)) == if slots.len() == 0 {
            0
        } else {
            slots.last().id.0 + 1
        },
{
    let resources = resources_of(slots);
    let n: nat = if slots.len() == 0 {
        0
    } else {
        (slots.last().id.0 + 1) as nat
    };
    assert forall|gpu: GpuMeshId| #[trigger] resources.contains_key(gpu) implies gpu.0 < n by {
        let j = crate::keyed::position(slots, slot_key(), gpu);
        assert(crate::keyed::sits_at(slots, slot_key(), gpu, j));
        if j < slots.len() - 1 {
            assert(slots[j].rank() < slots[slots.len() - 1].rank());
        }
    }
    if slots.len() > 0 {
        lemma_slot(slots, slots.len() - 1);
    }
    assert(ceiling_is(resources, n));
    lemma_ceiling_unique(resources, n);
}

impl<H, R> View for ResourceRegistry<H, R> {
    type V = RegistryView<H, R>;

    closed spec fn view(&self) -> RegistryView<H, R> {
        RegistryView {
            next_id: self.next_id as nat,
            meshes: meshes_of(self.entries@),
            resources: resources_of(self.slots@),
        }
    }
}

impl<H, R> ResourceRegistry<H, R> {
    /// Validity of the registry: its model is valid, and its two
    /// collections are laid out as the lookups need them.
    pub closed spec fn wf(&self) -> bool {
        &&& rising(self.entries@)
        &&& rising(self.slots@)
        &&& self@.wf()
    }

    /// What the model and validity are in terms of the fields.
    pub(crate) proof fn lemma_unfold(&self)
        ensures
            self@.next_id == self.next_id,
            self@.meshes == meshes_of(self.entries@),
            self@.resources == resources_of(self.slots@),
            self.wf() <==> (rising(self.entries@) && rising(self.slots@) && self@.wf()),
    {
    }

    /// A valid registry has a valid model.
    pub proof fn lemma_view_wf(&self)
        requires
            self.wf(),
        ensures
            self@.wf(),
    {
    }

    /// A registry with nothing requested.
    pub fn new() -> (registry: ResourceRegistry<H, R>)
        ensures
            registry.wf(),
            registry@ == RegistryView::<H, R>::empty(),
    {
        let registry = ResourceRegistry { next_id: 0, entries: Vec::new(), slots: Vec::new() };
        proof {
            lemma_empty_wf::<H, R>();
            assert(meshes_of(registry.entries@) =~= Map::empty());
            assert(resources_of(registry.slots@) =~= Map::empty());
        }
        registry
    }

    /// The identifier the next request will get.
    pub fn next_id(&self) -> (next: usize)
        ensures
            next == self@.next_id,
    {
        self.next_id
    }

    /// The index of the entry with the given identifier.
    pub(crate) fn find(&self, id: LogicalMeshId) -> (found: Option<usize>)
        requires
            rising(self.entries@),
        ensures
            match found {
                Some(i) => i < self.entries.len() && self.entries[i as int].id == id
                    && self@.contains(id),
                None => !self@.contains(id),
            },
    {
        let found = bisect(&self.entries, id.0);
        proof {
            match found {
                Some(i) => {
                    lemma_entry(self.entries@, i as int);
                },
                None => {
                    if self@.contains(id) {
                        let i = crate::keyed::position(self.entries@, entry_key(), id);
                        assert(crate::keyed::sits_at(self.entries@, entry_key(), id, i));
                    }
                },
            }
        }
        found
    }

    /// The index of the slot with the given identifier.
    pub(crate) fn locate(&self, gpu: GpuMeshId) -> (found: Option<usize>)
        requires
            rising(self.slots@),
        ensures
            match found {
                Some(j) => j < self.slots.len() && self.slots[j as int].id == gpu && self@.is_live(
                    gpu,
                ),
                None => !self@.is_live(gpu),
            },
    {
        let found = bisect(&self.slots, gpu.0);
        proof {
            match found {
                Some(j) => {
                    lemma_slot(self.slots@, j as int);
                },
                None => {
                    if self@.is_live(gpu) {
                        let j = crate::keyed::position(self.slots@, slot_key(), gpu);
                        assert(crate::keyed::sits_at(self.slots@, slot_key(), gpu, j));
                    }
                },
            }
        }
        found
    }

    /// The GPU ceiling: zero when no resource is held, else one more than
    /// the largest GPU identifier that holds one.
    pub fn gpu_ceiling(&self) -> (ceiling: usize)
        requires
            self.wf(),
        ensures
            ceiling == self@.gpu_ceiling(),
    {
        proof {
            lemma_slots_ceiling(self.slots@);
            crate::validity::lemma_fresh_gpu(self@);
        }
        let n = self.slots.len();
        if n == 0 {
            0
        } else {
            self.slots[n - 1].id.0 + 1
        }
    }

    /// Records a request for the mesh at `source`, whose fetch the caller
    /// has started and polls through `handle`. The mesh gets the next
    /// identifier and starts out loading.
    pub fn request(&mut self, source: String, handle: H) -> (id: LogicalMeshId)
        requires
            old(self).wf(),
            old(self)@.next_id < usize::MAX,
        ensures
            final(self).wf(),
            final(self)@ == old(self)@.request(source@, handle),
            id.0 == old(self)@.next_id,
    {
        let id = LogicalMeshId(self.next_id);
        let entry = MeshEntry { id, source, state: MeshLoadState::Loading(handle) };
        proof {
            let s = self.entries@;
            assert(rising(s.push(entry))) by {
                assert forall|i: int, j: int| 0 <= i < j < s.push(entry).len() implies s.push(
                    entry,
                )[i].rank() < s.push(entry)[j].rank() by {
                    if j == s.len() {
                        lemma_entry(s, i);
                        assert(self@.contains(s[i].id));
                    }
                }
            }
            lemma_entries_distinct(s.push(entry));
            lemma_map_push(s, entry_key(), entry_val(), entry);
            lemma_request_wf(self@, source@, handle);
        }
        self.entries.push(entry);
        self.next_id = self.next_id + 1;
        id
    }

    /// Whether the mesh is tracked.
    pub fn contains(&self, id: LogicalMeshId) -> (present: bool)
        requires
            self.wf(),
        ensures
            present == self@.contains(id),
    {
        self.find(id).is_some()
    }

    /// The state of a mesh, or `None` if it is not tracked.
    pub fn state(&self, id: LogicalMeshId) -> (state: Option<&MeshLoadState<H>>)
        requires
            self.wf(),
        ensures
            match state {
                Some(s) => self@.contains(id) && *s == self@.state_of(id),
                None => !self@.contains(id),
            },
    {
        match self.find(id) {
            Some(i) => {
                proof {
                    lemma_entry(self.entries@, i as int);
                }
                Some(&self.entries[i].state)
            },
            None => None,
        }
    }

    /// Where a mesh was requested from, or `None` if it is not tracked.
    pub fn source(&self, id: LogicalMeshId) -> (source: Option<&String>)
        requires
            self.wf(),
        ensures
            match source {
                Some(s) => self@.contains(id) && s@ == self@.meshes[id].source,
                None => !self@.contains(id),
            },
    {
        match self.find(id) {
            Some(i) => {
                proof {
                    lemma_entry(self.entries@, i as int);
                }
                Some(&self.entries[i].source)
            },
            None => None,
        }
    }

    /// The handle of the pending fetch of a mesh, or `None` if the mesh is
    /// not loading.
    pub fn handle(&self, id: LogicalMeshId) -> (handle: Option<&H>)
        requires
            self.wf(),
        ensures
            match handle {
                Some(h) => self@.contains(id) && self@.state_of(id) == MeshLoadState::Loading(*h),
                None => !self@.is_loading(id),
            },
    {
        match self.find(id) {
            Some(i) => {
                proof {
                    lemma_entry(self.entries@, i as int);
                }
                match &self.entries[i].state {
                    MeshLoadState::Loading(h) => Some(h),
                    _ => None,
                }
            },
            None => None,
        }
    }

    /// The GPU mesh that an object with the given reference is drawn with.
    /// `None` stands for the built-in default mesh: it is the answer for an
    /// object without a reference and for every mesh that is not loaded.
    pub fn resolve(&self, mesh_ref: Option<LogicalMeshId>) -> (gpu: Option<GpuMeshId>)
        requires
            self.wf(),
        ensures
            gpu == self@.resolve(mesh_ref),
    {
        match mesh_ref {
            Some(id) => match self.find(id) {
                Some(i) => {
                    proof {
                        lemma_entry(self.entries@, i as int);
                    }
                    self.entries[i].state.gpu_mesh()
                },
                None => None,
            },
            None => None,
        }
    }

    /// Whether a resource is held under the given GPU identifier.
    pub fn is_live(&self, gpu: GpuMeshId) -> (live: bool)
        requires
            self.wf(),
        ensures
            live == self@.is_live(gpu),
    {
        self.locate(gpu).is_some()
    }

    /// The resource held under the given GPU identifier, if any.
    pub fn resource(&self, gpu: GpuMeshId) -> (resource: Option<&R>)
        requires
            self.wf(),
        ensures
            match resource {
                Some(r) => self@.is_live(gpu) && *r == self@.resources[gpu],
                None => !self@.is_live(gpu),
            },
    {
        match self.locate(gpu) {
            Some(j) => {
                proof {
                    lemma_slot(self.slots@, j as int);
                }
                Some(&self.slots[j].resource)
            },
            None => None,
        }
    }

    /// The resource to bind for an object of a snapshot: the one held under
    /// its GPU mesh, or `fallback`, the built-in default mesh, if the object
    /// has none or nothing is held under it.
    pub fn mesh_or<'a>(&'a self, gpu_mesh: Option<GpuMeshId>, fallback: &'a R) -> (mesh: &'a R)
        requires
            self.wf(),
        ensures
            *mesh == match gpu_mesh {
                Some(gpu) => if self@.is_live(gpu) {
                    self@.resources[gpu]
                } else {
                    *fallback
                },
                None => *fallback,
            },
    {
        match gpu_mesh {
            Some(gpu) => match self.resource(gpu) {
                Some(resource) => resource,
                None => fallback,
            },
            None => fallback,
        }
    }

    /// Applies the outcome of a resolved fetch. A mesh that is loading
    /// becomes loaded if the outcome brings the resource its mesh was
    /// uploaded to, which the registry then holds under a fresh GPU
    /// identifier; without a resource it becomes failed. A mesh in any other
    /// state, or one that is not tracked, is left alone, and the outcome is
    /// handed back.
    pub fn settle(&mut self, id: LogicalMeshId, outcome: Option<R>) -> (settlement: Settlement<R>)
        requires
            old(self).wf(),
        ensures
            final(self).wf(),
            final(self)@ == old(self)@.settle(id, outcome),
            settlement == old(self)@.settlement(id, outcome),
    {
        let found = self.find(id);
        if found.is_none() {
            return Settlement::Ignored(outcome);
        }
        let i = found.unwrap();
        proof {
            lemma_entry(self.entries@, i as int);
        }
        if !self.entries[i].state.is_loading() {
            return Settlement::Ignored(outcome);
        }
        let ghost entries = self.entries@;
        let ghost slots = self.slots@;
        let ghost model = self@;
        proof {
            lemma_settle_wf(model, id, outcome);
            lemma_entries_distinct(entries);
        }
        match outcome {
            Some(resource) => {
                let gpu = GpuMeshId(self.gpu_ceiling());
                let slot = GpuMesh { id: gpu, resource };
                proof {
                    lemma_slots_ceiling(slots);
                    assert(rising(slots.push(slot))) by {
                        assert forall|a: int, b: int|
                            0 <= a < b < slots.push(slot).len() implies slots.push(slot)[a].rank()
                            < slots.push(slot)[b].rank() by {
                            if b == slots.len() && a < slots.len() - 1 {
                                assert(slots[a].rank() < slots[slots.len() - 1].rank());
                            }
                        }
                    }
                    lemma_slots_distinct(slots.push(slot));
                    lemma_map_push(slots, slot_key(), slot_val(), slot);
                }
                self.slots.push(slot);
                let mut next = MeshLoadState::Loaded(gpu);
                core::mem::swap(&mut self.entries[i].state, &mut next);
                proof {
                    let entry = self.entries@[i as int];
                    assert(self.entries@ =~= entries.update(i as int, entry));
                    lemma_map_update(entries, entry_key(), entry_val(), i as int, entry);
                    lemma_rising_update(entries, i as int, entry);
                }
                Settlement::Loaded(gpu)
            },
            None => {
                let mut next = MeshLoadState::Failed;
                core::mem::swap(&mut self.entries[i].state, &mut next);
                proof {
                    let entry = self.entries@[i as int];
                    assert(self.entries@ =~= entries.update(i as int, entry));
                    lemma_map_update(entries, entry_key(), entry_val(), i as int, entry);
                    lemma_rising_update(entries, i as int, entry);
                }
                Settlement::Failed
            },
        }
    }
}

impl<H, R> Default for ResourceRegistry<H, R> {
    /// A registry with nothing requested.
    fn default() -> (registry: ResourceRegistry<H, R>)
        ensures
            registry.wf(),
            registry@ == RegistryView::<H, R>::empty(),
    {
        ResourceRegistry::new()
    }
}

/// Replacing an item by one of the same rank keeps the ranks rising.
pub(crate) proof fn lemma_rising_update<T: Ranked>(s: Seq<T>, i: int, e: T)
    requires
        rising(s),
        0 <= i < s.len(),
        e.rank() == s[i].rank(),
    ensures
        rising(s.update(i, e)),
{
    let t = s.update(i, e);
    assert forall|a: int, b: int| 0 <= a < b < t.len() implies t[a].rank() < t[b].rank() by {
        assert(s[a].rank() < s[b].rank());
    }
}

} // verus!
