//! The mathematical model of the registry: a counter, a map from logical
//! identifiers to meshes and a map from GPU identifiers to resources, with
//! the transitions of the loading state machine written as functions on
//! that model.

use vstd::prelude::*;
use crate::ids::{GpuMeshId, LogicalMeshId};
use crate::state::MeshLoadState;

verus! {

/// What the registry knows of one requested mesh.
pub struct MeshView<H> {
    /// Where the mesh was requested from.
    pub source: Seq<char>,
    /// Where its fetch stands.
    pub state: MeshLoadState<H>,
}

/// A fetch that has resolved, as the caller reports it: with the resource
/// that the parsed mesh was uploaded to, or with nothing if the fetch or the
/// parsing failed.
pub struct Completion<R> {
    /// The mesh whose fetch resolved.
    pub id: LogicalMeshId,
    /// The uploaded mesh, `None` for any failure.
    pub outcome: Option<R>,
}

/// A mesh that became loaded, and the GPU identifier it was given.
#[derive(Clone, Copy, Debug, PartialEq, Eq, Structural)]
pub struct Upload {
    pub id: LogicalMeshId,
    pub gpu: GpuMeshId,
}

/// A GPU resource together with the identifier it is, or was, held under.
#[derive(Debug, PartialEq, Eq)]
pub struct GpuMesh<R> {
    pub id: GpuMeshId,
    pub resource: R,
}

/// What became of one reported completion.
#[derive(Debug, PartialEq, Eq)]
pub enum Settlement<R> {
    /// The mesh is now loaded, its resource held under the given identifier.
    Loaded(GpuMeshId),
    /// The mesh is now failed.
    Failed,
    /// The mesh was not loading, so nothing changed. A resource that came
    /// with the completion is handed back.
    Ignored(Option<R>),
}

/// `n` is the ceiling of the resources: zero when there is none, else one
/// more than the largest identifier that holds one.
pub open spec fn ceiling_is<R>(resources: Map<GpuMeshId, R>, n: nat) -> bool {
    &&& n <= usize::MAX + 1
    &&& forall|gpu: GpuMeshId| #[trigger] resources.contains_key(gpu) ==> gpu.0 < n
    &&& (n == 0 || resources.contains_key(GpuMeshId((n - 1) as usize)))
}

/// The ceiling of the resources.
pub open spec fn ceiling<R>(resources: Map<GpuMeshId, R>) -> nat {
    choose|n: nat| ceiling_is(resources, n)
}

/// The registry as a mathematical value.
pub struct RegistryView<H, R> {
    /// The number of identifiers issued so far, which is also the next one.
    pub next_id: nat,
    /// The meshes the registry currently tracks.
    pub meshes: Map<LogicalMeshId, MeshView<H>>,
    /// The GPU resources the registry currently holds.
    pub resources: Map<GpuMeshId, R>,
}

impl<H, R> RegistryView<H, R> {
    /// Whether `id` is tracked.
    pub open spec fn contains(self, id: LogicalMeshId) -> bool {
        self.meshes.contains_key(id)
    }

    /// The state of a tracked mesh.
    pub open spec fn state_of(self, id: LogicalMeshId) -> MeshLoadState<H> {
        self.meshes[id].state
    }

    /// Whether `id` is tracked and loaded under `gpu`.
    pub open spec fn loaded_as(self, id: LogicalMeshId, gpu: GpuMeshId) -> bool {
        self.contains(id) && self.state_of(id) == MeshLoadState::<H>::Loaded(gpu)
    }

    /// Whether `id` is tracked and its fetch is under way.
    pub open spec fn is_loading(self, id: LogicalMeshId) -> bool {
        self.contains(id) && self.state_of(id) is Loading
    }

    /// Whether a resource is held under `gpu`.
    pub open spec fn is_live(self, gpu: GpuMeshId) -> bool {
        self.resources.contains_key(gpu)
    }

    /// The meshes whose fetch is under way.
    pub open spec fn loading_ids(self) -> Set<LogicalMeshId> {
        self.meshes.dom().filter(|id: LogicalMeshId| self.state_of(id) is Loading)
    }

    /// The GPU mesh an object with this reference is drawn with; `None`
    /// stands for the built-in default mesh.
    pub open spec fn resolve(self, mesh_ref: Option<LogicalMeshId>) -> Option<GpuMeshId> {
        match mesh_ref {
            Some(id) => if self.contains(id) {
                self.state_of(id).gpu_mesh_spec()
            } else {
                None
            },
            None => None,
        }
    }

    /// The GPU ceiling of this registry.
    pub open spec fn gpu_ceiling(self) -> nat {
        ceiling(self.resources)
    }

    /// The identifier the next loaded mesh is held under.
    pub open spec fn fresh_gpu(self) -> GpuMeshId {
        GpuMeshId(self.gpu_ceiling() as usize)
    }

    /// Validity of a registry.
    ///
    /// Every tracked identifier has been issued and no tracked mesh is
    /// `Ready`. The loaded meshes and the resources match one to one: a
    /// loaded mesh has a resource under its GPU identifier, every resource
    /// belongs to a loaded mesh, and no two meshes share one. The GPU
    /// ceiling leaves room for every pending load.
    pub open spec fn wf(self) -> bool {
        &&& self.meshes.dom().finite()
        &&& self.next_id <= usize::MAX
        &&& forall|id: LogicalMeshId| #[trigger] self.contains(id) ==> id.0 < self.next_id
        &&& forall|id: LogicalMeshId| #[trigger]
            self.contains(id) ==> !(self.state_of(id) is Ready)
        &&& forall|a: LogicalMeshId, b: LogicalMeshId, gpu: GpuMeshId|
            #[trigger] self.loaded_as(a, gpu) && #[trigger] self.loaded_as(b, gpu) ==> a == b
        &&& forall|id: LogicalMeshId, gpu: GpuMeshId| #[trigger]
            self.loaded_as(id, gpu) ==> self.is_live(gpu)
        &&& forall|gpu: GpuMeshId| #[trigger]
            self.is_live(gpu) ==> exists|id: LogicalMeshId| self.loaded_as(id, gpu)
        &&& self.gpu_ceiling() + self.loading_ids().len() <= self.next_id
    }

    /// The registry with nothing requested yet.
    pub open spec fn empty() -> RegistryView<H, R> {
        RegistryView { next_id: 0, meshes: Map::empty(), resources: Map::empty() }
    }

    /// The registry after a fetch from `source` was requested.
    pub open spec fn request(self, source: Seq<char>, handle: H) -> RegistryView<H, R> {
        RegistryView {
            next_id: self.next_id + 1,
            meshes: self.meshes.insert(
                LogicalMeshId(self.next_id as usize),
                MeshView { source, state: MeshLoadState::Loading(handle) },
            ),
            resources: self.resources,
        }
    }

    /// The registry after the fetch of `id` resolved with `outcome`. Only a
    /// mesh that is loading changes: with a resource it becomes loaded under
    /// the fresh GPU identifier, which then holds the resource; without one
    /// it becomes failed.
    pub open spec fn settle(self, id: LogicalMeshId, outcome: Option<R>) -> RegistryView<H, R> {
        if self.is_loading(id) {
            match outcome {
                Some(resource) => RegistryView {
                    next_id: self.next_id,
                    meshes: self.meshes.insert(
                        id,
                        MeshView {
                            source: self.meshes[id].source,
                            state: MeshLoadState::Loaded(self.fresh_gpu()),
                        },
                    ),
                    resources: self.resources.insert(self.fresh_gpu(), resource),
                },
                None => RegistryView {
                    next_id: self.next_id,
                    meshes: self.meshes.insert(
                        id,
                        MeshView { source: self.meshes[id].source, state: MeshLoadState::Failed },
                    ),
                    resources: self.resources,
                },
            }
        } else {
            self
        }
    }

    /// What becomes of a completion that reports `outcome` for `id`.
    pub open spec fn settlement(self, id: LogicalMeshId, outcome: Option<R>) -> Settlement<R> {
        if self.is_loading(id) {
            match outcome {
                Some(_) => Settlement::Loaded(self.fresh_gpu()),
                None => Settlement::Failed,
            }
        } else {
            Settlement::Ignored(outcome)
        }
    }

    /// The registry after the given completions were settled, in the order
    /// given.
    pub open spec fn drain(self, completions: Seq<Completion<R>>) -> RegistryView<H, R>
        decreases completions.len(),
    {
        if completions.len() == 0 {
            self
        } else {
            self.drain(completions.drop_last()).settle(
                completions.last().id,
                completions.last().outcome,
            )
        }
    }

    /// The meshes that the given completions load, in their order.
    pub open spec fn loaded(self, completions: Seq<Completion<R>>) -> Seq<Upload>
        decreases completions.len(),
    {
        if completions.len() == 0 {
            Seq::empty()
        } else {
            let before = self.drain(completions.drop_last());
            let earlier = self.loaded(completions.drop_last());
            match before.settlement(completions.last().id, completions.last().outcome) {
                Settlement::Loaded(gpu) => earlier.push(Upload { id: completions.last().id, gpu }),
                _ => earlier,
            }
        }
    }

    /// The resources that the given completions brought for meshes that
    /// were not loading, in their order. The registry does not take them.
    pub open spec fn rejected(self, completions: Seq<Completion<R>>) -> Seq<R>
        decreases completions.len(),
    {
        if completions.len() == 0 {
            Seq::empty()
        } else {
            let before = self.drain(completions.drop_last());
            let earlier = self.rejected(completions.drop_last());
            match before.settlement(completions.last().id, completions.last().outcome) {
                Settlement::Ignored(Some(resource)) => earlier.push(resource),
                _ => earlier,
            }
        }
    }

    /// Whether a reclaim pass with the referenced set `refs` evicts `id`:
    /// the mesh is loaded and nothing refers to it.
    pub open spec fn evictable(self, refs: Set<LogicalMeshId>, id: LogicalMeshId) -> bool {
        self.contains(id) && self.state_of(id) is Loaded && !refs.contains(id)
    }

    /// Whether a reclaim pass with the referenced set `refs` frees the
    /// resource under `gpu`: the mesh loaded under it is evicted.
    pub open spec fn freed(self, refs: Set<LogicalMeshId>, gpu: GpuMeshId) -> bool {
        exists|id: LogicalMeshId| self.evictable(refs, id) && self.loaded_as(id, gpu)
    }

    /// The registry after a reclaim pass: evicted meshes are no longer
    /// tracked and their resources no longer held; everything else is
    /// untouched.
    pub open spec fn reclaim(self, refs: Set<LogicalMeshId>) -> RegistryView<H, R> {
        RegistryView {
            next_id: self.next_id,
            meshes: self.meshes.remove_keys(
                Set::new(|id: LogicalMeshId| self.evictable(refs, id)),
            ),
            resources: self.resources.remove_keys(
                Set::new(|gpu: GpuMeshId| self.freed(refs, gpu)),
            ),
        }
    }

    /// Whether `list` holds exactly the resources that a reclaim pass with
    /// the referenced set `refs` frees, each with the identifier it was held
    /// under, in increasing order of the identifiers.
    pub open spec fn frees(self, refs: Set<LogicalMeshId>, list: Seq<GpuMesh<R>>) -> bool {
        &&& forall|k: int|
            0 <= k < list.len() ==> self.freed(refs, #[trigger] list[k].id) && self.is_live(
                list[k].id,
            ) && self.resources[list[k].id] == list[k].resource
        &&& forall|gpu: GpuMeshId| #[trigger]
            self.freed(refs, gpu) ==> exists|k: int|
                0 <= k < list.len() && #[trigger] list[k].id == gpu
        &&& forall|a: int, b: int| 0 <= a < b < list.len() ==> list[a].id.0 < list[b].id.0
    }

    /// The registry after every mesh was dropped. The counter stays.
    pub open spec fn clear(self) -> RegistryView<H, R> {
        RegistryView { next_id: self.next_id, meshes: Map::empty(), resources: Map::empty() }
    }
}

} // verus!
