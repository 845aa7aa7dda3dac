//! Load state of one requested mesh.

use vstd::prelude::*;
use crate::ids::GpuMeshId;

verus! {

/// Where the fetch of one mesh stands. `H` is the handle of the pending
/// fetch, which the caller polls.
pub enum MeshLoadState<H> {
    /// No fetch has been issued. A mesh of the registry is never in this
    /// state: it enters the registry when its fetch is requested.
    Ready,
    /// The fetch is under way.
    Loading(H),
    /// The fetch ended without a usable mesh. Terminal.
    Failed,
    /// The mesh is uploaded under the given GPU identifier.
    Loaded(GpuMeshId),
}

impl<H> MeshLoadState<H> {
    /// The GPU mesh this state stands for: that of `Loaded`, none otherwise.
    pub open spec fn gpu_mesh_spec(self) -> Option<GpuMeshId> {
        match self {
            MeshLoadState::Loaded(gpu) => Some(gpu),
            _ => None,
        }
    }

    /// The GPU mesh to draw for this state, `None` standing for the built-in
    /// default mesh.
    pub fn gpu_mesh(&self) -> (gpu: Option<GpuMeshId>)
        ensures
            gpu == self.gpu_mesh_spec(),
    {
        match self {
            MeshLoadState::Loaded(gpu) => Some(*gpu),
            _ => None,
        }
    }

    /// Whether the fetch is still under way.
    pub fn is_loading(&self) -> (loading: bool)
        ensures
            loading == (*self is Loading),
    {
        match self {
            MeshLoadState::Loading(_) => true,
            _ => false,
        }
    }
}

} // verus!
