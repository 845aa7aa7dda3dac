//! Scene objects as the registry and the renderer see them, and the
//! per-frame assembly that resolves each object to the mesh it is drawn with.

use vstd::prelude::*;
use crate::ids::{GpuMeshId, LogicalMeshId};
use crate::mode::RenderingMode;
use crate::registry::ResourceRegistry;
use crate::view::RegistryView;

verus! {

/// `glam::Mat4`, a 4x4 matrix of floats. Nothing is claimed of it: the crate
/// carries model matrices from the scene to the snapshot and never looks
/// inside one.
#[verifier::external_type_specification]
#[verifier::external_body]
pub struct ExMat4(glam::Mat4);

/// What a frame needs to know of one object: its composed model matrix, how
/// it is shaded, and the mesh it refers to, if any.
#[derive(Clone, Copy, Debug)]
pub struct SceneObject {
    pub model_matrix: glam::Mat4,
    pub shading_mode: RenderingMode,
    pub mesh_ref: Option<LogicalMeshId>,
}

/// One object of a frame snapshot, ready to be drawn: its matrix, its
/// shading mode as the integer the shading stage takes, and the GPU mesh to
/// bind, `None` standing for the built-in default mesh.
#[derive(Clone, Copy, Debug)]
pub struct RenderedObject {
    pub model_matrix: glam::Mat4,
    pub mode: i32,
    pub gpu_mesh: Option<GpuMeshId>,
}

/// Whether the object at index `j` refers to `id`.
pub open spec fn refers(objects: Seq<SceneObject>, j: int, id: LogicalMeshId) -> bool {
    0 <= j < objects.len() && objects[j].mesh_ref == Some(id)
}

/// The meshes that at least one of the objects refers to.
pub open spec fn referenced(objects: Seq<SceneObject>) -> Set<LogicalMeshId> {
    Set::new(|id: LogicalMeshId| exists|j: int| refers(objects, j, id))
}

/// The snapshot entry of one object under the given registry.
pub open spec fn rendered<H, R>(object: SceneObject, registry: RegistryView<H, R>) -> RenderedObject {
    RenderedObject {
        model_matrix: object.model_matrix,
        mode: object.shading_mode.index() as i32,
        gpu_mesh: registry.resolve(object.mesh_ref),
    }
}

impl SceneObject {
    /// Resolves the object against the registry as it stands.
    pub fn to_rendered<H, R>(&self, registry: &ResourceRegistry<H, R>) -> (object: RenderedObject)
        requires
            registry.wf(),
        ensures
            object == rendered(*self, registry@),
    {
        RenderedObject {
            model_matrix: self.model_matrix,
            mode: self.shading_mode.as_int(),
            gpu_mesh: registry.resolve(self.mesh_ref),
        }
    }
}

/// Builds the object list of a frame snapshot: one entry per object, in the
/// order of the objects, each resolved against the registry as it stands.
/// Nothing is skipped: an object whose mesh is not loaded is drawn with the
/// default mesh.
pub fn assemble<H, R>(objects: &Vec<SceneObject>, registry: &ResourceRegistry<H, R>) -> (snapshot: Vec<
    RenderedObject,
>)
    requires
        registry.wf(),
    ensures
        snapshot.len() == objects.len(),
        forall|i: int|
            0 <= i < objects.len() ==> #[trigger] snapshot[i] == rendered(objects[i], registry@),
{
    let mut snapshot: Vec<RenderedObject> = Vec::new();
    let mut i: usize = 0;
    while i < objects.len()
        invariant
            registry.wf(),
            i <= objects.len(),
            snapshot.len() == i,
            forall|k: int| 0 <= k < i ==> #[trigger] snapshot[k] == rendered(objects[k], registry@),
        decreases objects.len() - i,
    {
        snapshot.push(objects[i].to_rendered(registry));
        i = i + 1;
    }
    snapshot
}

} // verus!
