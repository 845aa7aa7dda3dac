//! One frame of bookkeeping, in its fixed order.

use vstd::prelude::*;
use crate::registry::ResourceRegistry;
use crate::scene::{assemble, referenced, rendered, RenderedObject, SceneObject};
use crate::view::{Completion, GpuMesh, Upload};

verus! {

/// What one frame of bookkeeping did, and what there is to draw.
pub struct Frame<R> {
    /// The meshes that became loaded, with the GPU identifiers they were
    /// given.
    pub loaded: Vec<Upload>,
    /// The resources that came for meshes that were not loading: the caller
    /// destroys them.
    pub rejected: Vec<R>,
    /// The resources of the meshes that were reclaimed: the caller destroys
    /// them.
    pub freed: Vec<GpuMesh<R>>,
    /// The objects to draw, in drawing order.
    pub objects: Vec<RenderedObject>,
}

/// Runs the bookkeeping of one frame: settle the fetches that resolved,
/// reclaim the meshes that no object refers to, assemble the objects to
/// draw. The order is fixed, so a mesh that has just become loaded is
/// reclaimed in the same frame unless an object refers to it, and every
/// object is resolved against the registry as the frame leaves it: whatever
/// GPU mesh an object of the frame names, the registry holds its resource.
pub fn advance_frame<H, R>(
    registry: &mut ResourceRegistry<H, R>,
    completions: Vec<Completion<R>>,
    objects: &Vec<SceneObject>,
) -> (frame: Frame<R>)
    requires
        old(registry).wf(),
    ensures
        final(registry).wf(),
        final(registry)@ == old(registry)@.drain(completions@).reclaim(referenced(objects@)),
        frame.loaded@ == old(registry)@.loaded(completions@),
        frame.rejected@ == old(registry)@.rejected(completions@),
        old(registry)@.drain(completions@).frees(referenced(objects@), frame.freed@),
        frame.objects.len() == objects.len(),
        forall|i: int|
            0 <= i < objects.len() ==> #[trigger] frame.objects[i] == rendered(
                objects[i],
                final(registry)@,
            ),
        forall|i: int|
            0 <= i < objects.len() ==> ((#[trigger] frame.objects[i]).gpu_mesh matches Some(gpu)
                ==> final(registry)@.is_live(gpu)),
{
    let report = registry.drain_completed_loads(completions);
    let freed = registry.reclaim_unreferenced(objects);
    let rendered_objects = assemble(objects, registry);
    proof {
        registry.lemma_view_wf();
        let model = registry@;
        assert forall|i: int| 0 <= i < objects.len() implies ((
        #[trigger] rendered_objects[i]).gpu_mesh matches Some(gpu) ==> model.is_live(gpu)) by {
            assert(rendered_objects[i] == rendered(objects[i], model));
            match objects[i].mesh_ref {
                Some(id) => {
                    if rendered_objects[i].gpu_mesh is Some {
                        assert(model.loaded_as(id, rendered_objects[i].gpu_mesh.unwrap()));
                    }
                },
                None => {},
            }
        }
    }
    Frame { loaded: report.loaded, rejected: report.rejected, freed, objects: rendered_objects }
}

} // verus!
