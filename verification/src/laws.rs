//! What holds of the registry whatever is done with it.

use vstd::prelude::*;
use crate::ids::{GpuMeshId, LogicalMeshId};
use crate::scene::{referenced, refers, SceneObject};
use crate::validity::{
    lemma_ceiling,
    lemma_clear_wf,
    lemma_drain_wf,
    lemma_fresh_gpu,
    lemma_reclaim_wf,
    lemma_request_wf,
    lemma_settle_wf,
};
use crate::view::{Completion, GpuMesh, RegistryView};

verus! {

/// An object is drawn with the default mesh unless its mesh is loaded: an
/// object without a reference, and one whose mesh is loading, failed or not
/// tracked, resolves to `None`. What resolves to a GPU mesh resolves to the
/// one its mesh is loaded under, and the registry holds the resource of
/// that one.
pub proof fn lemma_resolves_to_default_unless_loaded<H, R>(
    v: RegistryView<H, R>,
    mesh_ref: Option<LogicalMeshId>,
)
    requires
        v.wf(),
    ensures
        mesh_ref is None ==> v.resolve(mesh_ref) is None,
        mesh_ref matches Some(id) && !v.contains(id) ==> v.resolve(mesh_ref) is None,
        mesh_ref matches Some(id) && v.contains(id) && (v.state_of(id) is Loading || v.state_of(
            id,
        ) is Failed) ==> v.resolve(mesh_ref) is None,
        v.resolve(mesh_ref) matches Some(gpu) ==> mesh_ref is Some && v.loaded_as(
            mesh_ref.unwrap(),
            gpu,
        ) && v.is_live(gpu),
{
    match v.resolve(mesh_ref) {
        Some(gpu) => {
            assert(v.loaded_as(mesh_ref.unwrap(), gpu));
        },
        None => {},
    }
}

/// A reclaim pass never takes a mesh from an object: every object of the
/// list it was given resolves after the pass as it did before, the resource
/// it resolves to is still held, and no resource that an object resolves to
/// is among the freed ones.
pub proof fn lemma_reclaim_spares_referenced<H, R>(
    v: RegistryView<H, R>,
    objects: Seq<SceneObject>,
    freed: Seq<GpuMesh<R>>,
    j: int,
)
    requires
        v.wf(),
        v.frees(referenced(objects), freed),
        0 <= j < objects.len(),
    ensures
        v.reclaim(referenced(objects)).resolve(objects[j].mesh_ref) == v.resolve(
            objects[j].mesh_ref,
        ),
        v.resolve(objects[j].mesh_ref) matches Some(gpu) ==> v.reclaim(
            referenced(objects),
        ).is_live(gpu) && v.reclaim(referenced(objects)).resources[gpu] == v.resources[gpu],
        forall|k: int|
            0 <= k < freed.len() ==> v.resolve(objects[j].mesh_ref) != Some(
                #[trigger] freed[k].id,
            ),
{
    let refs = referenced(objects);
    match objects[j].mesh_ref {
        Some(id) => {
            assert(refers(objects, j, id));
            assert(refs.contains(id));
            match v.resolve(objects[j].mesh_ref) {
                Some(gpu) => {
                    assert(v.loaded_as(id, gpu));
                    assert(v.is_live(gpu));
                    if v.freed(refs, gpu) {
                        let other = choose|other: LogicalMeshId|
                            v.evictable(refs, other) && v.loaded_as(other, gpu);
                        assert(v.loaded_as(other, gpu));
                    }
                    assert forall|k: int| 0 <= k < freed.len() implies gpu != #[trigger] freed[k].id by {
                        assert(v.freed(refs, freed[k].id));
                    }
                },
                None => {},
            }
        },
        None => {},
    }
}

/// A reclaim pass frees exactly the resources that no object of the list
/// resolves to: it is a mark-and-sweep over the GPU identifiers that the
/// objects reach.
pub proof fn lemma_freed_iff_unreachable<H, R>(
    v: RegistryView<H, R>,
    objects: Seq<SceneObject>,
    gpu: GpuMeshId,
)
    requires
        v.wf(),
    ensures
        v.freed(referenced(objects), gpu) <==> v.is_live(gpu) && forall|j: int|
            0 <= j < objects.len() ==> v.resolve(#[trigger] objects[j].mesh_ref) != Some(gpu),
{
    let refs = referenced(objects);
    if v.freed(refs, gpu) {
        let id = choose|id: LogicalMeshId| v.evictable(refs, id) && v.loaded_as(id, gpu);
        assert(v.loaded_as(id, gpu));
        assert forall|j: int| 0 <= j < objects.len() implies v.resolve(
            #[trigger] objects[j].mesh_ref,
        ) != Some(gpu) by {
            if v.resolve(objects[j].mesh_ref) == Some(gpu) {
                let other = objects[j].mesh_ref.unwrap();
                assert(v.loaded_as(other, gpu));
                assert(refers(objects, j, other));
            }
        }
    }
    if v.is_live(gpu) && forall|j: int|
        0 <= j < objects.len() ==> v.resolve(#[trigger] objects[j].mesh_ref) != Some(gpu) {
        let id = choose|id: LogicalMeshId| v.loaded_as(id, gpu);
        assert(v.loaded_as(id, gpu));
        if refs.contains(id) {
            let j = choose|j: int| refers(objects, j, id);
            assert(v.resolve(objects[j].mesh_ref) == Some(gpu));
        }
        assert(v.evictable(refs, id));
    }
}

/// A second reclaim pass with the same objects finds nothing to do.
pub proof fn lemma_reclaim_idempotent<H, R>(v: RegistryView<H, R>, refs: Set<LogicalMeshId>)
    requires
        v.wf(),
    ensures
        v.reclaim(refs).reclaim(refs) == v.reclaim(refs),
{
    let w = v.reclaim(refs);
    lemma_reclaim_wf(v, refs);
    assert(w.reclaim(refs).meshes =~= w.meshes);
    assert forall|gpu: GpuMeshId| w.is_live(gpu) implies !w.freed(refs, gpu) by {
        if w.freed(refs, gpu) {
            let id = choose|id: LogicalMeshId| w.evictable(refs, id) && w.loaded_as(id, gpu);
            assert(v.evictable(refs, id));
        }
    }
    assert(w.reclaim(refs).resources =~= w.resources);
}

/// A reclaim pass evicts exactly the loaded meshes that nothing refers to
/// and frees exactly their resources: every other mesh, and every other
/// resource, is as it was.
pub proof fn lemma_reclaim_effect<H, R>(
    v: RegistryView<H, R>,
    refs: Set<LogicalMeshId>,
    id: LogicalMeshId,
    gpu: GpuMeshId,
)
    requires
        v.wf(),
    ensures
        v.reclaim(refs).next_id == v.next_id,
        v.reclaim(refs).contains(id) <==> v.contains(id) && !v.evictable(refs, id),
        v.reclaim(refs).contains(id) ==> v.reclaim(refs).meshes[id] == v.meshes[id],
        v.reclaim(refs).is_live(gpu) <==> v.is_live(gpu) && !v.freed(refs, gpu),
        v.reclaim(refs).is_live(gpu) ==> v.reclaim(refs).resources[gpu] == v.resources[gpu],
        v.loaded_as(id, gpu) ==> (v.freed(refs, gpu) <==> !refs.contains(id)),
{
    if v.loaded_as(id, gpu) {
        if v.freed(refs, gpu) {
            let other = choose|other: LogicalMeshId|
                v.evictable(refs, other) && v.loaded_as(other, gpu);
            assert(v.loaded_as(other, gpu));
        }
        if !refs.contains(id) {
            assert(v.evictable(refs, id) && v.loaded_as(id, gpu));
        }
    }
}

/// What the completions report first for `id`, if they name it at all.
pub open spec fn first_report<R>(completions: Seq<Completion<R>>, id: LogicalMeshId) -> Option<
    Option<R>,
>
    decreases completions.len(),
{
    if completions.len() == 0 {
        None
    } else {
        match first_report(completions.drop_last(), id) {
            Some(outcome) => Some(outcome),
            None => if completions.last().id == id {
                Some(completions.last().outcome)
            } else {
                None
            },
        }
    }
}

/// Settling a list of completions changes nothing but the states of
/// loading meshes and the resources of those that become loaded: the
/// counter, the tracked identifiers and the sources stay, a mesh that is not
/// loading keeps its state, and a resource that is held stays held.
pub proof fn lemma_drain_frame<H, R>(
    v: RegistryView<H, R>,
    completions: Seq<Completion<R>>,
    id: LogicalMeshId,
    gpu: GpuMeshId,
)
    requires
        v.wf(),
    ensures
        v.drain(completions).next_id == v.next_id,
        v.drain(completions).contains(id) == v.contains(id),
        v.contains(id) ==> v.drain(completions).meshes[id].source == v.meshes[id].source,
        v.contains(id) && !(v.state_of(id) is Loading) ==> v.drain(completions).state_of(id)
            == v.state_of(id),
        v.is_live(gpu) ==> v.drain(completions).is_live(gpu) && v.drain(completions).resources[gpu]
            == v.resources[gpu],
    decreases completions.len(),
{
    if completions.len() > 0 {
        let earlier = completions.drop_last();
        lemma_drain_frame(v, earlier, id, gpu);
        lemma_drain_wf(v, earlier);
        lemma_fresh_gpu(v.drain(earlier));
    }
}

/// Every loading mesh whose fetch resolved makes exactly one transition, and
/// no other mesh moves: a loading mesh that the completions do not name
/// keeps loading with the handle it had; one whose first report is a
/// failure is failed; one whose first report brings a resource is loaded,
/// and the registry holds that resource under the GPU identifier the mesh
/// is loaded under.
pub proof fn lemma_drain_effect<H, R>(
    v: RegistryView<H, R>,
    completions: Seq<Completion<R>>,
    id: LogicalMeshId,
)
    requires
        v.wf(),
        v.is_loading(id),
    ensures
        match first_report(completions, id) {
            None => v.drain(completions).state_of(id) == v.state_of(id),
            Some(None) => v.drain(completions).state_of(id) is Failed,
            Some(Some(resource)) => exists|gpu: GpuMeshId|
                #![trigger v.drain(completions).loaded_as(id, gpu)]
                v.drain(completions).loaded_as(id, gpu) && !v.is_live(gpu) && v.drain(
                    completions,
                ).is_live(gpu) && v.drain(completions).resources[gpu] == resource,
        },
    decreases completions.len(),
{
    if completions.len() > 0 {
        let earlier = completions.drop_last();
        let last = completions.last();
        let before = v.drain(earlier);
        lemma_drain_effect(v, earlier, id);
        lemma_drain_frame(v, earlier, id, GpuMeshId(0));
        lemma_drain_wf(v, earlier);
        lemma_fresh_gpu(before);
        match first_report(earlier, id) {
            None => {
                if last.id == id && last.outcome is Some {
                    let gpu = before.fresh_gpu();
                    if v.is_live(gpu) {
                        lemma_drain_frame(v, earlier, id, gpu);
                    }
                    assert(v.drain(completions).loaded_as(id, gpu));
                }
            },
            Some(None) => {},
            Some(Some(resource)) => {
                let gpu = choose|gpu: GpuMeshId|
                    #![trigger before.loaded_as(id, gpu)]
                    before.loaded_as(id, gpu) && !v.is_live(gpu) && before.is_live(gpu)
                        && before.resources[gpu] == resource;
                assert(v.drain(completions).loaded_as(id, gpu));
            },
        }
    }
}

/// The meshes that a list of completions loads get consecutive GPU
/// identifiers, starting at the GPU ceiling the registry had; none of them
/// held a resource before.
pub proof fn lemma_loaded_are_fresh<H, R>(
    v: RegistryView<H, R>,
    completions: Seq<Completion<R>>,
    k: int,
)
    requires
        v.wf(),
        0 <= k < v.loaded(completions).len(),
    ensures
        v.loaded(completions)[k].gpu.0 == v.gpu_ceiling() + k,
        !v.is_live(v.loaded(completions)[k].gpu),
        v.drain(completions).gpu_ceiling() == v.gpu_ceiling() + v.loaded(completions).len(),
    decreases completions.len(),
{
    lemma_loaded_ceiling(v, completions);
    if completions.len() > 0 {
        let earlier = completions.drop_last();
        lemma_loaded_ceiling(v, earlier);
        lemma_drain_wf(v, earlier);
        if k < v.loaded(earlier).len() {
            lemma_loaded_are_fresh(v, earlier, k);
        } else {
            lemma_fresh_gpu(v.drain(earlier));
        }
    }
    lemma_ceiling(v.resources);
}

/// Each mesh that becomes loaded raises the GPU ceiling by one.
proof fn lemma_loaded_ceiling<H, R>(v: RegistryView<H, R>, completions: Seq<Completion<R>>)
    requires
        v.wf(),
    ensures
        v.drain(completions).gpu_ceiling() == v.gpu_ceiling() + v.loaded(completions).len(),
    decreases completions.len(),
{
    if completions.len() > 0 {
        let earlier = completions.drop_last();
        lemma_loaded_ceiling(v, earlier);
        lemma_drain_wf(v, earlier);
        lemma_settle_wf(v.drain(earlier), completions.last().id, completions.last().outcome);
    }
}

/// One operation on the registry.
pub enum Step<H, R> {
    /// A fetch is requested.
    Request { source: Seq<char>, handle: H },
    /// Resolved fetches are settled.
    Drain { completions: Seq<Completion<R>> },
    /// A reclaim pass runs with the given set of referenced meshes.
    Reclaim { refs: Set<LogicalMeshId> },
    /// Every mesh is dropped.
    Clear,
}

/// The registry after one operation.
pub open spec fn step<H, R>(v: RegistryView<H, R>, s: Step<H, R>) -> RegistryView<H, R> {
    match s {
        Step::Request { source, handle } => v.request(source, handle),
        Step::Drain { completions } => v.drain(completions),
        Step::Reclaim { refs } => v.reclaim(refs),
        Step::Clear => v.clear(),
    }
}

/// The registry after a history of operations.
pub open spec fn run<H, R>(v: RegistryView<H, R>, steps: Seq<Step<H, R>>) -> RegistryView<H, R>
    decreases steps.len(),
{
    if steps.len() == 0 {
        v
    } else {
        step(run(v, steps.drop_last()), steps.last())
    }
}

/// Every request of the history is made while identifiers are left.
pub open spec fn admissible<H, R>(v: RegistryView<H, R>, steps: Seq<Step<H, R>>) -> bool {
    forall|i: int|
        0 <= i < steps.len() && #[trigger] steps[i] is Request ==> run(v, steps.take(i)).next_id
            < usize::MAX
}

/// The identifier that the request at position `i` of the history is given.
pub open spec fn issued<H, R>(v: RegistryView<H, R>, steps: Seq<Step<H, R>>, i: int) -> LogicalMeshId {
    LogicalMeshId(run(v, steps.take(i)).next_id as usize)
}

/// A prefix of an admissible history is admissible.
proof fn lemma_admissible_prefix<H, R>(v: RegistryView<H, R>, steps: Seq<Step<H, R>>, n: int)
    requires
        admissible(v, steps),
        0 <= n <= steps.len(),
    ensures
        admissible(v, steps.take(n)),
{
    let upto = steps.take(n);
    assert forall|i: int| 0 <= i < upto.len() && #[trigger] upto[i] is Request implies run(
        v,
        upto.take(i),
    ).next_id < usize::MAX by {
        assert(steps[i] is Request);
        assert(upto.take(i) =~= steps.take(i));
    }
}

/// A valid registry stays valid through every history.
pub proof fn lemma_run_wf<H, R>(v: RegistryView<H, R>, steps: Seq<Step<H, R>>)
    requires
        v.wf(),
        admissible(v, steps),
    ensures
        run(v, steps).wf(),
    decreases steps.len(),
{
    if steps.len() > 0 {
        let earlier = steps.drop_last();
        assert(earlier =~= steps.take(steps.len() - 1));
        lemma_admissible_prefix(v, steps, steps.len() - 1);
        lemma_run_wf(v, earlier);
        let before = run(v, earlier);
        match steps.last() {
            Step::Request { source, handle } => {
                assert(steps[steps.len() - 1] is Request);
                lemma_request_wf(before, source, handle);
            },
            Step::Drain { completions } => {
                lemma_drain_wf(before, completions);
            },
            Step::Reclaim { refs } => {
                lemma_reclaim_wf(before, refs);
            },
            Step::Clear => {
                lemma_clear_wf(before);
            },
        }
    }
}

/// The identifier counter never falls, and every request raises it.
pub proof fn lemma_counter_rises<H, R>(v: RegistryView<H, R>, steps: Seq<Step<H, R>>, i: int, j: int)
    requires
        v.wf(),
        admissible(v, steps),
        0 <= i <= j <= steps.len(),
    ensures
        run(v, steps.take(i)).next_id <= run(v, steps.take(j)).next_id,
        i < j && steps[i] is Request ==> run(v, steps.take(i)).next_id < run(
            v,
            steps.take(j),
        ).next_id,
    decreases j - i,
{
    if i < j {
        let upto = steps.take(j);
        assert(upto.drop_last() =~= steps.take(j - 1));
        assert(upto.last() == steps[j - 1]);
        let before = run(v, steps.take(j - 1));
        match steps[j - 1] {
            Step::Drain { completions } => {
                lemma_admissible_prefix(v, steps, j - 1);
                lemma_run_wf(v, steps.take(j - 1));
                lemma_drain_frame(before, completions, LogicalMeshId(0), GpuMeshId(0));
            },
            _ => {},
        }
        lemma_counter_rises(v, steps, i, j - 1);
    }
}

/// Identifiers are unique and increase for as long as the registry lives:
/// of two requests in a history, whatever happens between them, the later
/// one is given the larger identifier, and the identifier it is given is not
/// tracked at that moment.
pub proof fn lemma_issued_ids_increase<H, R>(
    v: RegistryView<H, R>,
    steps: Seq<Step<H, R>>,
    i: int,
    j: int,
)
    requires
        v.wf(),
        admissible(v, steps),
        0 <= i < j < steps.len(),
        steps[i] is Request,
        steps[j] is Request,
    ensures
        issued(v, steps, i).0 < issued(v, steps, j).0,
        !run(v, steps.take(j)).contains(issued(v, steps, j)),
        run(v, steps.take(j + 1)).is_loading(issued(v, steps, j)),
{
    lemma_counter_rises(v, steps, i, j);
    let upto = steps.take(j);
    lemma_admissible_prefix(v, steps, j);
    lemma_run_wf(v, upto);
    let before = run(v, upto);
    let after = steps.take(j + 1);
    assert(after.drop_last() =~= upto);
    assert(after.last() == steps[j]);
    if before.contains(issued(v, steps, j)) {
        assert(issued(v, steps, j).0 < before.next_id);
    }
}

} // verus!
