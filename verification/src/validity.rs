//! Facts about the GPU ceiling, and the proof that every transition of the
//! model keeps a valid registry valid.

use vstd::prelude::*;
use crate::ids::{GpuMeshId, LogicalMeshId};
use crate::view::{ceiling, ceiling_is, Completion, RegistryView};

verus! {

/// If every identifier that holds a resource is below `n`, some ceiling
/// exists at or below `n`.
proof fn lemma_ceiling_below<R>(resources: Map<GpuMeshId, R>, n: nat)
    requires
        forall|gpu: GpuMeshId| #[trigger] resources.contains_key(gpu) ==> gpu.0 < n,
        n <= usize::MAX + 1,
    ensures
        exists|m: nat| m <= n && ceiling_is(resources, m),
    decreases n,
{
    if n == 0 {
        assert(ceiling_is(resources, 0));
    } else if resources.contains_key(GpuMeshId((n - 1) as usize)) {
        assert(ceiling_is(resources, n));
    } else {
        assert forall|gpu: GpuMeshId| #[trigger] resources.contains_key(gpu) implies gpu.0 < n
            - 1 by {
            if gpu.0 == n - 1 {
                assert(gpu == GpuMeshId((n - 1) as usize));
            }
        }
        lemma_ceiling_below(resources, (n - 1) as nat);
    }
}

/// Only one number can be the ceiling.
pub proof fn lemma_ceiling_unique<R>(resources: Map<GpuMeshId, R>, n: nat)
    requires
        ceiling_is(resources, n),
    ensures
        ceiling(resources) == n,
{
    let c = ceiling(resources);
    assert(ceiling_is(resources, c));
    if c < n {
        assert(resources.contains_key(GpuMeshId((n - 1) as usize)));
    } else if n < c {
        assert(resources.contains_key(GpuMeshId((c - 1) as usize)));
    }
}

/// The ceiling is well defined: it bounds every identifier that holds a
/// resource, and unless it is zero the identifier just below it holds one.
pub proof fn lemma_ceiling<R>(resources: Map<GpuMeshId, R>)
    ensures
        ceiling_is(resources, ceiling(resources)),
{
    lemma_ceiling_below(resources, (usize::MAX + 1) as nat);
    let m = choose|m: nat| m <= usize::MAX + 1 && ceiling_is(resources, m);
    lemma_ceiling_unique(resources, m);
}

/// In a valid registry the fresh GPU identifier is the ceiling itself, and
/// nothing is held under it.
pub proof fn lemma_fresh_gpu<H, R>(v: RegistryView<H, R>)
    requires
        v.wf(),
    ensures
        v.fresh_gpu().0 == v.gpu_ceiling(),
        v.gpu_ceiling() <= v.next_id,
        !v.is_live(v.fresh_gpu()),
{
    lemma_ceiling(v.resources);
}

/// The empty registry is valid.
pub proof fn lemma_empty_wf<H, R>()
    ensures
        RegistryView::<H, R>::empty().wf(),
        RegistryView::<H, R>::empty().gpu_ceiling() == 0,
{
    let v = RegistryView::<H, R>::empty();
    assert(ceiling_is(v.resources, 0));
    lemma_ceiling_unique(v.resources, 0);
    assert(v.loading_ids() =~= Set::empty());
}

/// A request keeps the registry valid. The identifier it issues was not
/// tracked before.
pub proof fn lemma_request_wf<H, R>(v: RegistryView<H, R>, source: Seq<char>, handle: H)
    requires
        v.wf(),
        v.next_id < usize::MAX,
    ensures
        v.request(source, handle).wf(),
        !v.contains(LogicalMeshId(v.next_id as usize)),
{
    let w = v.request(source, handle);
    let id = LogicalMeshId(v.next_id as usize);
    if v.contains(id) {
        assert(id.0 < v.next_id);
    }
    assert(w.loading_ids() =~= v.loading_ids().insert(id));
    assert(v.loading_ids().finite());
    assert forall|a: LogicalMeshId| #[trigger] w.contains(a) implies a.0 < w.next_id && !(w.state_of(
        a,
    ) is Ready) by {
        if a != id {
            assert(v.contains(a));
        }
    }
    assert forall|a: LogicalMeshId, gpu: GpuMeshId| #[trigger] w.loaded_as(a, gpu) implies v.loaded_as(
        a,
        gpu,
    ) by {}
    assert forall|a: LogicalMeshId, b: LogicalMeshId, gpu: GpuMeshId|
        #[trigger] w.loaded_as(a, gpu) && #[trigger] w.loaded_as(b, gpu) implies a == b by {
        assert(v.loaded_as(a, gpu) && v.loaded_as(b, gpu));
    }
    assert forall|gpu: GpuMeshId| #[trigger] w.is_live(gpu) implies exists|a: LogicalMeshId|
        w.loaded_as(a, gpu) by {
        assert(v.is_live(gpu));
        let a = choose|a: LogicalMeshId| v.loaded_as(a, gpu);
        assert(w.loaded_as(a, gpu));
    }
}

/// Settling a fetch keeps the registry valid. A resource raises the GPU
/// ceiling by one if the mesh was loading; anything else leaves the ceiling
/// alone.
pub proof fn lemma_settle_wf<H, R>(v: RegistryView<H, R>, id: LogicalMeshId, outcome: Option<R>)
    requires
        v.wf(),
    ensures
        v.settle(id, outcome).wf(),
        v.settle(id, outcome).gpu_ceiling() == if v.is_loading(id) && outcome is Some {
            v.gpu_ceiling() + 1
        } else {
            v.gpu_ceiling()
        },
{
    let w = v.settle(id, outcome);
    if v.is_loading(id) {
        lemma_ceiling(v.resources);
        lemma_fresh_gpu(v);
        let c = v.gpu_ceiling();
        let fresh = v.fresh_gpu();
        assert(v.loading_ids().contains(id));
        assert(v.loading_ids().finite());
        assert(w.loading_ids() =~= v.loading_ids().remove(id));
        assert(w.meshes.dom() =~= v.meshes.dom());
        assert forall|a: LogicalMeshId| #[trigger] w.contains(a) implies a.0 < w.next_id && !(
        w.state_of(a) is Ready) by {
            assert(v.contains(a));
        }
        assert forall|a: LogicalMeshId, gpu: GpuMeshId| #[trigger] w.loaded_as(a, gpu) implies (
        v.loaded_as(a, gpu) || (outcome is Some && a == id && gpu == fresh)) by {}
        assert forall|a: LogicalMeshId, gpu: GpuMeshId| #[trigger] v.loaded_as(a, gpu) implies w.loaded_as(
            a,
            gpu,
        ) by {}
        if outcome is Some {
            assert(w.loaded_as(id, fresh));
            assert(w.resources.contains_key(GpuMeshId(((c + 1) - 1) as usize)));
            assert(ceiling_is(w.resources, c + 1));
            lemma_ceiling_unique(w.resources, c + 1);
        }
        assert forall|a: LogicalMeshId, b: LogicalMeshId, gpu: GpuMeshId|
            #[trigger] w.loaded_as(a, gpu) && #[trigger] w.loaded_as(b, gpu) implies a == b by {
            if v.loaded_as(a, gpu) && v.loaded_as(b, gpu) {
            } else if v.loaded_as(a, gpu) {
                assert(v.is_live(gpu));
            } else if v.loaded_as(b, gpu) {
                assert(v.is_live(gpu));
            }
        }
        assert forall|a: LogicalMeshId, gpu: GpuMeshId| #[trigger] w.loaded_as(a, gpu) implies w.is_live(
            gpu,
        ) by {
            if v.loaded_as(a, gpu) {
                assert(v.is_live(gpu));
            }
        }
        assert forall|gpu: GpuMeshId| #[trigger] w.is_live(gpu) implies exists|a: LogicalMeshId|
            w.loaded_as(a, gpu) by {
            if v.is_live(gpu) {
                let a = choose|a: LogicalMeshId| v.loaded_as(a, gpu);
                assert(w.loaded_as(a, gpu));
            } else {
                assert(w.loaded_as(id, gpu));
            }
        }
    }
}

/// Settling a list of completions keeps the registry valid.
pub proof fn lemma_drain_wf<H, R>(v: RegistryView<H, R>, completions: Seq<Completion<R>>)
    requires
        v.wf(),
    ensures
        v.drain(completions).wf(),
    decreases completions.len(),
{
    if completions.len() > 0 {
        lemma_drain_wf(v, completions.drop_last());
        lemma_settle_wf(
            v.drain(completions.drop_last()),
            completions.last().id,
            completions.last().outcome,
        );
    }
}

/// A reclaim pass keeps the registry valid and never raises the GPU ceiling.
pub proof fn lemma_reclaim_wf<H, R>(v: RegistryView<H, R>, refs: Set<LogicalMeshId>)
    requires
        v.wf(),
    ensures
        v.reclaim(refs).wf(),
        v.reclaim(refs).gpu_ceiling() <= v.gpu_ceiling(),
{
    let w = v.reclaim(refs);
    lemma_ceiling(v.resources);
    lemma_ceiling(w.resources);
    let c = w.gpu_ceiling();
    if c > 0 {
        assert(v.resources.contains_key(GpuMeshId((c - 1) as usize)));
    }
    assert(w.loading_ids() =~= v.loading_ids());
    assert(w.meshes.dom() =~= v.meshes.dom().difference(
        Set::new(|id: LogicalMeshId| v.evictable(refs, id)),
    ));
    assert forall|a: LogicalMeshId| #[trigger] w.contains(a) implies a.0 < w.next_id && !(w.state_of(
        a,
    ) is Ready) by {
        assert(v.contains(a));
    }
    assert forall|a: LogicalMeshId, b: LogicalMeshId, gpu: GpuMeshId|
        #[trigger] w.loaded_as(a, gpu) && #[trigger] w.loaded_as(b, gpu) implies a == b by {
        assert(v.loaded_as(a, gpu) && v.loaded_as(b, gpu));
    }
    assert forall|a: LogicalMeshId, gpu: GpuMeshId| #[trigger] w.loaded_as(a, gpu) implies w.is_live(
        gpu,
    ) by {
        assert(v.loaded_as(a, gpu));
        assert(v.is_live(gpu));
        if v.freed(refs, gpu) {
            let b = choose|b: LogicalMeshId| v.evictable(refs, b) && v.loaded_as(b, gpu);
            assert(v.loaded_as(b, gpu));
        }
    }
    assert forall|gpu: GpuMeshId| #[trigger] w.is_live(gpu) implies exists|a: LogicalMeshId|
        w.loaded_as(a, gpu) by {
        assert(v.is_live(gpu));
        let a = choose|a: LogicalMeshId| v.loaded_as(a, gpu);
        assert(v.loaded_as(a, gpu));
        assert(!v.evictable(refs, a));
        assert(w.loaded_as(a, gpu));
    }
}

/// Dropping every mesh keeps the registry valid and resets the GPU ceiling.
pub proof fn lemma_clear_wf<H, R>(v: RegistryView<H, R>)
    requires
        v.wf(),
    ensures
        v.clear().wf(),
        v.clear().gpu_ceiling() == 0,
{
    let w = v.clear();
    assert(ceiling_is(w.resources, 0));
    lemma_ceiling_unique(w.resources, 0);
    assert(w.loading_ids() =~= Set::empty());
}

} // verus!
