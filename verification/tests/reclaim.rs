use glam::Mat4;
use mesh_scene::ids::{GpuMeshId, LogicalMeshId};
use mesh_scene::mode::RenderingMode;
use mesh_scene::registry::ResourceRegistry;
use mesh_scene::scene::SceneObject;
use mesh_scene::state::MeshLoadState;
use mesh_scene::view::{GpuMesh, Settlement};

type Registry = ResourceRegistry<(), &'static str>;

fn object(mesh_ref: Option<LogicalMeshId>) -> SceneObject {
    SceneObject { model_matrix: Mat4::IDENTITY, shading_mode: RenderingMode::Phong, mesh_ref }
}

fn three_loaded() -> (Registry, LogicalMeshId, LogicalMeshId, LogicalMeshId) {
    let mut registry = Registry::new();
    let a = registry.request("a".to_string(), ());
    let b = registry.request("b".to_string(), ());
    let c = registry.request("c".to_string(), ());
    assert_eq!(registry.settle(a, Some("A")), Settlement::Loaded(GpuMeshId(0)));
    assert_eq!(registry.settle(b, Some("B")), Settlement::Loaded(GpuMeshId(1)));
    assert_eq!(registry.settle(c, Some("C")), Settlement::Loaded(GpuMeshId(2)));
    (registry, a, b, c)
}

#[test]
fn reclaim_evicts_only_unreferenced_loaded_meshes() {
    let (mut registry, a, b, c) = three_loaded();
    let objects = vec![object(Some(b)), object(None), object(Some(b))];
    let freed = registry.reclaim_unreferenced(&objects);
    assert_eq!(
        freed,
        vec![
            GpuMesh { id: GpuMeshId(0), resource: "A" },
            GpuMesh { id: GpuMeshId(2), resource: "C" }
        ]
    );
    assert_eq!(registry.ids(), vec![b]);
    assert_eq!(registry.live(), vec![GpuMeshId(1)]);
    assert!(!registry.is_live(GpuMeshId(0)));
    assert!(registry.is_live(GpuMeshId(1)));
    assert!(!registry.is_live(GpuMeshId(2)));
    assert_eq!(registry.resource(GpuMeshId(1)), Some(&"B"));
    assert_eq!(registry.resolve(Some(b)), Some(GpuMeshId(1)));
    assert_eq!(registry.resolve(Some(a)), None);
    assert_eq!(registry.resolve(Some(c)), None);
}

#[test]
fn reclaim_never_evicts_a_referenced_mesh() {
    let (mut registry, a, b, c) = three_loaded();
    let objects = vec![object(Some(c)), object(Some(a)), object(Some(b)), object(Some(a))];
    let before: Vec<Option<GpuMeshId>> =
        objects.iter().map(|o| registry.resolve(o.mesh_ref)).collect();
    let freed = registry.reclaim_unreferenced(&objects);
    assert!(freed.is_empty());
    let after: Vec<Option<GpuMeshId>> =
        objects.iter().map(|o| registry.resolve(o.mesh_ref)).collect();
    assert_eq!(before, after);
    assert_eq!(
        after,
        vec![Some(GpuMeshId(2)), Some(GpuMeshId(0)), Some(GpuMeshId(1)), Some(GpuMeshId(0))]
    );
    assert_eq!(registry.resource(GpuMeshId(0)), Some(&"A"));
    assert_eq!(registry.resource(GpuMeshId(1)), Some(&"B"));
    assert_eq!(registry.resource(GpuMeshId(2)), Some(&"C"));
}

#[test]
fn reclaim_hands_resources_back_in_gpu_order() {
    let mut registry = Registry::new();
    let a = registry.request("a".to_string(), ());
    let b = registry.request("b".to_string(), ());
    let c = registry.request("c".to_string(), ());
    registry.settle(c, Some("C"));
    registry.settle(a, Some("A"));
    registry.settle(b, Some("B"));
    let freed = registry.reclaim_unreferenced(&vec![object(Some(a))]);
    assert_eq!(
        freed,
        vec![
            GpuMesh { id: GpuMeshId(0), resource: "C" },
            GpuMesh { id: GpuMeshId(2), resource: "B" }
        ]
    );
    assert_eq!(registry.ids(), vec![a]);
    assert_eq!(registry.resolve(Some(a)), Some(GpuMeshId(1)));
    assert_eq!(registry.resource(GpuMeshId(1)), Some(&"A"));
}

#[test]
fn reclaim_leaves_loading_and_failed_alone() {
    let mut registry = Registry::new();
    let pending = registry.request("p".to_string(), ());
    let broken = registry.request("f".to_string(), ());
    let ready = registry.request("l".to_string(), ());
    registry.settle(broken, None);
    registry.settle(ready, Some("L"));
    let freed = registry.reclaim_unreferenced(&Vec::new());
    assert_eq!(freed, vec![GpuMesh { id: GpuMeshId(0), resource: "L" }]);
    assert_eq!(registry.ids(), vec![pending, broken]);
    assert!(matches!(registry.state(pending), Some(MeshLoadState::Loading(()))));
    assert!(matches!(registry.state(broken), Some(MeshLoadState::Failed)));
    assert_eq!(registry.pending(), vec![pending]);
    assert!(registry.live().is_empty());
}

#[test]
fn reclaim_ignores_references_to_unknown_meshes() {
    let (mut registry, a, _b, _c) = three_loaded();
    let objects = vec![object(Some(LogicalMeshId(17))), object(Some(a))];
    let freed = registry.reclaim_unreferenced(&objects);
    assert_eq!(
        freed,
        vec![
            GpuMesh { id: GpuMeshId(1), resource: "B" },
            GpuMesh { id: GpuMeshId(2), resource: "C" }
        ]
    );
    assert_eq!(registry.ids(), vec![a]);
}

#[test]
fn reclaim_twice_frees_nothing_twice() {
    let (mut registry, a, _b, _c) = three_loaded();
    let objects = vec![object(Some(a))];
    assert_eq!(registry.reclaim_unreferenced(&objects).len(), 2);
    assert!(registry.reclaim_unreferenced(&objects).is_empty());
    assert_eq!(
        registry.reclaim_unreferenced(&Vec::new()),
        vec![GpuMesh { id: GpuMeshId(0), resource: "A" }]
    );
    assert!(registry.reclaim_unreferenced(&Vec::new()).is_empty());
}

#[test]
fn gpu_ids_follow_the_largest_live_one() {
    let (mut registry, a, b, _c) = three_loaded();
    registry.reclaim_unreferenced(&vec![object(Some(a)), object(Some(b))]);
    assert_eq!(registry.gpu_ceiling(), 2);
    let d = registry.request("d".to_string(), ());
    assert_eq!(registry.settle(d, Some("D")), Settlement::Loaded(GpuMeshId(2)));
    registry.reclaim_unreferenced(&vec![object(Some(d))]);
    assert!(registry.is_live(GpuMeshId(2)));
    assert!(!registry.is_live(GpuMeshId(0)));
    let e = registry.request("e".to_string(), ());
    assert_eq!(registry.settle(e, Some("E")), Settlement::Loaded(GpuMeshId(3)));
    registry.reclaim_unreferenced(&Vec::new());
    assert_eq!(registry.gpu_ceiling(), 0);
    let f = registry.request("f".to_string(), ());
    assert_eq!(registry.settle(f, Some("F")), Settlement::Loaded(GpuMeshId(0)));
}

#[test]
fn evicted_id_is_never_issued_again() {
    let (mut registry, _a, _b, c) = three_loaded();
    registry.reclaim_unreferenced(&Vec::new());
    assert!(registry.ids().is_empty());
    let d = registry.request("a".to_string(), ());
    assert_eq!(d, LogicalMeshId(3));
    assert!(d.0 > c.0);
}

#[test]
fn clear_drops_everything_and_keeps_counting() {
    let mut registry = Registry::new();
    let a = registry.request("a".to_string(), ());
    let b = registry.request("b".to_string(), ());
    let c = registry.request("c".to_string(), ());
    registry.settle(a, None);
    registry.settle(c, Some("C"));
    registry.settle(b, Some("B"));
    let freed = registry.clear();
    assert_eq!(
        freed,
        vec![
            GpuMesh { id: GpuMeshId(0), resource: "C" },
            GpuMesh { id: GpuMeshId(1), resource: "B" }
        ]
    );
    assert!(registry.ids().is_empty());
    assert!(registry.live().is_empty());
    assert!(!registry.is_live(GpuMeshId(0)));
    assert!(!registry.is_live(GpuMeshId(1)));
    assert_eq!(registry.next_id(), 3);
    assert_eq!(registry.gpu_ceiling(), 0);
    let d = registry.request("a".to_string(), ());
    assert_eq!(d, LogicalMeshId(3));
    assert_eq!(registry.settle(d, Some("D")), Settlement::Loaded(GpuMeshId(0)));
    assert!(registry.clear() == vec![GpuMesh { id: GpuMeshId(0), resource: "D" }]);
    assert!(registry.clear().is_empty());
}
