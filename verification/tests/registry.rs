use mesh_scene::ids::{GpuMeshId, LogicalMeshId};
use mesh_scene::registry::ResourceRegistry;
use mesh_scene::state::MeshLoadState;
use mesh_scene::view::{Completion, Settlement, Upload};

type Registry = ResourceRegistry<u32, String>;

fn loading(registry: &Registry, id: LogicalMeshId) -> bool {
    matches!(registry.state(id), Some(MeshLoadState::Loading(_)))
}

fn failed(registry: &Registry, id: LogicalMeshId) -> bool {
    matches!(registry.state(id), Some(MeshLoadState::Failed))
}

fn loaded_as(registry: &Registry, id: LogicalMeshId) -> Option<GpuMeshId> {
    match registry.state(id) {
        Some(MeshLoadState::Loaded(gpu)) => Some(*gpu),
        _ => None,
    }
}

fn buffers(name: &str) -> Option<String> {
    Some(name.to_string())
}

#[test]
fn new_registry_is_empty() {
    let registry = Registry::new();
    assert_eq!(registry.next_id(), 0);
    assert_eq!(registry.gpu_ceiling(), 0);
    assert!(registry.ids().is_empty());
    assert!(registry.pending().is_empty());
    assert!(registry.live().is_empty());
    assert!(!registry.contains(LogicalMeshId(0)));
    assert!(registry.state(LogicalMeshId(0)).is_none());
    assert!(!registry.is_live(GpuMeshId(0)));
    assert_eq!(registry.resource(GpuMeshId(0)), None);
}

#[test]
fn request_issues_ids_in_order() {
    let mut registry = Registry::new();
    let a = registry.request("/model/a.json".to_string(), 10);
    let b = registry.request("/model/b.json".to_string(), 11);
    let c = registry.request("/model/a.json".to_string(), 12);
    assert_eq!(a, LogicalMeshId(0));
    assert_eq!(b, LogicalMeshId(1));
    assert_eq!(c, LogicalMeshId(2));
    assert_eq!(registry.next_id(), 3);
    assert_eq!(registry.ids(), vec![a, b, c]);
    assert_eq!(registry.pending(), vec![a, b, c]);
    assert!(registry.live().is_empty());
}

#[test]
fn request_records_source_and_handle() {
    let mut registry = Registry::new();
    let a = registry.request("/model/a.json".to_string(), 10);
    let b = registry.request("/model/b.json".to_string(), 11);
    assert_eq!(registry.source(a).map(|s| s.as_str()), Some("/model/a.json"));
    assert_eq!(registry.source(b).map(|s| s.as_str()), Some("/model/b.json"));
    assert_eq!(registry.source(LogicalMeshId(2)), None);
    assert_eq!(registry.handle(a), Some(&10));
    assert_eq!(registry.handle(b), Some(&11));
    assert_eq!(registry.handle(LogicalMeshId(2)), None);
    assert!(loading(&registry, a));
    assert!(loading(&registry, b));
}

#[test]
fn settle_with_resource_loads_under_fresh_gpu_id() {
    let mut registry = Registry::new();
    let a = registry.request("a".to_string(), 0);
    let b = registry.request("b".to_string(), 0);
    assert_eq!(registry.settle(b, buffers("B")), Settlement::Loaded(GpuMeshId(0)));
    assert_eq!(registry.gpu_ceiling(), 1);
    assert_eq!(registry.settle(a, buffers("A")), Settlement::Loaded(GpuMeshId(1)));
    assert_eq!(registry.gpu_ceiling(), 2);
    assert_eq!(loaded_as(&registry, b), Some(GpuMeshId(0)));
    assert_eq!(loaded_as(&registry, a), Some(GpuMeshId(1)));
    assert_eq!(registry.resource(GpuMeshId(0)).map(|r| r.as_str()), Some("B"));
    assert_eq!(registry.resource(GpuMeshId(1)).map(|r| r.as_str()), Some("A"));
    assert_eq!(registry.resource(GpuMeshId(2)), None);
    assert!(registry.is_live(GpuMeshId(0)));
    assert!(registry.is_live(GpuMeshId(1)));
    assert!(!registry.is_live(GpuMeshId(2)));
    assert_eq!(registry.live(), vec![GpuMeshId(0), GpuMeshId(1)]);
    assert!(registry.pending().is_empty());
    assert_eq!(registry.handle(a), None);
}

#[test]
fn settle_failure_is_terminal() {
    let mut registry = Registry::new();
    let a = registry.request("a".to_string(), 0);
    assert_eq!(registry.settle(a, None), Settlement::Failed);
    assert!(failed(&registry, a));
    assert_eq!(registry.settle(a, buffers("late")), Settlement::Ignored(buffers("late")));
    assert!(failed(&registry, a));
    assert_eq!(registry.settle(a, None), Settlement::Ignored(None));
    assert!(failed(&registry, a));
    assert!(!registry.is_live(GpuMeshId(0)));
    assert_eq!(registry.gpu_ceiling(), 0);
    assert_eq!(registry.resolve(Some(a)), None);
}

#[test]
fn settle_leaves_loaded_and_unknown_alone() {
    let mut registry = Registry::new();
    let a = registry.request("a".to_string(), 0);
    assert_eq!(registry.settle(a, buffers("A")), Settlement::Loaded(GpuMeshId(0)));
    assert_eq!(registry.settle(a, buffers("again")), Settlement::Ignored(buffers("again")));
    assert_eq!(registry.settle(a, None), Settlement::Ignored(None));
    assert_eq!(loaded_as(&registry, a), Some(GpuMeshId(0)));
    assert_eq!(registry.resource(GpuMeshId(0)).map(|r| r.as_str()), Some("A"));
    assert_eq!(
        registry.settle(LogicalMeshId(7), buffers("stray")),
        Settlement::Ignored(buffers("stray"))
    );
    assert_eq!(registry.ids(), vec![a]);
    assert_eq!(registry.live(), vec![GpuMeshId(0)]);
}

#[test]
fn failed_fetch_then_new_request_gets_new_id() {
    let mut registry = Registry::new();
    let first = registry.request("/model/b.json".to_string(), 0);
    assert!(loading(&registry, first));
    let report = registry.drain_completed_loads(vec![Completion { id: first, outcome: None }]);
    assert!(report.loaded.is_empty());
    assert!(report.rejected.is_empty());
    assert!(failed(&registry, first));
    let second = registry.request("/model/b.json".to_string(), 0);
    assert_ne!(second, first);
    assert_eq!(second, LogicalMeshId(1));
    assert!(failed(&registry, first));
    assert!(loading(&registry, second));
}

#[test]
fn drain_settles_in_the_order_given() {
    let mut registry = Registry::new();
    let a = registry.request("a".to_string(), 0);
    let b = registry.request("b".to_string(), 0);
    let c = registry.request("c".to_string(), 0);
    let d = registry.request("d".to_string(), 0);
    let report = registry.drain_completed_loads(vec![
        Completion { id: a, outcome: buffers("A") },
        Completion { id: b, outcome: None },
        Completion { id: c, outcome: buffers("C") },
    ]);
    assert_eq!(
        report.loaded,
        vec![Upload { id: a, gpu: GpuMeshId(0) }, Upload { id: c, gpu: GpuMeshId(1) }]
    );
    assert!(report.rejected.is_empty());
    assert_eq!(loaded_as(&registry, a), Some(GpuMeshId(0)));
    assert!(failed(&registry, b));
    assert_eq!(loaded_as(&registry, c), Some(GpuMeshId(1)));
    assert!(loading(&registry, d));
    assert_eq!(registry.pending(), vec![d]);
    assert_eq!(registry.next_id(), 4);
    assert_eq!(registry.resource(GpuMeshId(0)).map(|r| r.as_str()), Some("A"));
    assert_eq!(registry.resource(GpuMeshId(1)).map(|r| r.as_str()), Some("C"));
}

#[test]
fn drain_in_reverse_order_gives_gpu_ids_in_that_order() {
    let mut registry = Registry::new();
    let a = registry.request("a".to_string(), 0);
    let b = registry.request("b".to_string(), 0);
    let report = registry.drain_completed_loads(vec![
        Completion { id: b, outcome: buffers("B") },
        Completion { id: a, outcome: buffers("A") },
    ]);
    assert_eq!(
        report.loaded,
        vec![Upload { id: b, gpu: GpuMeshId(0) }, Upload { id: a, gpu: GpuMeshId(1) }]
    );
    assert_eq!(registry.resolve(Some(a)), Some(GpuMeshId(1)));
    assert_eq!(registry.resolve(Some(b)), Some(GpuMeshId(0)));
}

#[test]
fn drain_first_report_wins_and_the_rest_is_handed_back() {
    let mut registry = Registry::new();
    let a = registry.request("a".to_string(), 0);
    let b = registry.request("b".to_string(), 0);
    let report = registry.drain_completed_loads(vec![
        Completion { id: LogicalMeshId(9), outcome: buffers("stray") },
        Completion { id: b, outcome: None },
        Completion { id: b, outcome: buffers("late") },
        Completion { id: a, outcome: buffers("A") },
        Completion { id: a, outcome: None },
        Completion { id: a, outcome: buffers("twice") },
    ]);
    assert_eq!(report.loaded, vec![Upload { id: a, gpu: GpuMeshId(0) }]);
    assert_eq!(
        report.rejected,
        vec!["stray".to_string(), "late".to_string(), "twice".to_string()]
    );
    assert!(failed(&registry, b));
    assert_eq!(loaded_as(&registry, a), Some(GpuMeshId(0)));
    assert_eq!(registry.resource(GpuMeshId(0)).map(|r| r.as_str()), Some("A"));
    assert_eq!(registry.ids(), vec![a, b]);
    assert_eq!(registry.live(), vec![GpuMeshId(0)]);
}

#[test]
fn drain_with_nothing_resolved_changes_nothing() {
    let mut registry = Registry::new();
    let a = registry.request("a".to_string(), 5);
    let report = registry.drain_completed_loads(Vec::new());
    assert!(report.loaded.is_empty());
    assert!(report.rejected.is_empty());
    assert!(loading(&registry, a));
    assert_eq!(registry.handle(a), Some(&5));
}

#[test]
fn resolve_is_default_unless_loaded() {
    let mut registry = Registry::new();
    let pending = registry.request("p".to_string(), 0);
    let broken = registry.request("f".to_string(), 0);
    let ready = registry.request("l".to_string(), 0);
    registry.settle(broken, None);
    registry.settle(ready, buffers("L"));
    assert_eq!(registry.resolve(None), None);
    assert_eq!(registry.resolve(Some(pending)), None);
    assert_eq!(registry.resolve(Some(broken)), None);
    assert_eq!(registry.resolve(Some(LogicalMeshId(40))), None);
    assert_eq!(registry.resolve(Some(ready)), Some(GpuMeshId(0)));
}

#[test]
fn mesh_or_falls_back_to_the_default_mesh() {
    let mut registry = Registry::new();
    let pending = registry.request("p".to_string(), 0);
    let ready = registry.request("l".to_string(), 0);
    registry.settle(ready, buffers("L"));
    let fallback = "default".to_string();
    assert_eq!(registry.mesh_or(None, &fallback), "default");
    assert_eq!(registry.mesh_or(registry.resolve(Some(pending)), &fallback), "default");
    assert_eq!(registry.mesh_or(registry.resolve(Some(ready)), &fallback), "L");
    assert_eq!(registry.mesh_or(Some(GpuMeshId(0)), &fallback), "L");
    assert_eq!(registry.mesh_or(Some(GpuMeshId(1)), &fallback), "default");
}

#[test]
fn lookup_finds_every_entry_of_a_long_list() {
    let mut registry = Registry::new();
    for n in 0..37u32 {
        let id = registry.request(format!("m{n}"), n);
        assert_eq!(id, LogicalMeshId(n as usize));
    }
    for n in (0..37u32).rev() {
        let id = LogicalMeshId(n as usize);
        assert_eq!(registry.settle(id, Some(format!("r{n}"))), Settlement::Loaded(GpuMeshId(36 - n as usize)));
    }
    for n in 0..37u32 {
        let id = LogicalMeshId(n as usize);
        assert!(registry.contains(id));
        assert_eq!(registry.source(id).map(|s| s.clone()), Some(format!("m{n}")));
        let gpu = registry.resolve(Some(id)).unwrap();
        assert_eq!(gpu, GpuMeshId(36 - n as usize));
        assert_eq!(registry.resource(gpu).map(|r| r.clone()), Some(format!("r{n}")));
    }
    assert!(!registry.contains(LogicalMeshId(37)));
    assert!(!registry.is_live(GpuMeshId(37)));
    assert_eq!(registry.gpu_ceiling(), 37);
}

#[test]
fn state_helpers_follow_the_state_machine() {
    let loading: MeshLoadState<u32> = MeshLoadState::Loading(1);
    assert!(loading.is_loading());
    assert_eq!(loading.gpu_mesh(), None);
    let failed: MeshLoadState<u32> = MeshLoadState::Failed;
    assert!(!failed.is_loading());
    assert_eq!(failed.gpu_mesh(), None);
    let loaded: MeshLoadState<u32> = MeshLoadState::Loaded(GpuMeshId(1));
    assert!(!loaded.is_loading());
    assert_eq!(loaded.gpu_mesh(), Some(GpuMeshId(1)));
    let ready: MeshLoadState<u32> = MeshLoadState::Ready;
    assert!(!ready.is_loading());
    assert_eq!(ready.gpu_mesh(), None);
}
