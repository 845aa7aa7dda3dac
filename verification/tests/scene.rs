use glam::{vec3, Mat4};
use mesh_scene::frame::advance_frame;
use mesh_scene::ids::{GpuMeshId, LogicalMeshId};
use mesh_scene::mesh::{item_count, MeshResource};
use mesh_scene::mode::RenderingMode;
use mesh_scene::registry::ResourceRegistry;
use mesh_scene::scene::{assemble, SceneObject};
use mesh_scene::state::MeshLoadState;
use mesh_scene::view::{Completion, GpuMesh, Upload};
use poll_promise::Promise;

type Fetch = Promise<Option<Vec<f32>>>;
type Buffers = MeshResource<u32>;
type Registry = ResourceRegistry<Fetch, Buffers>;

/// Stands for the upload of a parsed mesh: three buffers numbered from
/// `first`.
fn upload(positions: &[f32], first: u32) -> Buffers {
    MeshResource::new(first, first + 1, first + 2, positions.len())
}

/// Polls every pending fetch once, as a frame loop does.
fn poll(registry: &Registry, first: u32) -> Vec<Completion<Buffers>> {
    let mut completions = Vec::new();
    for id in registry.pending() {
        if let Some(promise) = registry.handle(id) {
            if let Some(result) = promise.ready() {
                let outcome = result.as_ref().map(|positions| upload(positions, first));
                completions.push(Completion { id, outcome });
            }
        }
    }
    completions
}

fn object(mesh_ref: Option<LogicalMeshId>) -> SceneObject {
    SceneObject { model_matrix: Mat4::IDENTITY, shading_mode: RenderingMode::Phong, mesh_ref }
}

#[test]
fn mode_codes() {
    assert_eq!(RenderingMode::Flat.as_int(), 0);
    assert_eq!(RenderingMode::Gouraud.as_int(), 1);
    assert_eq!(RenderingMode::Phong.as_int(), 2);
    assert_eq!(RenderingMode::FakeFlat.as_int(), 3);
    assert_eq!(RenderingMode::Cartoon.as_int(), 4);
}

#[test]
fn default_mode_is_phong() {
    assert_eq!(RenderingMode::default(), RenderingMode::Phong);
}

#[test]
fn item_count_is_a_third_of_the_components() {
    assert_eq!(item_count(0), 0);
    assert_eq!(item_count(9), 3);
    assert_eq!(item_count(10), 3);
    assert_eq!(item_count(11), 3);
    assert_eq!(item_count(12), 4);
    assert_eq!(item_count(i32::MAX as usize), 715827882);
}

#[test]
fn mesh_resource_keeps_buffers_and_counts_items() {
    let resource = MeshResource::new("p", "c", "n", 36);
    assert_eq!(resource, MeshResource { positions: "p", colors: "c", normals: "n", item_count: 12 });
    let empty = MeshResource::new(1u8, 2u8, 3u8, 2);
    assert_eq!(empty.item_count, 0);
    assert_eq!((empty.positions, empty.colors, empty.normals), (1, 2, 3));
}

#[test]
fn assemble_keeps_order_matrix_and_mode() {
    let mut registry: ResourceRegistry<(), u8> = ResourceRegistry::new();
    let a = registry.request("a".to_string(), ());
    let b = registry.request("b".to_string(), ());
    registry.settle(b, Some(7));
    let moved = Mat4::from_translation(vec3(2.0, 0.0, 0.0));
    let objects = vec![
        SceneObject { model_matrix: moved, shading_mode: RenderingMode::Cartoon, mesh_ref: Some(b) },
        SceneObject { model_matrix: Mat4::IDENTITY, shading_mode: RenderingMode::Flat, mesh_ref: Some(a) },
        SceneObject { model_matrix: Mat4::ZERO, shading_mode: RenderingMode::Gouraud, mesh_ref: None },
    ];
    let snapshot = assemble(&objects, &registry);
    assert_eq!(snapshot.len(), 3);
    assert_eq!(snapshot[0].model_matrix, moved);
    assert_eq!(snapshot[0].mode, 4);
    assert_eq!(snapshot[0].gpu_mesh, Some(GpuMeshId(0)));
    assert_eq!(snapshot[1].model_matrix, Mat4::IDENTITY);
    assert_eq!(snapshot[1].mode, 0);
    assert_eq!(snapshot[1].gpu_mesh, None);
    assert_eq!(snapshot[2].model_matrix, Mat4::ZERO);
    assert_eq!(snapshot[2].mode, 1);
    assert_eq!(snapshot[2].gpu_mesh, None);
    assert_eq!(registry.mesh_or(snapshot[0].gpu_mesh, &0), &7);
    assert_eq!(registry.mesh_or(snapshot[1].gpu_mesh, &0), &0);
}

#[test]
fn non_loaded_meshes_are_drawn_with_the_default_mesh() {
    let mut registry: ResourceRegistry<(), u8> = ResourceRegistry::new();
    let pending = registry.request("p".to_string(), ());
    let broken = registry.request("f".to_string(), ());
    registry.settle(broken, None);
    let objects: Vec<SceneObject> = [Some(pending), Some(broken), None, Some(LogicalMeshId(9))]
        .iter()
        .map(|r| object(*r))
        .collect();
    let snapshot = assemble(&objects, &registry);
    assert_eq!(snapshot.len(), 4);
    for rendered in &snapshot {
        assert_eq!(rendered.gpu_mesh, None);
        assert_eq!(rendered.mode, 2);
        assert_eq!(registry.mesh_or(rendered.gpu_mesh, &255), &255);
    }
    let single = objects[1].to_rendered(&registry);
    assert_eq!(single.gpu_mesh, None);
}

#[test]
fn mesh_lifecycle_over_frames() {
    let mut registry = Registry::new();
    let (sender, promise) = Promise::new();
    let a = registry.request("/model/a.json".to_string(), promise);
    assert_eq!(a, LogicalMeshId(0));
    let mut objects = vec![object(Some(a))];

    let completions = poll(&registry, 10);
    assert!(completions.is_empty());
    let frame = advance_frame(&mut registry, completions, &objects);
    assert!(frame.loaded.is_empty());
    assert!(frame.freed.is_empty());
    assert!(matches!(registry.state(a), Some(MeshLoadState::Loading(_))));
    assert_eq!(frame.objects[0].gpu_mesh, None);

    sender.send(Some(vec![0.0; 9]));
    let completions = poll(&registry, 10);
    assert_eq!(completions.len(), 1);
    let frame = advance_frame(&mut registry, completions, &objects);
    assert_eq!(frame.loaded, vec![Upload { id: a, gpu: GpuMeshId(0) }]);
    assert!(frame.rejected.is_empty());
    assert!(frame.freed.is_empty());
    assert!(matches!(registry.state(a), Some(MeshLoadState::Loaded(GpuMeshId(0)))));
    assert!(registry.is_live(GpuMeshId(0)));
    let expected = MeshResource { positions: 10, colors: 11, normals: 12, item_count: 3 };
    assert_eq!(registry.resource(GpuMeshId(0)), Some(&expected));
    assert_eq!(frame.objects[0].gpu_mesh, Some(GpuMeshId(0)));

    objects[0].mesh_ref = None;
    let completions = poll(&registry, 20);
    assert!(completions.is_empty());
    let frame = advance_frame(&mut registry, completions, &objects);
    assert!(frame.loaded.is_empty());
    assert_eq!(frame.freed, vec![GpuMesh { id: GpuMeshId(0), resource: expected }]);
    assert!(!registry.is_live(GpuMeshId(0)));
    assert_eq!(registry.resource(GpuMeshId(0)), None);
    assert!(!registry.contains(a));
    assert_eq!(frame.objects[0].gpu_mesh, None);
}

#[test]
fn failed_fetch_over_frames() {
    let mut registry = Registry::new();
    let (sender, promise) = Promise::new();
    let b = registry.request("/model/b.json".to_string(), promise);
    let objects = vec![object(Some(b))];
    sender.send(None);
    let completions = poll(&registry, 10);
    assert_eq!(completions.len(), 1);
    assert_eq!(completions[0].id, b);
    assert_eq!(completions[0].outcome, None);
    let frame = advance_frame(&mut registry, completions, &objects);
    assert!(frame.loaded.is_empty());
    assert!(frame.rejected.is_empty());
    assert!(frame.freed.is_empty());
    assert!(matches!(registry.state(b), Some(MeshLoadState::Failed)));
    assert_eq!(frame.objects[0].gpu_mesh, None);

    let again = registry.request("/model/b.json".to_string(), Promise::from_ready(None));
    assert_eq!(again, LogicalMeshId(1));
    assert!(matches!(registry.state(b), Some(MeshLoadState::Failed)));
    let completions = poll(&registry, 10);
    assert_eq!(completions.len(), 1);
    assert_eq!(completions[0].id, again);
    let frame = advance_frame(&mut registry, completions, &objects);
    assert!(matches!(registry.state(again), Some(MeshLoadState::Failed)));
    assert!(matches!(registry.state(b), Some(MeshLoadState::Failed)));
    assert_eq!(frame.objects[0].gpu_mesh, None);
    assert!(registry.live().is_empty());
}

#[test]
fn unreferenced_mesh_is_loaded_and_reclaimed_in_one_frame() {
    let mut registry = Registry::new();
    let a = registry.request("a".to_string(), Promise::from_ready(Some(vec![1.0; 9])));
    let completions = poll(&registry, 30);
    let frame = advance_frame(&mut registry, completions, &Vec::new());
    assert_eq!(frame.loaded, vec![Upload { id: a, gpu: GpuMeshId(0) }]);
    assert_eq!(
        frame.freed,
        vec![GpuMesh {
            id: GpuMeshId(0),
            resource: MeshResource { positions: 30, colors: 31, normals: 32, item_count: 3 }
        }]
    );
    assert!(frame.objects.is_empty());
    assert!(!registry.is_live(GpuMeshId(0)));
    assert!(!registry.contains(a));
}

#[test]
fn every_mesh_a_frame_names_has_its_resource() {
    let mut registry = Registry::new();
    let a = registry.request("a".to_string(), Promise::from_ready(Some(vec![1.0; 18])));
    let b = registry.request("b".to_string(), Promise::from_ready(Some(vec![1.0; 27])));
    let c = registry.request("c".to_string(), Promise::from_ready(None));
    let objects = vec![object(Some(b)), object(Some(c)), object(None), object(Some(b))];
    let completions = poll(&registry, 0);
    let frame = advance_frame(&mut registry, completions, &objects);
    assert_eq!(
        frame.loaded,
        vec![Upload { id: a, gpu: GpuMeshId(0) }, Upload { id: b, gpu: GpuMeshId(1) }]
    );
    assert_eq!(frame.freed.len(), 1);
    assert_eq!(frame.freed[0].id, GpuMeshId(0));
    assert_eq!(frame.freed[0].resource.item_count, 6);
    let fallback = MeshResource { positions: 90, colors: 91, normals: 92, item_count: 1 };
    let drawn: Vec<i32> = frame
        .objects
        .iter()
        .map(|rendered| {
            if let Some(gpu) = rendered.gpu_mesh {
                assert!(registry.is_live(gpu));
            }
            registry.mesh_or(rendered.gpu_mesh, &fallback).item_count
        })
        .collect();
    assert_eq!(drawn, vec![9, 1, 1, 9]);
}

#[test]
fn abandoned_fetch_still_lands_in_its_own_slot() {
    let mut registry = Registry::new();
    let (old_sender, old_promise) = Promise::new();
    let old = registry.request("/model/old.json".to_string(), old_promise);
    let (new_sender, new_promise) = Promise::new();
    let new = registry.request("/model/new.json".to_string(), new_promise);
    // The object was pointed at the first request and then at the second.
    let objects = vec![object(Some(new))];

    old_sender.send(Some(vec![0.0; 9]));
    let completions = poll(&registry, 10);
    let frame = advance_frame(&mut registry, completions, &objects);
    assert_eq!(frame.loaded, vec![Upload { id: old, gpu: GpuMeshId(0) }]);
    assert_eq!(frame.freed.len(), 1);
    assert_eq!(frame.freed[0].id, GpuMeshId(0));
    assert!(!registry.contains(old));
    assert!(matches!(registry.state(new), Some(MeshLoadState::Loading(_))));
    assert_eq!(frame.objects[0].gpu_mesh, None);

    new_sender.send(Some(vec![0.0; 18]));
    let completions = poll(&registry, 20);
    let frame = advance_frame(&mut registry, completions, &objects);
    assert_eq!(frame.loaded, vec![Upload { id: new, gpu: GpuMeshId(0) }]);
    assert!(frame.freed.is_empty());
    assert_eq!(frame.objects[0].gpu_mesh, Some(GpuMeshId(0)));
    assert_eq!(registry.resource(GpuMeshId(0)).map(|r| r.item_count), Some(6));
}

#[test]
fn ids_keep_increasing_through_a_long_history() {
    let mut registry: ResourceRegistry<(), u32> = ResourceRegistry::new();
    let mut issued = Vec::new();
    let mut objects: Vec<SceneObject> = Vec::new();
    for round in 0..40u32 {
        let id = registry.request(format!("m{round}"), ());
        issued.push(id);
        match round % 4 {
            0 => {
                registry.settle(id, None);
            }
            1 => {
                registry.settle(id, Some(round));
                objects.push(object(Some(id)));
            }
            2 => {
                registry.settle(id, Some(round));
            }
            _ => {}
        }
        if round % 5 == 4 {
            registry.reclaim_unreferenced(&objects);
        }
        if round == 25 {
            registry.clear();
            objects.clear();
        }
    }
    for (n, id) in issued.iter().enumerate() {
        assert_eq!(*id, LogicalMeshId(n));
    }
    for pair in issued.windows(2) {
        assert!(pair[0].0 < pair[1].0);
    }
    assert_eq!(registry.next_id(), 40);
    for rendered in assemble(&objects, &registry) {
        let gpu = rendered.gpu_mesh.expect("a referenced loaded mesh stays loaded");
        assert!(registry.is_live(gpu));
    }
}
