//! The GPU resource of one mesh.

use vstd::prelude::*;

verus! {

/// The number of items that one draw call of a mesh covers: its positions
/// are a flat sequence of three components per vertex, and the mesh is drawn
/// as a triangle list, one item per vertex.
pub open spec fn item_count_spec(position_components: int) -> int {
    position_components / 3
}

/// The number of items that one draw call of a mesh with the given number
/// of position components covers.
///
/// The draw call counts in `i32`, so there must not be more components than
/// that.
pub fn item_count(position_components: usize) -> (count: i32)
    requires
        position_components <= i32::MAX,
    ensures
        count == item_count_spec(position_components as int),
{
    (position_components / 3) as i32
}

/// The buffers of one uploaded mesh, `B` being the handle of a GPU buffer,
/// and the number of items to draw.
#[derive(Debug, PartialEq, Eq)]
pub struct MeshResource<B> {
    pub positions: B,
    pub colors: B,
    pub normals: B,
    pub item_count: i32,
}

impl<B> MeshResource<B> {
    /// The resource of a mesh whose three attribute buffers have been
    /// filled and whose positions have the given number of components.
    pub fn new(positions: B, colors: B, normals: B, position_components: usize) -> (resource:
        MeshResource<B>)
        requires
            position_components <= i32::MAX,
        ensures
            resource.positions == positions,
            resource.colors == colors,
            resource.normals == normals,
            resource.item_count == item_count_spec(position_components as int),
    {
        MeshResource { positions, colors, normals, item_count: item_count(position_components) }
    }
}

} // verus!
