//! The two identifier spaces of the registry.

use vstd::prelude::*;

verus! {

/// Stable identifier of a requested mesh.
///
/// An object refers to a mesh by this identifier whatever the state of the
/// fetch. Identifiers are handed out in increasing order and never reused.
#[derive(Clone, Copy, Debug, PartialEq, Eq, Structural)]
pub struct LogicalMeshId(pub usize);

/// Identifier of a mesh that has been uploaded and can be drawn.
///
/// It lives in a namespace of its own: a logical identifier resolves to a GPU
/// identifier only once its mesh is loaded.
#[derive(Clone, Copy, Debug, PartialEq, Eq, Structural)]
pub struct GpuMeshId(pub usize);

} // verus!
