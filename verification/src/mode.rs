//! Per-object shading mode.

use vstd::prelude::*;

verus! {

/// The five shading behaviours an object can select at draw time.
#[derive(Clone, Copy, Debug, PartialEq, Eq, Structural)]
pub enum RenderingMode {
    Flat,
    Gouraud,
    Phong,
    FakeFlat,
    Cartoon,
}

impl RenderingMode {
    /// The integer the shading stage receives for this mode.
    pub open spec fn index(self) -> int {
        match self {
            RenderingMode::Flat => 0,
            RenderingMode::Gouraud => 1,
            RenderingMode::Phong => 2,
            RenderingMode::FakeFlat => 3,
            RenderingMode::Cartoon => 4,
        }
    }

    /// Encodes the mode as the integer uniform of the shading stage.
    pub fn as_int(self) -> (code: i32)
        ensures
            code == self.index(),
    {
        match self {
            RenderingMode::Flat => 0,
            RenderingMode::Gouraud => 1,
            RenderingMode::Phong => 2,
            RenderingMode::FakeFlat => 3,
            RenderingMode::Cartoon => 4,
        }
    }
}

impl Default for RenderingMode {
    /// New objects are shaded with `Phong`.
    fn default() -> (mode: RenderingMode)
        ensures
            mode == RenderingMode::Phong,
    {
        RenderingMode::Phong
    }
}

/// Distinct modes are sent to the shading stage as distinct integers.
pub proof fn lemma_index_injective(a: RenderingMode, b: RenderingMode)
    requires
        a.index() == b.index(),
    ensures
        a == b,
{
}

} // verus!
