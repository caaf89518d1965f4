//! Viewport-facing settings: how the renderer shades the evaluated mesh.

use vstd::prelude::*;

use crate::project::ShadingMode;

verus! {

/// Shading mode as the renderer consumes it.
#[derive(Debug, Clone, Copy, PartialEq, Eq, Structural)]
pub enum ViewportShadingMode {
    Lit,
    Normals,
    Depth,
}

/// Maps a project-level shading mode to the renderer's.
pub fn viewport_shading_mode(mode: ShadingMode) -> (r: ViewportShadingMode)
    ensures
        mode == ShadingMode::Lit ==> r == ViewportShadingMode::Lit,
        mode == ShadingMode::Normals ==> r == ViewportShadingMode::Normals,
        mode == ShadingMode::Depth ==> r == ViewportShadingMode::Depth,
{
    match mode {
        ShadingMode::Lit => ViewportShadingMode::Lit,
        ShadingMode::Normals => ViewportShadingMode::Normals,
        ShadingMode::Depth => ViewportShadingMode::Depth,
    }
}

} // verus!
