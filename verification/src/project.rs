//! Project-level settings that accompany a graph: which side panels are
//! open and how the viewport shades the evaluated mesh.

use vstd::prelude::*;

verus! {

/// Visibility of the editor's side panels.
#[derive(Debug, Clone)]
pub struct PanelSettings {
    pub show_inspector: bool,
    pub show_debug: bool,
    pub show_console: bool,
}

impl Default for PanelSettings {
    /// Every panel starts visible.
    fn default() -> (r: Self)
        ensures
            r.show_inspector,
            r.show_debug,
            r.show_console,
    {
        Self { show_inspector: true, show_debug: true, show_console: true }
    }
}

/// Shading applied to the evaluated mesh in the viewport.
#[derive(Debug, Clone, Copy, PartialEq, Eq, Structural)]
pub enum ShadingMode {
    Lit,
    Normals,
    Depth,
}

} // verus!
