//! Core data model and incremental evaluation engine for a procedural
//! modeling node graph: typed nodes connected by links, per-node parameter
//! stores, cycle-free link management, topological evaluation order,
//! fingerprint-based result caching, and error propagation reports.

mod edit;
mod eval;
mod fingerprint;
mod graph;
mod nodes_builtin;
mod params;
mod project;
mod reach;
mod topo;
mod viewport;

pub use graph::{
    Graph, GraphError, Link, LinkId, Node, NodeDefinition, NodeId, Pin, PinDefinition, PinId,
    PinKind, PinType,
};
pub use eval::{
    count_hits, count_node_errors, err_node, eval_pass_post, evaluate_from, evaluate_from_with,
    is_node_error, node_failed, was_hit, CacheEntry, EvalCacheStats, EvalError, EvalNodeReport,
    EvalReport, EvalState,
};
pub use fingerprint::{
    fp_eq, fp_view, fps_view, lemma_invalidation, param_edit, param_value_clone, params_duplicate,
    params_eq, spec_fp, Fingerprint, FingerprintView,
};
pub use nodes_builtin::{
    builtin_definitions, builtin_kind_from_name, default_params, is_kind_definition,
    kind_name_bytes, kind_name_view, node_definition, param_bool, param_int, uniform3,
    BuiltinNodeKind,
};
pub use params::{param_value_eq, NodeParams, ParamValue, ParamValueView};
pub use project::{PanelSettings, ShadingMode};
pub use viewport::{viewport_shading_mode, ViewportShadingMode};
